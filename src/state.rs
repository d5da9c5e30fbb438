use vstd::prelude::*;
use crate::circuit_breaker::{now_epoch, BreakerConfig, CircuitBreaker};
use crate::config::{Endpoint, RpcEndpoints};
use crate::token_bucket::TokenBucket;

verus! {

/// Live state of one upstream.
pub struct ProviderState {
    pub url: String,
    pub weight: u32,
    /// 0 means unlimited.
    pub max_tps: u32,
    pub healthy: bool,
    pub latest_block: u64,
    pub behind: u64,
    /// `u64::MAX` until a probe has answered.
    pub latency_ms: u64,
    pub errors: u64,
    /// Attempts issued to this provider.
    pub call_count: u64,
    pub bucket: TokenBucket,
    pub breaker: CircuitBreaker,
}

pub open spec fn at_least_one(w: u32) -> u32 {
    if w >= 1 { w } else { 1 }
}

pub open spec fn tps_of(ep: Endpoint) -> u32 {
    match ep.max_tps {
        Some(t) => t,
        None => 0,
    }
}

pub open spec fn full_bucket(max_tps: u32) -> TokenBucket {
    TokenBucket { max_tps, tokens_milli: (max_tps * 1000) as u64, last_ms: 0 }
}

/// The state of a provider that has just appeared in the configuration. It is
/// unhealthy until a health sweep has probed it.
pub open spec fn fresh(ep: Endpoint) -> ProviderState {
    ProviderState {
        url: ep.url,
        weight: at_least_one(ep.weight),
        max_tps: tps_of(ep),
        healthy: false,
        latest_block: 0,
        behind: 0,
        latency_ms: u64::MAX,
        errors: 0,
        call_count: 0,
        bucket: full_bucket(tps_of(ep)),
        breaker: CircuitBreaker { fail_streak: 0, banned_until_epoch: 0 },
    }
}

/// An existing provider after its endpoint was reloaded: the weight is taken over,
/// and the bucket starts anew only where `max_tps` changed.
pub open spec fn updated(p: ProviderState, ep: Endpoint) -> ProviderState {
    let t = tps_of(ep);
    ProviderState {
        weight: at_least_one(ep.weight),
        max_tps: t,
        bucket: if t != p.max_tps { full_bucket(t) } else { p.bucket },
        ..p
    }
}

/// The endpoint that describes a provider as it stands.
pub open spec fn endpoint_of(p: ProviderState) -> Endpoint {
    Endpoint { url: p.url, max_tps: Some(p.max_tps), weight: p.weight }
}

impl ProviderState {
    pub open spec fn wf(self) -> bool {
        &&& self.weight >= 1
        &&& self.bucket.wf()
        &&& self.bucket.max_tps == self.max_tps
    }

    /// A routing candidate at epoch second `now`: healthy and not banned.
    pub open spec fn candidate_at(self, now: u64) -> bool {
        self.healthy && !self.breaker.banned_at(now)
    }

    pub fn from_endpoint(ep: &Endpoint) -> (r: ProviderState)
        ensures
            r == fresh(*ep),
            r.wf(),
    {
        let mtps: u32 = match ep.max_tps {
            Some(t) => t,
            None => 0,
        };
        ProviderState {
            url: ep.url.clone(),
            weight: if ep.weight >= 1 { ep.weight } else { 1 },
            max_tps: mtps,
            healthy: false,
            latest_block: 0,
            behind: 0,
            latency_ms: u64::MAX,
            errors: 0,
            call_count: 0,
            bucket: TokenBucket::new(mtps),
            breaker: CircuitBreaker::new(),
        }
    }

    pub fn is_healthy(&self) -> (r: bool)
        ensures r == self.healthy,
    {
        self.healthy
    }

    pub fn mark_healthy(&mut self, ok: bool)
        ensures *final(self) == (ProviderState { healthy: ok, ..*old(self) }),
    {
        self.healthy = ok;
    }

    pub fn is_candidate_at(&self, now: u64) -> (r: bool)
        ensures r == self.candidate_at(now),
    {
        self.healthy && !self.breaker.is_banned_at(now)
    }

    /// Whether the breaker bans now, by the wall clock.
    pub fn breaker_is_banned(&self) -> (r: bool)
        ensures r ==> self.breaker.banned_until_epoch > 0,
    {
        self.breaker.is_banned()
    }

    pub fn breaker_success(&mut self)
        ensures
            *final(self) == (ProviderState {
                breaker: CircuitBreaker { fail_streak: 0, ..old(self).breaker },
                ..*old(self)
            }),
    {
        self.breaker.on_success();
    }

    /// A failed attempt at epoch second `now`: counts the error and informs the breaker.
    pub fn record_failure_at(&mut self, cfg: &BreakerConfig, now: u64)
        ensures
            *final(self) == (ProviderState {
                errors: if old(self).errors == u64::MAX { u64::MAX } else { (old(self).errors + 1) as u64 },
                breaker: old(self).breaker.after_failure(*cfg, now),
                ..*old(self)
            }),
    {
        self.errors = self.errors.saturating_add(1);
        self.breaker.on_failure_at(cfg, now);
    }

    /// Informs the breaker of a failure seen now, by the wall clock.
    pub fn breaker_failure(&mut self, cfg: &BreakerConfig)
        ensures
            exists|now: u64| *final(self) == (ProviderState {
                breaker: #[trigger] old(self).breaker.after_failure(*cfg, now),
                ..*old(self)
            }),
    {
        let now = now_epoch();
        self.breaker.on_failure_at(cfg, now);
    }

    /// Asks the bucket for one token at `now_ms`.
    pub fn try_consume_token_at(&mut self, now_ms: u64) -> (r: bool)
        requires old(self).wf(),
        ensures
            final(self).wf(),
            (final(self).bucket, r) == old(self).bucket.take(1, now_ms),
            *final(self) == (ProviderState { bucket: final(self).bucket, ..*old(self) }),
    {
        self.bucket.try_take_at(1, now_ms)
    }

    /// Asks the bucket for one token now, by the wall clock.
    pub fn try_consume_token(&mut self) -> (r: bool)
        requires old(self).wf(),
        ensures
            final(self).wf(),
            exists|now: u64| (final(self).bucket, r) == #[trigger] old(self).bucket.take(1, now),
            *final(self) == (ProviderState { bucket: final(self).bucket, ..*old(self) }),
    {
        self.bucket.try_take(1)
    }

    pub fn set_latency(&mut self, ms: u64)
        ensures *final(self) == (ProviderState { latency_ms: ms, ..*old(self) }),
    {
        self.latency_ms = ms;
    }

    pub fn get_latency(&self) -> (r: u64)
        ensures r == self.latency_ms,
    {
        self.latency_ms
    }

    pub fn set_latest_block(&mut self, b: u64)
        ensures *final(self) == (ProviderState { latest_block: b, ..*old(self) }),
    {
        self.latest_block = b;
    }

    pub fn get_latest_block(&self) -> (r: u64)
        ensures r == self.latest_block,
    {
        self.latest_block
    }

    pub fn set_behind(&mut self, d: u64)
        ensures *final(self) == (ProviderState { behind: d, ..*old(self) }),
    {
        self.behind = d;
    }

    pub fn get_behind(&self) -> (r: u64)
        ensures r == self.behind,
    {
        self.behind
    }

    pub fn get_weight(&self) -> (r: u32)
        ensures r == at_least_one(self.weight),
    {
        if self.weight >= 1 { self.weight } else { 1 }
    }
}


/// The two tiers of providers, each in configuration order.
pub struct ProviderRegistry {
    pub primaries: Vec<ProviderState>,
    pub secondaries: Vec<ProviderState>,
}

proof fn lemma_update_concat(a: Seq<ProviderState>, b: Seq<ProviderState>, i: int, x: ProviderState)
    requires
        0 <= i < a.len() + b.len(),
    ensures
        i < a.len() ==> a.update(i, x) + b == (a + b).update(i, x),
        i >= a.len() ==> a + b.update(i - a.len(), x) == (a + b).update(i, x),
{
    if i < a.len() {
        assert(a.update(i, x) + b =~= (a + b).update(i, x));
    } else {
        assert(a + b.update(i - a.len(), x) =~= (a + b).update(i, x));
    }
}

impl ProviderRegistry {
    /// Every provider, primaries first.
    pub open spec fn all_seq(self) -> Seq<ProviderState> {
        self.primaries@ + self.secondaries@
    }

    pub open spec fn wf(self) -> bool {
        &&& self.all_seq().len() <= usize::MAX
        &&& forall|i: int| 0 <= i < self.all_seq().len() ==> (#[trigger] self.all_seq()[i]).wf()
    }

    /// `after` is `self` with provider `i` replaced by `p`, tiers kept.
    pub open spec fn changed_at(self, after: ProviderRegistry, i: int, p: ProviderState) -> bool {
        &&& after.primaries@.len() == self.primaries@.len()
        &&& after.all_seq() == self.all_seq().update(i, p)
    }

    pub fn new() -> (r: ProviderRegistry)
        ensures
            r.all_seq().len() == 0,
            r.wf(),
    {
        ProviderRegistry { primaries: Vec::new(), secondaries: Vec::new() }
    }

    pub fn len(&self) -> (r: usize)
        requires self.wf(),
        ensures r == self.all_seq().len(),
    {
        self.primaries.len() + self.secondaries.len()
    }

    pub fn get(&self, i: usize) -> (r: &ProviderState)
        requires i < self.all_seq().len(),
        ensures *r == self.all_seq()[i as int],
    {
        if i < self.primaries.len() {
            &self.primaries[i]
        } else {
            &self.secondaries[i - self.primaries.len()]
        }
    }

    /// URLs of every provider, primaries first.
    pub fn all(&self) -> (r: Vec<String>)
        requires self.wf(),
        ensures
            r@.len() == self.all_seq().len(),
            forall|i: int| 0 <= i < r@.len() ==> r@[i] == #[trigger] self.all_seq()[i].url,
    {
        let n = self.len();
        let mut out: Vec<String> = Vec::new();
        let mut i: usize = 0;
        while i < n
            invariant
                n == self.all_seq().len(),
                i <= n,
                out@.len() == i,
                forall|k: int| 0 <= k < i ==> out@[k] == #[trigger] self.all_seq()[k].url,
            decreases n - i,
        {
            out.push(self.get(i).url.clone());
            i = i + 1;
        }
        out
    }

    /// Index of the first provider whose URL is `url`.
    pub fn find(&self, url: &String) -> (r: Option<usize>)
        requires self.wf(),
        ensures
            match r {
                Some(i) => i < self.all_seq().len() && self.all_seq()[i as int].url@ == url@
                    && forall|k: int| 0 <= k < i ==> (#[trigger] self.all_seq()[k]).url@ != url@,
                None => forall|k: int| 0 <= k < self.all_seq().len() ==> (#[trigger] self.all_seq()[k]).url@ != url@,
            },
    {
        let n = self.len();
        let mut i: usize = 0;
        while i < n
            invariant
                n == self.all_seq().len(),
                i <= n,
                forall|k: int| 0 <= k < i ==> (#[trigger] self.all_seq()[k]).url@ != url@,
            decreases n - i,
        {
            if self.get(i).url == *url {
                return Some(i);
            }
            i = i + 1;
        }
        None
    }

    /// Counts one attempt issued to provider `i`.
    pub fn record_attempt(&mut self, i: usize)
        requires
            old(self).wf(),
            i < old(self).all_seq().len(),
        ensures
            final(self).wf(),
            old(self).changed_at(*final(self), i as int, ProviderState {
                call_count: if old(self).all_seq()[i as int].call_count == u64::MAX { u64::MAX }
                    else { (old(self).all_seq()[i as int].call_count + 1) as u64 },
                ..old(self).all_seq()[i as int]
            }),
    {
        let ghost x = ProviderState {
            call_count: if self.all_seq()[i as int].call_count == u64::MAX { u64::MAX }
                else { (self.all_seq()[i as int].call_count + 1) as u64 },
            ..self.all_seq()[i as int]
        };
        proof { lemma_update_concat(self.primaries@, self.secondaries@, i as int, x); }
        if i < self.primaries.len() {
            self.primaries[i].call_count = self.primaries[i].call_count.saturating_add(1);
        } else {
            let j = i - self.primaries.len();
            self.secondaries[j].call_count = self.secondaries[j].call_count.saturating_add(1);
        }
        assert(self.all_seq() =~= old(self).all_seq().update(i as int, x));
        assert forall|k: int| 0 <= k < self.all_seq().len() implies (#[trigger] self.all_seq()[k]).wf() by {
            assert(old(self).all_seq()[k].wf());
        }
    }

    /// Asks provider `i` for one token at `now_ms`.
    pub fn admit_at(&mut self, i: usize, now_ms: u64) -> (r: bool)
        requires
            old(self).wf(),
            i < old(self).all_seq().len(),
        ensures
            final(self).wf(),
            old(self).changed_at(*final(self), i as int, ProviderState { bucket: old(self).all_seq()[i as int].bucket.take(1, now_ms).0, ..old(self).all_seq()[i as int] }),
            r == old(self).all_seq()[i as int].bucket.take(1, now_ms).1,
    {
        proof { lemma_update_concat(self.primaries@, self.secondaries@, i as int, self.all_seq()[i as int]); }
        let r = if i < self.primaries.len() {
            self.primaries[i].try_consume_token_at(now_ms)
        } else {
            let j = i - self.primaries.len();
            self.secondaries[j].try_consume_token_at(now_ms)
        };
        proof {
            lemma_update_concat(old(self).primaries@, old(self).secondaries@, i as int, self.all_seq()[i as int]);
            assert(self.all_seq() =~= old(self).all_seq().update(i as int, self.all_seq()[i as int]));
        }
        assert forall|k: int| 0 <= k < self.all_seq().len() implies (#[trigger] self.all_seq()[k]).wf() by {
            assert(old(self).all_seq()[k].wf());
        }
        r
    }

    /// A success of provider `i`: its breaker streak is cleared.
    pub fn record_success(&mut self, i: usize)
        requires
            old(self).wf(),
            i < old(self).all_seq().len(),
        ensures
            final(self).wf(),
            old(self).changed_at(*final(self), i as int, ProviderState { breaker: CircuitBreaker { fail_streak: 0, ..old(self).all_seq()[i as int].breaker }, ..old(self).all_seq()[i as int] }),
    {
        if i < self.primaries.len() {
            self.primaries[i].breaker_success();
        } else {
            let j = i - self.primaries.len();
            self.secondaries[j].breaker_success();
        }
        proof {
            lemma_update_concat(old(self).primaries@, old(self).secondaries@, i as int, self.all_seq()[i as int]);
            assert(self.all_seq() =~= old(self).all_seq().update(i as int, self.all_seq()[i as int]));
        }
        assert forall|k: int| 0 <= k < self.all_seq().len() implies (#[trigger] self.all_seq()[k]).wf() by {
            assert(old(self).all_seq()[k].wf());
        }
    }

    /// A failed attempt of provider `i` at epoch second `now`.
    pub fn record_failure_at(&mut self, i: usize, cfg: &BreakerConfig, now: u64)
        requires
            old(self).wf(),
            i < old(self).all_seq().len(),
        ensures
            final(self).wf(),
            old(self).changed_at(*final(self), i as int, ProviderState { errors: if old(self).all_seq()[i as int].errors == u64::MAX { u64::MAX } else { (old(self).all_seq()[i as int].errors + 1) as u64 }, breaker: old(self).all_seq()[i as int].breaker.after_failure(*cfg, now), ..old(self).all_seq()[i as int] }),
    {
        if i < self.primaries.len() {
            self.primaries[i].record_failure_at(cfg, now);
        } else {
            let j = i - self.primaries.len();
            self.secondaries[j].record_failure_at(cfg, now);
        }
        proof {
            lemma_update_concat(old(self).primaries@, old(self).secondaries@, i as int, self.all_seq()[i as int]);
            assert(self.all_seq() =~= old(self).all_seq().update(i as int, self.all_seq()[i as int]));
        }
        assert forall|k: int| 0 <= k < self.all_seq().len() implies (#[trigger] self.all_seq()[k]).wf() by {
            assert(old(self).all_seq()[k].wf());
        }
    }

    /// Sets whether provider `i` is healthy.
    pub fn set_health(&mut self, i: usize, ok: bool)
        requires
            old(self).wf(),
            i < old(self).all_seq().len(),
        ensures
            final(self).wf(),
            old(self).changed_at(*final(self), i as int, ProviderState { healthy: ok, ..old(self).all_seq()[i as int] }),
    {
        if i < self.primaries.len() {
            self.primaries[i].mark_healthy(ok);
        } else {
            let j = i - self.primaries.len();
            self.secondaries[j].mark_healthy(ok);
        }
        proof {
            lemma_update_concat(old(self).primaries@, old(self).secondaries@, i as int, self.all_seq()[i as int]);
            assert(self.all_seq() =~= old(self).all_seq().update(i as int, self.all_seq()[i as int]));
        }
        assert forall|k: int| 0 <= k < self.all_seq().len() implies (#[trigger] self.all_seq()[k]).wf() by {
            assert(old(self).all_seq()[k].wf());
        }
    }

    /// A probe of provider `i` answered with block `block` after `latency_ms`.
    pub fn record_probe(&mut self, i: usize, block: u64, latency_ms: u64)
        requires
            old(self).wf(),
            i < old(self).all_seq().len(),
        ensures
            final(self).wf(),
            old(self).changed_at(*final(self), i as int, ProviderState { latest_block: block, latency_ms: latency_ms, healthy: true, ..old(self).all_seq()[i as int] }),
    {
        if i < self.primaries.len() {
            self.primaries[i].set_latest_block(block);
            self.primaries[i].set_latency(latency_ms);
            self.primaries[i].mark_healthy(true);
        } else {
            let j = i - self.primaries.len();
            self.secondaries[j].set_latest_block(block);
            self.secondaries[j].set_latency(latency_ms);
            self.secondaries[j].mark_healthy(true);
        }
        proof {
            lemma_update_concat(old(self).primaries@, old(self).secondaries@, i as int, self.all_seq()[i as int]);
            assert(self.all_seq() =~= old(self).all_seq().update(i as int, self.all_seq()[i as int]));
        }
        assert forall|k: int| 0 <= k < self.all_seq().len() implies (#[trigger] self.all_seq()[k]).wf() by {
            assert(old(self).all_seq()[k].wf());
        }
    }

    /// Sets how far provider `i` is behind, and its health.
    pub fn set_lag(&mut self, i: usize, behind: u64, ok: bool)
        requires
            old(self).wf(),
            i < old(self).all_seq().len(),
        ensures
            final(self).wf(),
            old(self).changed_at(*final(self), i as int, ProviderState { behind: behind, healthy: ok, ..old(self).all_seq()[i as int] }),
    {
        if i < self.primaries.len() {
            self.primaries[i].set_behind(behind);
            self.primaries[i].mark_healthy(ok);
        } else {
            let j = i - self.primaries.len();
            self.secondaries[j].set_behind(behind);
            self.secondaries[j].mark_healthy(ok);
        }
        proof {
            lemma_update_concat(old(self).primaries@, old(self).secondaries@, i as int, self.all_seq()[i as int]);
            assert(self.all_seq() =~= old(self).all_seq().update(i as int, self.all_seq()[i as int]));
        }
        assert forall|k: int| 0 <= k < self.all_seq().len() implies (#[trigger] self.all_seq()[k]).wf() by {
            assert(old(self).all_seq()[k].wf());
        }
    }
}


/// Whether slot `j` of `pool` still holds a provider with URL `url`.
pub open spec fn holds(pool: Seq<Option<ProviderState>>, j: int, url: Seq<char>) -> bool {
    pool[j] is Some && pool[j].unwrap().url@ == url
}

/// The first slot at or after `j` that holds a provider with URL `url`, or -1.
pub open spec fn slot_from(pool: Seq<Option<ProviderState>>, url: Seq<char>, j: int) -> int
    decreases pool.len() - j,
{
    if j < 0 || j >= pool.len() {
        -1
    } else if holds(pool, j, url) {
        j
    } else {
        slot_from(pool, url, j + 1)
    }
}

proof fn lemma_slot_from(pool: Seq<Option<ProviderState>>, url: Seq<char>, j: int)
    requires
        0 <= j,
    ensures
        slot_from(pool, url, j) >= 0 ==> {
            let r = slot_from(pool, url, j);
            &&& j <= r < pool.len()
            &&& holds(pool, r, url)
            &&& forall|k: int| j <= k < r ==> !holds(pool, k, url)
        },
        slot_from(pool, url, j) < 0 ==> forall|k: int| j <= k < pool.len() ==> !holds(pool, k, url),
    decreases pool.len() - j,
{
    if j < pool.len() && !holds(pool, j, url) {
        lemma_slot_from(pool, url, j + 1);
    }
}

/// One tier rebuilt from `eps`: each endpoint takes over the first provider left in
/// `pool` with its URL, or starts fresh. Also gives what is left of the pool.
pub open spec fn rebuild_tier(pool: Seq<Option<ProviderState>>, eps: Seq<Endpoint>)
    -> (Seq<ProviderState>, Seq<Option<ProviderState>>)
    decreases eps.len(),
{
    if eps.len() == 0 {
        (Seq::empty(), pool)
    } else {
        let prev = rebuild_tier(pool, eps.drop_last());
        let ep = eps.last();
        let j = slot_from(prev.1, ep.url@, 0);
        if j >= 0 {
            (prev.0.push(updated(prev.1[j].unwrap(), ep)), prev.1.update(j, None))
        } else {
            (prev.0.push(fresh(ep)), prev.1)
        }
    }
}

proof fn lemma_rebuild_len(pool: Seq<Option<ProviderState>>, eps: Seq<Endpoint>)
    ensures
        rebuild_tier(pool, eps).0.len() == eps.len(),
        rebuild_tier(pool, eps).1.len() == pool.len(),
    decreases eps.len(),
{
    if eps.len() > 0 {
        lemma_rebuild_len(pool, eps.drop_last());
        lemma_slot_from(rebuild_tier(pool, eps.drop_last()).1, eps.last().url@, 0);
    }
}

pub open spec fn as_pool(s: Seq<ProviderState>) -> Seq<Option<ProviderState>> {
    s.map_values(|p: ProviderState| Some(p))
}

/// The two tiers that reconciling `reg` against `eps` gives.
pub open spec fn reconciled(reg: ProviderRegistry, eps: RpcEndpoints) -> (Seq<ProviderState>, Seq<ProviderState>) {
    let prim = rebuild_tier(as_pool(reg.all_seq()), eps.primary@);
    let sec = rebuild_tier(prim.1, eps.secondary@);
    (prim.0, sec.0)
}

fn tier_from_endpoints(eps: &Vec<Endpoint>) -> (r: Vec<ProviderState>)
    ensures
        r@.len() == eps@.len(),
        forall|i: int| 0 <= i < r@.len() ==> (#[trigger] r@[i]) == fresh(eps@[i]) && r@[i].wf(),
{
    let mut out: Vec<ProviderState> = Vec::new();
    let mut i: usize = 0;
    while i < eps.len()
        invariant
            i <= eps@.len(),
            out@.len() == i,
            forall|k: int| 0 <= k < i ==> (#[trigger] out@[k]) == fresh(eps@[k]) && out@[k].wf(),
        decreases eps.len() - i,
    {
        out.push(ProviderState::from_endpoint(&eps[i]));
        i = i + 1;
    }
    out
}

/// A registry of fresh providers, one for each configured endpoint.
pub fn build_registry(eps: &RpcEndpoints) -> (r: ProviderRegistry)
    requires
        eps.primary@.len() + eps.secondary@.len() <= usize::MAX,
    ensures
        r.wf(),
        r.primaries@.len() == eps.primary@.len(),
        r.secondaries@.len() == eps.secondary@.len(),
        forall|i: int| 0 <= i < r.primaries@.len() ==> (#[trigger] r.primaries@[i]) == fresh(eps.primary@[i]),
        forall|i: int| 0 <= i < r.secondaries@.len() ==> (#[trigger] r.secondaries@[i]) == fresh(eps.secondary@[i]),
{
    let r = ProviderRegistry {
        primaries: tier_from_endpoints(&eps.primary),
        secondaries: tier_from_endpoints(&eps.secondary),
    };
    assert forall|k: int| 0 <= k < r.all_seq().len() implies (#[trigger] r.all_seq()[k]).wf() by {
        if k < r.primaries@.len() {
            assert(r.all_seq()[k] == r.primaries@[k]);
        } else {
            assert(r.all_seq()[k] == r.secondaries@[k - r.primaries@.len()]);
        }
    }
    r
}

fn take_slot(pool: &mut Vec<Option<ProviderState>>, url: &String) -> (r: Option<ProviderState>)
    ensures
        slot_from(old(pool)@, url@, 0) < 0 ==> r is None && final(pool)@ == old(pool)@,
        slot_from(old(pool)@, url@, 0) >= 0 ==> {
            let j = slot_from(old(pool)@, url@, 0);
            &&& r == old(pool)@[j]
            &&& final(pool)@ == old(pool)@.update(j, None)
            &&& r is Some
        },
{
    let mut j: usize = 0;
    while j < pool.len()
        invariant
            j <= pool@.len(),
            pool@ == old(pool)@,
            slot_from(pool@, url@, j as int) == slot_from(pool@, url@, 0),
        decreases pool.len() - j,
    {
        let hit = match &pool[j] {
            Some(p) => p.url == *url,
            None => false,
        };
        if hit {
            let mut slot: Option<ProviderState> = None;
            std::mem::swap(&mut pool[j], &mut slot);
            return slot;
        }
        j = j + 1;
    }
    None
}

fn rebuild(pool: &mut Vec<Option<ProviderState>>, eps: &Vec<Endpoint>) -> (r: Vec<ProviderState>)
    requires
        forall|k: int| 0 <= k < old(pool)@.len() && (#[trigger] old(pool)@[k]) is Some ==> old(pool)@[k].unwrap().wf(),
    ensures
        (r@, final(pool)@) == rebuild_tier(old(pool)@, eps@),
        forall|k: int| 0 <= k < final(pool)@.len() && (#[trigger] final(pool)@[k]) is Some ==> final(pool)@[k].unwrap().wf(),
        forall|k: int| 0 <= k < r@.len() ==> (#[trigger] r@[k]).wf(),
{
    let mut out: Vec<ProviderState> = Vec::new();
    let mut i: usize = 0;
    assert(eps@.take(0) =~= Seq::<Endpoint>::empty());
    while i < eps.len()
        invariant
            i <= eps@.len(),
            (out@, pool@) == rebuild_tier(old(pool)@, eps@.take(i as int)),
            forall|k: int| 0 <= k < pool@.len() && (#[trigger] pool@[k]) is Some ==> pool@[k].unwrap().wf(),
            forall|k: int| 0 <= k < out@.len() ==> (#[trigger] out@[k]).wf(),
        decreases eps.len() - i,
    {
        let ep = &eps[i];
        assert(eps@.take(i + 1).drop_last() =~= eps@.take(i as int));
        assert(eps@.take(i + 1).last() == eps@[i as int]);
        let ghost before = pool@;
        match take_slot(pool, &ep.url) {
            Some(p) => {
                let mut p = p;
                assert(p.wf()) by {
                    lemma_slot_from(before, ep.url@, 0);
                    let j = slot_from(before, ep.url@, 0);
                    assert(before[j] is Some);
                }
                p.weight = if ep.weight >= 1 { ep.weight } else { 1 };
                let new_mtps: u32 = match ep.max_tps {
                    Some(t) => t,
                    None => 0,
                };
                if new_mtps != p.max_tps {
                    p.max_tps = new_mtps;
                    p.bucket = TokenBucket::new(new_mtps);
                }
                out.push(p);
            },
            None => {
                out.push(ProviderState::from_endpoint(ep));
            },
        }
        proof {
            lemma_slot_from(before, ep.url@, 0);
            assert forall|k: int| 0 <= k < pool@.len() && (#[trigger] pool@[k]) is Some implies pool@[k].unwrap().wf() by {
                assert(pool@[k] == before[k]);
                assert(before[k] is Some);
            }
        }
        i = i + 1;
    }
    assert(eps@.take(eps@.len() as int) =~= eps@);
    out
}

/// Rebuilds both tiers from a reloaded endpoint list. A provider whose URL stays
/// keeps its counters, health and breaker; one whose URL is gone is dropped.
pub fn reconcile_registry(reg: &mut ProviderRegistry, new_eps: &RpcEndpoints)
    requires
        old(reg).wf(),
        new_eps.primary@.len() + new_eps.secondary@.len() <= usize::MAX,
    ensures
        final(reg).wf(),
        (final(reg).primaries@, final(reg).secondaries@) == reconciled(*old(reg), *new_eps),
{
    let ghost all0 = reg.all_seq();
    let mut old_prim: Vec<ProviderState> = Vec::new();
    let mut old_sec: Vec<ProviderState> = Vec::new();
    std::mem::swap(&mut reg.primaries, &mut old_prim);
    std::mem::swap(&mut reg.secondaries, &mut old_sec);
    old_prim.append(&mut old_sec);
    assert(old_prim@ == all0);
    let mut pool: Vec<Option<ProviderState>> = Vec::new();
    let n = old_prim.len();
    let mut i: usize = 0;
    while i < n
        invariant
            n == all0.len(),
            i <= n,
            old_prim@ == all0.subrange(i as int, n as int),
            pool@ == as_pool(all0.take(i as int)),
            forall|k: int| 0 <= k < all0.len() ==> (#[trigger] all0[k]).wf(),
        decreases n - i,
    {
        let p = old_prim.remove(0);
        pool.push(Some(p));
        assert(as_pool(all0.take(i + 1)) =~= as_pool(all0.take(i as int)).push(Some(all0[i as int])));
        assert(old_prim@ =~= all0.subrange(i + 1, n as int));
        i = i + 1;
    }
    assert(all0.take(n as int) =~= all0);
    let prim = rebuild(&mut pool, &new_eps.primary);
    let ghost mid = pool@;
    let sec = rebuild(&mut pool, &new_eps.secondary);
    proof {
        lemma_rebuild_len(as_pool(all0), new_eps.primary@);
        lemma_rebuild_len(mid, new_eps.secondary@);
    }
    reg.primaries = prim;
    reg.secondaries = sec;
    assert forall|k: int| 0 <= k < reg.all_seq().len() implies (#[trigger] reg.all_seq()[k]).wf() by {
        if k < reg.primaries@.len() {
            assert(reg.all_seq()[k] == reg.primaries@[k]);
        } else {
            assert(reg.all_seq()[k] == reg.secondaries@[k - reg.primaries@.len()]);
        }
    }
}


proof fn lemma_rebuild_own_tier(pool0: Seq<Option<ProviderState>>, tier: Seq<ProviderState>, eps: Seq<Endpoint>, a: int, i: int)
    requires
        0 <= a,
        0 <= i <= tier.len(),
        a + tier.len() <= pool0.len(),
        eps.len() == tier.len(),
        forall|k: int| 0 <= k < tier.len() ==> (#[trigger] eps[k]) == endpoint_of(tier[k]),
        forall|k: int| 0 <= k < tier.len() ==> (#[trigger] tier[k]).wf(),
        forall|k: int| 0 <= k < tier.len() ==> #[trigger] pool0[a + k] == Some(tier[k]),
        forall|m: int| 0 <= m < a ==> (#[trigger] pool0[m]) is None,
    ensures
        rebuild_tier(pool0, eps.take(i)).0 == tier.take(i),
        rebuild_tier(pool0, eps.take(i)).1.len() == pool0.len(),
        forall|m: int| 0 <= m < a + i ==> (#[trigger] rebuild_tier(pool0, eps.take(i)).1[m]) is None,
        forall|m: int| a + i <= m < pool0.len() ==> (#[trigger] rebuild_tier(pool0, eps.take(i)).1[m]) == pool0[m],
    decreases i,
{
    if i == 0 {
        assert(eps.take(0) =~= Seq::<Endpoint>::empty());
        assert(tier.take(0) =~= Seq::<ProviderState>::empty());
    } else {
        lemma_rebuild_own_tier(pool0, tier, eps, a, i - 1);
        let e = eps.take(i);
        assert(e.drop_last() =~= eps.take(i - 1));
        assert(e.last() == eps[i - 1]);
        let prev = rebuild_tier(pool0, eps.take(i - 1));
        let p = tier[i - 1];
        let url = p.url@;
        let j = a + i - 1;
        assert(pool0[a + (i - 1)] == Some(tier[i - 1]));
        assert(holds(prev.1, j, url));
        lemma_slot_from(prev.1, url, 0);
        assert(slot_from(prev.1, url, 0) == j);
        assert(updated(p, eps[i - 1]) == p);
        assert(tier.take(i) =~= tier.take(i - 1).push(p));
    }
}

/// Reconciling a registry against the endpoints that describe it as it stands
/// changes nothing: every provider keeps its identity, counters, breaker and bucket.
pub proof fn lemma_reconcile_own_config(reg: ProviderRegistry, eps: RpcEndpoints)
    requires
        reg.wf(),
        eps.primary@.len() == reg.primaries@.len(),
        eps.secondary@.len() == reg.secondaries@.len(),
        forall|k: int| 0 <= k < eps.primary@.len() ==> (#[trigger] eps.primary@[k]) == endpoint_of(reg.primaries@[k]),
        forall|k: int| 0 <= k < eps.secondary@.len() ==> (#[trigger] eps.secondary@[k]) == endpoint_of(reg.secondaries@[k]),
    ensures
        reconciled(reg, eps) == (reg.primaries@, reg.secondaries@),
{
    let all = reg.all_seq();
    let pool0 = as_pool(all);
    let np = reg.primaries@.len() as int;
    let ns = reg.secondaries@.len() as int;
    assert forall|k: int| 0 <= k < np implies (#[trigger] reg.primaries@[k]).wf() by {
        assert(all[k] == reg.primaries@[k]);
    }
    assert forall|k: int| 0 <= k < ns implies (#[trigger] reg.secondaries@[k]).wf() by {
        assert(all[np + k] == reg.secondaries@[k]);
    }
    assert forall|k: int| 0 <= k < np implies #[trigger] pool0[0 + k] == Some(reg.primaries@[k]) by {
        assert(all[k] == reg.primaries@[k]);
    }
    lemma_rebuild_own_tier(pool0, reg.primaries@, eps.primary@, 0, np);
    assert(eps.primary@.take(np) =~= eps.primary@);
    assert(reg.primaries@.take(np) =~= reg.primaries@);
    let pool1 = rebuild_tier(pool0, eps.primary@).1;
    assert forall|k: int| 0 <= k < ns implies #[trigger] pool1[np + k] == Some(reg.secondaries@[k]) by {
        assert(all[np + k] == reg.secondaries@[k]);
        assert(pool1[np + k] == pool0[np + k]);
    }
    lemma_rebuild_own_tier(pool1, reg.secondaries@, eps.secondary@, np, ns);
    assert(eps.secondary@.take(ns) =~= eps.secondary@);
    assert(reg.secondaries@.take(ns) =~= reg.secondaries@);
}

} // verus!
