use vstd::prelude::*;
use crate::cache::TtlCache;
use crate::circuit_breaker::{BreakerConfig, CircuitBreaker};
use crate::config::Config;
use crate::error_reason::{get_last_error, label, listed, retain_last_errors, set_last_error, ErrorReason, LastErrors};
use crate::json::{id_key, member, normalize_params, normalized, with_member, Json, JsonModel};
use crate::selection::{broadcast_order, distinct_urls, select, selected, unique_by_low_latency, url_at, valid_indices};
use crate::cache::{fresh_at, key_view};
use crate::config::{names, ttl_lookup};
use crate::json::text_of;
use crate::state::{build_registry, fresh, reconcile_registry, reconciled, ProviderRegistry, ProviderState};

verus! {

/// A JSON-RPC request; `id` is the JSON text of the client's id.
pub struct RpcRequest {
    pub id: String,
    pub method: String,
    pub params: Json,
}

/// What the client receives.
pub enum Reply {
    /// An upstream or cached response body.
    Body(Json),
    /// A JSON-RPC error made here.
    Failure { code: i64, message: String },
}

pub struct RelayResponse {
    /// HTTP status: 200, 429, 500 or 502.
    pub status: u16,
    /// JSON text of the id the response carries.
    pub id: String,
    pub reply: Reply,
}

/// How one upstream attempt ended.
pub enum Outcome {
    /// A parsed JSON body; one with an `error` member is a failed attempt.
    Answer(Json),
    /// The body was not JSON; the parser's message.
    BadJson(String),
    /// The transport failed.
    Transport,
    /// No answer within the upstream timeout.
    Timeout,
}

/// The response answers request id `id`: it carries it, and so does an object body.
pub open spec fn answers(r: RelayResponse, id: Seq<char>) -> bool {
    &&& r.id@ == id
    &&& match r.reply {
        Reply::Body(v) => v@ is Object ==> member(v@, id_key()) == Some(id),
        Reply::Failure { .. } => true,
    }
}

pub open spec fn error_key() -> Seq<char> {
    "\"error\""@
}

/// The attempt failed: anything but an answer without an `error` member.
pub open spec fn failed(o: Outcome) -> bool {
    match o {
        Outcome::Answer(v) => member(v@, error_key()) is Some,
        _ => true,
    }
}

pub open spec fn reason_of(o: Outcome) -> ErrorReason {
    match o {
        Outcome::Answer(_) => ErrorReason::RpcError,
        Outcome::BadJson(_) => ErrorReason::BadJson,
        Outcome::Transport => ErrorReason::HttpError,
        Outcome::Timeout => ErrorReason::Timeout,
    }
}

/// Both registries list the same providers with the same attempt counts.
pub open spec fn counts_kept(a: ProviderRegistry, b: ProviderRegistry) -> bool {
    &&& b.all_seq().len() == a.all_seq().len()
    &&& b.primaries@.len() == a.primaries@.len()
    &&& forall|k: int| 0 <= k < a.all_seq().len() ==>
        (#[trigger] b.all_seq()[k]).call_count == a.all_seq()[k].call_count && b.all_seq()[k].url == a.all_seq()[k].url
}

/// As `counts_kept`, but provider `i` has one more attempt.
pub open spec fn counted_once(a: ProviderRegistry, b: ProviderRegistry, i: int) -> bool {
    &&& b.all_seq().len() == a.all_seq().len()
    &&& b.primaries@.len() == a.primaries@.len()
    &&& forall|k: int| 0 <= k < a.all_seq().len() ==> (#[trigger] b.all_seq()[k]).url == a.all_seq()[k].url
    &&& forall|k: int| 0 <= k < a.all_seq().len() && k != i ==>
        (#[trigger] b.all_seq()[k]).call_count == a.all_seq()[k].call_count
    &&& b.all_seq()[i].call_count == if a.all_seq()[i].call_count == u64::MAX { u64::MAX } else {
        (a.all_seq()[i].call_count + 1) as u64 }
}

/// Everything the relay keeps between requests.
pub struct AppState {
    pub cfg: Config,
    pub registry: ProviderRegistry,
    pub breaker_cfg: BreakerConfig,
    /// Rotation counter of the failover path.
    pub rr_main: u64,
    /// Requests received.
    pub total_calls: u64,
    /// Requests served from the cache.
    pub cache_hits: u64,
    pub last_errors: LastErrors,
    pub cache: TtlCache,
}

impl AppState {
    pub open spec fn wf(self) -> bool {
        &&& self.registry.wf()
        &&& self.last_errors.wf()
        &&& self.cache.wf()
    }

    pub fn new(cfg: Config) -> (r: AppState)
        requires
            cfg.rpc_endpoints.primary@.len() + cfg.rpc_endpoints.secondary@.len() <= usize::MAX,
        ensures
            r.wf(),
            r.registry.primaries@.len() == cfg.rpc_endpoints.primary@.len(),
            r.registry.secondaries@.len() == cfg.rpc_endpoints.secondary@.len(),
            r.breaker_cfg.ban_error_threshold == cfg.relay.ban_error_threshold,
            r.breaker_cfg.ban_seconds == cfg.relay.ban_seconds,
            r.rr_main == 0 && r.total_calls == 0 && r.cache_hits == 0,
            r.cfg == cfg,
            forall|i: int| 0 <= i < r.registry.primaries@.len() ==> (#[trigger] r.registry.primaries@[i]) == fresh(cfg.rpc_endpoints.primary@[i]),
            forall|i: int| 0 <= i < r.registry.secondaries@.len() ==> (#[trigger] r.registry.secondaries@[i]) == fresh(cfg.rpc_endpoints.secondary@[i]),
            r.cache.entries@.len() == 0,
            r.last_errors.entries@.len() == 0,
            forall|u: Seq<char>| r.last_errors.reason_of(u) == ErrorReason::Unset,
    {
        let registry = build_registry(&cfg.rpc_endpoints);
        let breaker_cfg = BreakerConfig {
            ban_error_threshold: cfg.relay.ban_error_threshold,
            ban_seconds: cfg.relay.ban_seconds,
        };
        AppState {
            cfg,
            registry,
            breaker_cfg,
            rr_main: 0,
            total_calls: 0,
            cache_hits: 0,
            last_errors: LastErrors::new(),
            cache: TtlCache::new(),
        }
    }
}

/// A 200 response carrying `body` with its `id` member set to `id`.
pub open spec fn is_answer(r: RelayResponse, id: Seq<char>, body: JsonModel) -> bool {
    &&& r.status == 200
    &&& r.id@ == id
    &&& match r.reply {
        Reply::Body(b) => b@ == with_member(body, id_key(), id),
        Reply::Failure { .. } => false,
    }
}

/// A JSON-RPC error response made here.
pub open spec fn is_failure(r: RelayResponse, status: u16, id: Seq<char>, code: int, message: Seq<char>) -> bool {
    &&& r.status == status
    &&& r.id@ == id
    &&& match r.reply {
        Reply::Failure { code: c, message: m } => c == code && m@ == message,
        Reply::Body(_) => false,
    }
}

fn failure(status: u16, id: &String, code: i64, prefix: &str, detail: &str) -> (r: RelayResponse)
    ensures
        is_failure(r, status, id@, code as int, prefix@ + detail@),
        r.status == status,
        r.id@ == id@,
        r.reply == (Reply::Failure { code, message: r.reply->message }),
        r.reply->message@ == prefix@ + detail@,
{
    let mut message = String::from_str(prefix);
    message.append(detail);
    RelayResponse { status, id: id.clone(), reply: Reply::Failure { code, message } }
}

/// A 200 response carrying `body` with its id set to `id`.
fn answer(id: &String, body: Json) -> (r: RelayResponse)
    ensures
        r.status == 200,
        answers(r, id@),
        is_answer(r, id@, body@),
{
    let key = String::from_str("\"id\"");
    proof { reveal_strlit("\"id\""); }
    let ghost b = body@;
    let v = body.with_member(&key, id.clone());
    proof {
        if b is Object {
            crate::json::lemma_with_member(b, key@, id@);
        }
    }
    RelayResponse { status: 200, id: id.clone(), reply: Reply::Body(v) }
}

/// The message of a failed attempt, as the final error reports it.
pub open spec fn message_of(o: Outcome) -> Seq<char> {
    match o {
        Outcome::Answer(v) => member(v@, error_key()).unwrap_or(Seq::empty()),
        Outcome::BadJson(e) => "bad json: "@ + e@,
        Outcome::Transport => "upstream error"@,
        Outcome::Timeout => "upstream timeout"@,
    }
}

/// Provider `i` is the first of `reg` with URL `url`.
pub open spec fn first_with_url(reg: ProviderRegistry, url: Seq<char>, i: int) -> bool {
    &&& 0 <= i < reg.all_seq().len()
    &&& reg.all_seq()[i].url@ == url
    &&& forall|k: int| 0 <= k < i ==> (#[trigger] reg.all_seq()[k]).url@ != url
}

/// A provider after an attempt ended with `o`: a failure counts an error and
/// informs the breaker at epoch second `now_s`; a success clears the streak.
pub open spec fn after_outcome(p: ProviderState, o: Outcome, cfg: BreakerConfig, now_s: u64) -> ProviderState {
    if failed(o) {
        ProviderState { errors: bump(p.errors), breaker: p.breaker.after_failure(cfg, now_s), ..p }
    } else {
        ProviderState { breaker: CircuitBreaker { fail_streak: 0, ..p.breaker }, ..p }
    }
}

/// `b` is `a` after booking outcome `o` on the first provider with URL `url`,
/// and unchanged where there is none.
pub open spec fn booked(a: ProviderRegistry, b: ProviderRegistry, url: Seq<char>, o: Outcome, cfg: BreakerConfig, now_s: u64) -> bool {
    &&& forall|i: int| #[trigger] first_with_url(a, url, i) ==> a.changed_at(b, i, after_outcome(a.all_seq()[i], o, cfg, now_s))
    &&& !has_url(a, url) ==> b == a
}

/// Books one finished attempt of the provider named `url`. A success clears its
/// breaker streak and hands back the body; a failure counts an error, informs the
/// breaker at epoch second `now_ms / 1000`, records the class, and hands back the
/// message.
fn settle(app: &mut AppState, url: &String, outcome: Outcome, now_ms: u64) -> (r: Result<Json, String>)
    requires
        old(app).wf(),
    ensures
        final(app).wf(),
        counts_kept(old(app).registry, final(app).registry),
        final(app).cfg == old(app).cfg,
        final(app).rr_main == old(app).rr_main,
        final(app).cache == old(app).cache,
        final(app).breaker_cfg == old(app).breaker_cfg,
        failed(outcome) <==> r is Err,
        booked(old(app).registry, final(app).registry, url@, outcome, old(app).breaker_cfg, (now_ms / 1000) as u64),
        match r {
            Ok(v) => outcome == Outcome::Answer(v),
            Err(m) => m@ == message_of(outcome) && final(app).last_errors.reason_of(url@) == reason_of(outcome),
        },
{
    let ghost o = outcome;
    let ghost reg0 = app.registry;
    let slot = app.registry.find(url);
    proof {
        match slot {
            Some(i) => {
                assert(first_with_url(reg0, url@, i as int));
                assert forall|j: int| #[trigger] first_with_url(reg0, url@, j) implies j == i as int by {
                    if j < i as int { assert(reg0.all_seq()[j].url@ != url@); }
                    if j > i as int { assert(reg0.all_seq()[i as int].url@ != url@); }
                }
            },
            None => {
                assert(!has_url(reg0, url@));
                assert forall|j: int| !#[trigger] first_with_url(reg0, url@, j) by {}
            },
        }
    }
    let (reason, message) = match outcome {
        Outcome::Answer(v) => {
            let ek = String::from_str("\"error\"");
            proof { reveal_strlit("\"error\""); }
            match v.get_member(&ek) {
                None => {
                    if let Some(i) = slot {
                        app.registry.record_success(i);
                        proof { lemma_kept_after(reg0, app.registry, i as int); }
                    }
                    return Ok(v);
                },
                Some(e) => (ErrorReason::RpcError, e),
            }
        },
        Outcome::BadJson(e) => {
            let mut m = String::from_str("bad json: ");
            m.append(e.as_str());
            (ErrorReason::BadJson, m)
        },
        Outcome::Transport => (ErrorReason::HttpError, String::from_str("upstream error")),
        Outcome::Timeout => (ErrorReason::Timeout, String::from_str("upstream timeout")),
    };
    if let Some(i) = slot {
        app.registry.record_failure_at(i, &app.breaker_cfg, now_ms / 1000);
        proof { lemma_kept_after(reg0, app.registry, i as int); }
    }
    set_last_error(&mut app.last_errors, url, reason);
    Err(message)
}

proof fn lemma_kept_after(a: ProviderRegistry, b: ProviderRegistry, i: int)
    requires
        0 <= i < a.all_seq().len(),
        exists|p: crate::state::ProviderState| a.changed_at(b, i, p) && p.call_count == a.all_seq()[i].call_count && p.url == a.all_seq()[i].url,
    ensures
        counts_kept(a, b),
{
    let p = choose|p: crate::state::ProviderState| a.changed_at(b, i, p) && p.call_count == a.all_seq()[i].call_count && p.url == a.all_seq()[i].url;
    assert forall|k: int| 0 <= k < a.all_seq().len() implies
        (#[trigger] b.all_seq()[k]).call_count == a.all_seq()[k].call_count && b.all_seq()[k].url == a.all_seq()[k].url by {
        if k == i {
        } else {
            assert(b.all_seq()[k] == a.all_seq()[k]);
        }
    }
}

pub open spec fn bump(c: u64) -> u64 {
    if c == u64::MAX { u64::MAX } else { (c + 1) as u64 }
}

proof fn lemma_counted(a: ProviderRegistry, b: ProviderRegistry, i: int)
    requires
        0 <= i < a.all_seq().len(),
        exists|p: crate::state::ProviderState| a.changed_at(b, i, p) && p.call_count == bump(a.all_seq()[i].call_count) && p.url == a.all_seq()[i].url,
    ensures
        counted_once(a, b, i),
{
    let p = choose|p: crate::state::ProviderState| a.changed_at(b, i, p) && p.call_count == bump(a.all_seq()[i].call_count) && p.url == a.all_seq()[i].url;
    assert forall|k: int| 0 <= k < a.all_seq().len() && k != i implies (#[trigger] b.all_seq()[k]).call_count == a.all_seq()[k].call_count by {
        assert(b.all_seq()[k] == a.all_seq()[k]);
    }
    assert forall|k: int| 0 <= k < a.all_seq().len() implies (#[trigger] b.all_seq()[k]).url == a.all_seq()[k].url by {
        if k != i { assert(b.all_seq()[k] == a.all_seq()[k]); }
    }
}

proof fn lemma_kept_then_counted(a: ProviderRegistry, m: ProviderRegistry, b: ProviderRegistry, i: int)
    requires
        0 <= i < a.all_seq().len(),
        counts_kept(a, m),
        counted_once(m, b, i),
    ensures
        counted_once(a, b, i),
{
    assert(m.all_seq()[i].call_count == a.all_seq()[i].call_count);
    assert forall|k: int| 0 <= k < a.all_seq().len() implies (#[trigger] b.all_seq()[k]).url == a.all_seq()[k].url by {
        assert(m.all_seq()[k].url == a.all_seq()[k].url);
    }
    assert forall|k: int| 0 <= k < a.all_seq().len() && k != i implies (#[trigger] b.all_seq()[k]).call_count == a.all_seq()[k].call_count by {
        assert(m.all_seq()[k].call_count == a.all_seq()[k].call_count);
    }
}

/// The failover path of one request: tries candidates in rotation, one at a time.
pub struct FailoverSession {
    /// The request as sent upstream, after normalization.
    pub request: RpcRequest,
    /// Candidate URLs in selection order, weights expanded.
    pub candidates: Vec<String>,
    /// Rotation index: where the search for an admitted candidate starts.
    pub rr: u64,
    pub attempt: u32,
    pub tries: u32,
    /// The message of the latest failure.
    pub last_err: String,
    pub cache_key: Option<(String, String)>,
    pub ttl_ms: u64,
}

/// The broadcast path of one request: admitted providers run at once.
pub struct BroadcastSession {
    pub request: RpcRequest,
    /// Admitted providers, by index, in the order they were admitted.
    pub indices: Vec<usize>,
    /// Admitted providers, by URL, in the order they were admitted.
    pub targets: Vec<String>,
    /// Attempts not yet settled.
    pub pending: usize,
    /// The message of the first failure.
    pub first_err: Option<String>,
    pub cache_key: Option<(String, String)>,
    pub ttl_ms: u64,
}

pub enum Start {
    Done(RelayResponse),
    Failover(FailoverSession),
    Broadcast(BroadcastSession),
}

pub enum Step {
    /// Send the request to provider `index`, named `url`.
    Dispatch { index: usize, url: String },
    Done(RelayResponse),
}

fn copy_key(k: &(String, String)) -> (r: (String, String))
    ensures
        r.0@ == k.0@ && r.1@ == k.1@,
{
    (k.0.clone(), k.1.clone())
}

/// Where `key` is set, the cache holds `body` under it, stored at `now` for `ttl_ms`.
pub open spec fn stored(cache: TtlCache, key: Option<(String, String)>, ttl_ms: u64, body: crate::json::JsonModel, now: u64) -> bool {
    match key {
        Some(k) => {
            let kv = (k.0@, k.1@);
            &&& cache.holds_key(kv)
            &&& cache.entry(kv).value@ == body
            &&& cache.entry(kv).inserted_ms == now
            &&& cache.entry(kv).ttl_ms == ttl_ms
        },
        None => true,
    }
}

/// The cache key and lifetime a session was given: set exactly for a cacheable method.
pub open spec fn cache_plan(key: Option<(String, String)>, ttl_ms: u64, cfg: Config, method: Seq<char>, params: crate::json::JsonModel) -> bool {
    &&& ttl_ms == ttl_lookup(cfg.cache_ttl@, method)
    &&& (key is Some) == (ttl_ms > 0)
    &&& match key {
        Some(k) => k.0@ == method && k.1@ == text_of(params),
        None => true,
    }
}

/// After a success: stores the body in the cache where the method is cacheable.
fn remember(app: &mut AppState, key: &Option<(String, String)>, ttl_ms: u64, body: &Json, now_ms: u64)
    requires
        old(app).wf(),
    ensures
        final(app).wf(),
        final(app).registry == old(app).registry,
        final(app).cfg == old(app).cfg,
        final(app).rr_main == old(app).rr_main,
        final(app).last_errors == old(app).last_errors,
        final(app).breaker_cfg == old(app).breaker_cfg,
        key is None ==> final(app).cache == old(app).cache,
        stored(final(app).cache, *key, ttl_ms, body@, now_ms),
{
    if let Some(k) = key {
        app.cache.insert_with_ttl(copy_key(k), body.duplicate(), ttl_ms, now_ms);
    }
}

/// The first provider of `reg` with URL `url`, if any, refuses a token at `now`.
pub open spec fn refused(reg: ProviderRegistry, url: Seq<char>, now: u64) -> bool {
    forall|i: int| #[trigger] first_with_url(reg, url, i) ==> !reg.all_seq()[i].bucket.take(1, now).1
}

/// `q` is `p` with its bucket either untouched or asked once at `now` and refused.
pub open spec fn bucket_asked(p: ProviderState, q: ProviderState, now: u64) -> bool {
    &&& q == (ProviderState { bucket: q.bucket, ..p })
    &&& (q.bucket == p.bucket || (q.bucket == p.bucket.take(1, now).0 && !p.bucket.take(1, now).1))
}

proof fn lemma_first_unique(reg: ProviderRegistry, url: Seq<char>, i: int)
    requires
        first_with_url(reg, url, i),
    ensures
        forall|j: int| #[trigger] first_with_url(reg, url, j) ==> j == i,
{
    assert forall|j: int| #[trigger] first_with_url(reg, url, j) implies j == i by {
        if j < i { assert(reg.all_seq()[j].url@ != url); }
        if j > i { assert(reg.all_seq()[i].url@ != url); }
    }
}

/// Asking a bucket again at the same instant after a refusal is refused again,
/// and leaves it as the first refusal did.
proof fn lemma_refused_again(b: crate::token_bucket::TokenBucket, now: u64)
    ensures
        !b.take(1, now).1 ==> b.take(1, now).0.take(1, now) == (b.take(1, now).0, false),
{
}

impl FailoverSession {
    pub open spec fn wf(self) -> bool {
        &&& self.candidates@.len() > 0
        &&& self.tries >= 1
    }

    /// The candidate position that the `k`-th step of the rotation looks at.
    pub open spec fn rotation(self, k: int) -> int {
        let n = self.candidates@.len() as int;
        let start = (self.rr % (n as u64)) as int;
        if k >= n - start { k - (n - start) } else { start + k }
    }

    /// The next action: dispatch to the first candidate, from the rotation index on,
    /// whose bucket admits one token at `now_ms`; 429 where none does; 502 once
    /// every try is spent.
    pub fn next(&self, app: &mut AppState, now_ms: u64) -> (r: Step)
        requires
            old(app).wf(),
            self.wf(),
        ensures
            final(app).wf(),
            final(app).cfg == old(app).cfg,
            final(app).cache == old(app).cache,
            final(app).last_errors == old(app).last_errors,
            final(app).rr_main == old(app).rr_main,
            final(app).breaker_cfg == old(app).breaker_cfg,
            final(app).total_calls == old(app).total_calls,
            final(app).cache_hits == old(app).cache_hits,
            self.attempt >= self.tries ==> r is Done && is_failure(r->0, 502, self.request.id@, -32603,
                "Upstream provider error after failover: "@ + self.last_err@),
            match r {
                Step::Dispatch { index, url } => {
                    &&& self.attempt < self.tries
                    &&& exists|k: int| 0 <= k < self.candidates@.len() && (#[trigger] self.candidates@[self.rotation(k)])@ == url@
                        && forall|j: int| 0 <= j < k ==> refused(old(app).registry, (#[trigger] self.candidates@[self.rotation(j)])@, now_ms)
                    &&& exists|k: int| 0 <= k < self.candidates@.len() && (#[trigger] self.candidates@[k])@ == url@
                    &&& first_with_url(old(app).registry, url@, index as int)
                    &&& old(app).registry.all_seq()[index as int].bucket.take(1, now_ms).1
                    &&& index < old(app).registry.all_seq().len()
                    &&& counted_once(old(app).registry, final(app).registry, index as int)
                    &&& old(app).registry.all_seq()[index as int].url@ == url@
                },
                Step::Done(resp) => {
                    &&& counts_kept(old(app).registry, final(app).registry)
                    &&& answers(resp, self.request.id@)
                    &&& resp.status == (if self.attempt >= self.tries { 502u16 } else { 429u16 })
                    &&& self.attempt < self.tries ==> is_failure(resp, 429, self.request.id@, -32005, "Rate limited; try later"@)
                        && forall|j: int| 0 <= j < self.candidates@.len() ==>
                            refused(old(app).registry, (#[trigger] self.candidates@[self.rotation(j)])@, now_ms)
                },
            },
    {
        if self.attempt >= self.tries {
            let resp = failure(502, &self.request.id, -32603, "Upstream provider error after failover: ", self.last_err.as_str());
            return Step::Done(resp);
        }
        let ghost reg0 = app.registry;
        let n = self.candidates.len();
        let start = (self.rr % (n as u64)) as usize;
        let mut k: usize = 0;
        while k < n
            invariant
                n == self.candidates@.len(),
                n > 0,
                k <= n,
                start < n,
                start == (self.rr % (n as u64)) as int,
                reg0 == old(app).registry,
                self.attempt < self.tries,
                app.wf(),
                counts_kept(reg0, app.registry),
                app.cfg == old(app).cfg,
                app.cache == old(app).cache,
                app.last_errors == old(app).last_errors,
                app.rr_main == old(app).rr_main,
                app.breaker_cfg == old(app).breaker_cfg,
                app.total_calls == old(app).total_calls,
                app.cache_hits == old(app).cache_hits,
                forall|i: int| 0 <= i < reg0.all_seq().len() ==> bucket_asked(reg0.all_seq()[i], #[trigger] app.registry.all_seq()[i], now_ms),
                forall|j: int| 0 <= j < k ==> refused(reg0, (#[trigger] self.candidates@[self.rotation(j)])@, now_ms),
            decreases n - k,
        {
            let pos = if k >= n - start { k - (n - start) } else { start + k };
            assert(pos as int == self.rotation(k as int));
            let url = &self.candidates[pos];
            let ghost reg1 = app.registry;
            match app.registry.find(url) {
                Some(i) => {
                    proof {
                        assert(first_with_url(reg0, url@, i as int)) by {
                            assert forall|q: int| 0 <= q < i implies (#[trigger] reg0.all_seq()[q]).url@ != url@ by {
                                assert(reg1.all_seq()[q].url == reg0.all_seq()[q].url);
                            }
                            assert(reg1.all_seq()[i as int].url == reg0.all_seq()[i as int].url);
                        }
                        lemma_first_unique(reg0, url@, i as int);
                        assert(bucket_asked(reg0.all_seq()[i as int], reg1.all_seq()[i as int], now_ms));
                        lemma_refused_again(reg0.all_seq()[i as int].bucket, now_ms);
                    }
                    if app.registry.admit_at(i, now_ms) {
                        proof { lemma_kept_after(reg1, app.registry, i as int); }
                        let ghost reg2 = app.registry;
                        app.registry.record_attempt(i);
                        proof {
                            lemma_counted(reg2, app.registry, i as int);
                            assert(counts_kept(reg0, reg2)) by {
                                assert forall|j: int| 0 <= j < reg0.all_seq().len() implies
                                    (#[trigger] reg2.all_seq()[j]).call_count == reg0.all_seq()[j].call_count
                                    && reg2.all_seq()[j].url == reg0.all_seq()[j].url by {
                                    assert(reg1.all_seq()[j].call_count == reg0.all_seq()[j].call_count);
                                }
                            }
                            lemma_kept_then_counted(reg0, reg2, app.registry, i as int);
                        }
                        assert(reg0.all_seq()[i as int].url == reg1.all_seq()[i as int].url);
                        let u = url.clone();
                        assert(self.candidates@[pos as int]@ == u@);
                        assert(self.candidates@[self.rotation(k as int)]@ == u@);
                        return Step::Dispatch { index: i, url: u };
                    } else {
                        proof {
                            lemma_kept_after(reg1, app.registry, i as int);
                            assert forall|j: int| 0 <= j < reg0.all_seq().len() implies
                                (#[trigger] app.registry.all_seq()[j]).call_count == reg0.all_seq()[j].call_count
                                && app.registry.all_seq()[j].url == reg0.all_seq()[j].url by {
                                assert(reg1.all_seq()[j].call_count == reg0.all_seq()[j].call_count);
                            }
                            assert forall|q: int| 0 <= q < reg0.all_seq().len() implies
                                bucket_asked(reg0.all_seq()[q], #[trigger] app.registry.all_seq()[q], now_ms) by {
                                if q != i as int {
                                    assert(app.registry.all_seq()[q] == reg1.all_seq()[q]);
                                }
                            }
                            assert(refused(reg0, self.candidates@[self.rotation(k as int)]@, now_ms));
                        }
                    }
                },
                None => {
                    proof {
                        assert forall|q: int| !#[trigger] first_with_url(reg0, url@, q) by {
                            if 0 <= q < reg0.all_seq().len() {
                                assert(reg1.all_seq()[q].url == reg0.all_seq()[q].url);
                            }
                        }
                        assert(refused(reg0, self.candidates@[self.rotation(k as int)]@, now_ms));
                    }
                },
            }
            k = k + 1;
        }
        let resp = failure(429, &self.request.id, -32005, "Rate limited; try later", "");
        proof {
            reveal_strlit("");
            assert("Rate limited; try later"@ + ""@ =~= "Rate limited; try later"@);
        }
        Step::Done(resp)
    }

    /// Books how the attempt to `url` ended. A success is the response; a failure
    /// spends one try and moves the rotation on by one.
    pub fn complete(&mut self, app: &mut AppState, url: &String, outcome: Outcome, now_ms: u64) -> (r: Option<RelayResponse>)
        requires
            old(app).wf(),
        ensures
            final(app).wf(),
            counts_kept(old(app).registry, final(app).registry),
            booked(old(app).registry, final(app).registry, url@, outcome, old(app).breaker_cfg, (now_ms / 1000) as u64),
            final(app).breaker_cfg == old(app).breaker_cfg,
            final(app).cfg == old(app).cfg,
            failed(outcome) <==> r is None,
            final(self).request == old(self).request,
            final(self).candidates == old(self).candidates,
            final(self).tries == old(self).tries,
            match r {
                Some(resp) => resp.status == 200 && answers(resp, old(self).request.id@)
                    && *final(self) == *old(self)
                    && (match outcome {
                        Outcome::Answer(v) => stored(final(app).cache, old(self).cache_key, old(self).ttl_ms, v@, now_ms)
                            && is_answer(resp, old(self).request.id@, v@),
                        _ => false,
                    }),
                None => {
                    &&& final(self).attempt == (if old(self).attempt == u32::MAX { u32::MAX } else { (old(self).attempt + 1) as u32 })
                    &&& final(self).rr == (if old(self).rr == u64::MAX { 0 } else { (old(self).rr + 1) as u64 })
                    &&& final(self).last_err@ == message_of(outcome)
                    &&& final(app).last_errors.reason_of(url@) == reason_of(outcome)
                },
            },
    {
        match settle(app, url, outcome, now_ms) {
            Ok(v) => {
                remember(app, &self.cache_key, self.ttl_ms, &v, now_ms);
                Some(answer(&self.request.id, v))
            },
            Err(m) => {
                self.last_err = m;
                self.attempt = self.attempt.saturating_add(1);
                self.rr = self.rr.wrapping_add(1);
                None
            },
        }
    }
}

impl BroadcastSession {
    /// Books how the attempt to `url` ended. The first success is the response;
    /// once every attempt has failed, the 502 that names the first failure.
    pub fn complete(&mut self, app: &mut AppState, url: &String, outcome: Outcome, now_ms: u64) -> (r: Option<RelayResponse>)
        requires
            old(app).wf(),
            old(self).pending > 0,
        ensures
            final(app).wf(),
            counts_kept(old(app).registry, final(app).registry),
            booked(old(app).registry, final(app).registry, url@, outcome, old(app).breaker_cfg, (now_ms / 1000) as u64),
            final(app).breaker_cfg == old(app).breaker_cfg,
            final(app).cfg == old(app).cfg,
            final(self).request == old(self).request,
            !failed(outcome) ==> r is Some && r->0.status == 200 && (match outcome {
                Outcome::Answer(v) => stored(final(app).cache, old(self).cache_key, old(self).ttl_ms, v@, now_ms)
                    && is_answer(r->0, old(self).request.id@, v@),
                _ => false,
            }),
            failed(outcome) ==> {
                &&& final(self).pending == old(self).pending - 1
                &&& final(app).last_errors.reason_of(url@) == reason_of(outcome)
                &&& final(self).first_err == (match old(self).first_err { Some(e) => Some(e), None => final(self).first_err })
                &&& old(self).first_err is None ==> final(self).first_err->0@ == message_of(outcome)
                &&& (r is Some <==> final(self).pending == 0)
                &&& r is Some ==> is_failure(r->0, 502, old(self).request.id@, -32603,
                    "All broadcast attempts failed: "@ + final(self).first_err->0@)
            },
            r is Some ==> answers(r->0, old(self).request.id@),
    {
        match settle(app, url, outcome, now_ms) {
            Ok(v) => {
                remember(app, &self.cache_key, self.ttl_ms, &v, now_ms);
                Some(answer(&self.request.id, v))
            },
            Err(m) => {
                if self.first_err.is_none() {
                    self.first_err = Some(m);
                }
                self.pending = self.pending - 1;
                if self.pending == 0 {
                    let resp = match &self.first_err {
                        Some(e) => failure(502, &self.request.id, -32603, "All broadcast attempts failed: ", e.as_str()),
                        None => failure(502, &self.request.id, -32603, "All broadcast attempts failed: ", "unknown"),
                    };
                    Some(resp)
                } else {
                    None
                }
            },
        }
    }
}

/// Each provider's attempt count after admitting `admitted`: one more for each of
/// them, the same for the rest.
pub open spec fn counted_each(a: ProviderRegistry, b: ProviderRegistry, admitted: Seq<usize>) -> bool {
    &&& b.all_seq().len() == a.all_seq().len()
    &&& b.primaries@.len() == a.primaries@.len()
    &&& forall|k: int| 0 <= k < a.all_seq().len() ==> (#[trigger] b.all_seq()[k]).url == a.all_seq()[k].url
        && b.all_seq()[k].call_count == (if admitted.contains(k as usize) { bump(a.all_seq()[k].call_count) }
            else { a.all_seq()[k].call_count })
}

/// The providers that broadcast admission takes from `order`: walking it, each is
/// asked for a token at `now` until `redundancy` have given one.
pub open spec fn admitted(reg: ProviderRegistry, order: Seq<usize>, redundancy: nat, now: u64) -> Seq<usize>
    decreases order.len(),
{
    if order.len() == 0 {
        Seq::empty()
    } else {
        let prev = admitted(reg, order.drop_last(), redundancy, now);
        if prev.len() < redundancy && reg.all_seq()[order.last() as int].bucket.take(1, now).1 {
            prev.push(order.last())
        } else {
            prev
        }
    }
}

proof fn lemma_admitted_full(reg: ProviderRegistry, order: Seq<usize>, redundancy: nat, now: u64, j: int)
    requires
        0 <= j <= order.len(),
        admitted(reg, order.take(j), redundancy, now).len() >= redundancy,
    ensures
        admitted(reg, order, redundancy, now) == admitted(reg, order.take(j), redundancy, now),
    decreases order.len() - j,
{
    if j < order.len() {
        assert(order.take(j + 1).drop_last() =~= order.take(j));
        lemma_admitted_full(reg, order, redundancy, now, j + 1);
    } else {
        assert(order.take(j) =~= order);
    }
}

/// Walks `order`, admitting providers whose bucket gives a token at `now_ms`, until
/// `redundancy` are admitted; each admitted provider has one attempt counted.
fn admit_broadcast(app: &mut AppState, order: &Vec<usize>, redundancy: usize, now_ms: u64) -> (r: (Vec<usize>, Vec<String>))
    requires
        old(app).wf(),
        valid_indices(old(app).registry, order@),
        distinct_urls(old(app).registry, order@),
        redundancy >= 1,
    ensures
        final(app).wf(),
        final(app).cfg == old(app).cfg,
        final(app).cache == old(app).cache,
        final(app).last_errors == old(app).last_errors,
        final(app).rr_main == old(app).rr_main,
        final(app).breaker_cfg == old(app).breaker_cfg,
        final(app).total_calls == old(app).total_calls,
        final(app).cache_hits == old(app).cache_hits,
        r.0@.len() == r.1@.len(),
        r.0@.len() <= redundancy,
        forall|m: int| 0 <= m < r.0@.len() ==> order@.contains(#[trigger] r.0@[m])
            && r.1@[m]@ == url_at(old(app).registry, r.0@[m]),
        counted_each(old(app).registry, final(app).registry, r.0@),
        r.0@ == admitted(old(app).registry, order@, redundancy as nat, now_ms),
{
    let ghost reg0 = app.registry;
    let mut idxs: Vec<usize> = Vec::new();
    let mut urls: Vec<String> = Vec::new();
    let mut j: usize = 0;
    while j < order.len() && idxs.len() < redundancy
        invariant
            j <= order@.len(),
            reg0 == old(app).registry,
            valid_indices(reg0, order@),
            distinct_urls(reg0, order@),
            app.wf(),
            app.cfg == old(app).cfg,
            app.cache == old(app).cache,
            app.last_errors == old(app).last_errors,
            app.rr_main == old(app).rr_main,
            app.breaker_cfg == old(app).breaker_cfg,
            app.total_calls == old(app).total_calls,
            app.cache_hits == old(app).cache_hits,
            idxs@.len() == urls@.len(),
            idxs@.len() <= redundancy,
            forall|m: int| 0 <= m < idxs@.len() ==> order@.take(j as int).contains(#[trigger] idxs@[m])
                && urls@[m]@ == url_at(reg0, idxs@[m]),
            counted_each(reg0, app.registry, idxs@),
            idxs@ == admitted(reg0, order@.take(j as int), redundancy as nat, now_ms),
            forall|m: int| j <= m < order@.len() ==>
                app.registry.all_seq()[(#[trigger] order@[m]) as int].bucket == reg0.all_seq()[order@[m] as int].bucket,
        decreases order.len() - j,
    {
        let i = order[j];
        assert(order@.take(j + 1).drop_last() =~= order@.take(j as int));
        assert(order@.take(j + 1).last() == i);
        let ghost reg1 = app.registry;
        let ghost before = idxs@;
        assert(!before.contains(i)) by {
            if before.contains(i) {
                let m = choose|m: int| 0 <= m < before.len() && before[m] == i;
                let q = choose|q: int| 0 <= q < j && order@.take(j as int)[q] == before[m];
                assert(order@[q] == order@[j as int]);
                assert(url_at(reg0, order@[q]) != url_at(reg0, order@[j as int]));
            }
        }
        assert forall|m: int| 0 <= m < idxs@.len() implies order@.take(j + 1).contains(#[trigger] idxs@[m]) by {
            let q = choose|q: int| 0 <= q < j && order@.take(j as int)[q] == idxs@[m];
            assert(order@.take(j + 1)[q] == idxs@[m]);
        }
        assert(order@.take(j + 1)[j as int] == i);
        if app.registry.admit_at(i, now_ms) {
            proof { lemma_kept_after(reg1, app.registry, i as int); }
            let ghost reg2 = app.registry;
            app.registry.record_attempt(i);
            proof { lemma_counted(reg2, app.registry, i as int); }
            let u = app.registry.get(i).url.clone();
            idxs.push(i);
            urls.push(u);
            proof {
                assert forall|m: int| j + 1 <= m < order@.len() implies
                    app.registry.all_seq()[(#[trigger] order@[m]) as int].bucket == reg0.all_seq()[order@[m] as int].bucket by {
                    assert(url_at(reg0, order@[j as int]) != url_at(reg0, order@[m]));
                    assert(order@[m] != i);
                    assert(app.registry.all_seq()[order@[m] as int] == reg2.all_seq()[order@[m] as int]);
                    assert(reg2.all_seq()[order@[m] as int] == reg1.all_seq()[order@[m] as int]);
                }
                assert forall|k: int| 0 <= k < reg0.all_seq().len() implies (#[trigger] app.registry.all_seq()[k]).url == reg0.all_seq()[k].url
                    && app.registry.all_seq()[k].call_count == (if idxs@.contains(k as usize) { bump(reg0.all_seq()[k].call_count) }
                        else { reg0.all_seq()[k].call_count }) by {
                    assert(reg2.all_seq()[k].call_count == reg1.all_seq()[k].call_count);
                    if k == i as int {
                        assert(idxs@[before.len() as int] == i);
                    } else {
                        assert(idxs@.contains(k as usize) == before.contains(k as usize)) by {
                            if idxs@.contains(k as usize) {
                                let m = choose|m: int| 0 <= m < idxs@.len() && idxs@[m] == k as usize;
                                assert(m < before.len());
                                assert(before[m] == k as usize);
                            }
                            if before.contains(k as usize) {
                                let m = choose|m: int| 0 <= m < before.len() && before[m] == k as usize;
                                assert(idxs@[m] == k as usize);
                            }
                        }
                    }
                }
                assert forall|m: int| 0 <= m < idxs@.len() implies order@.take(j + 1).contains(#[trigger] idxs@[m])
                    && urls@[m]@ == url_at(reg0, idxs@[m]) by {
                    if m < before.len() {
                        assert(idxs@[m] == before[m]);
                    }
                }
            }
        } else {
            proof {
                lemma_kept_after(reg1, app.registry, i as int);
                assert forall|m: int| j + 1 <= m < order@.len() implies
                    app.registry.all_seq()[(#[trigger] order@[m]) as int].bucket == reg0.all_seq()[order@[m] as int].bucket by {
                    assert(url_at(reg0, order@[j as int]) != url_at(reg0, order@[m]));
                    assert(order@[m] != i);
                    assert(app.registry.all_seq()[order@[m] as int] == reg1.all_seq()[order@[m] as int]);
                }
                assert forall|k: int| 0 <= k < reg0.all_seq().len() implies (#[trigger] app.registry.all_seq()[k]).url == reg0.all_seq()[k].url
                    && app.registry.all_seq()[k].call_count == (if idxs@.contains(k as usize) { bump(reg0.all_seq()[k].call_count) }
                        else { reg0.all_seq()[k].call_count }) by {
                    assert(reg1.all_seq()[k].call_count == app.registry.all_seq()[k].call_count);
                }
            }
        }
        j = j + 1;
    }
    assert forall|m: int| 0 <= m < idxs@.len() implies order@.contains(#[trigger] idxs@[m]) by {
        let q = choose|q: int| 0 <= q < j && order@.take(j as int)[q] == idxs@[m];
        assert(order@[q] == idxs@[m]);
    }
    proof {
        if j < order@.len() {
            lemma_admitted_full(reg0, order@, redundancy as nat, now_ms, j as int);
        } else {
            assert(order@.take(j as int) =~= order@);
        }
    }
    (idxs, urls)
}

/// Starts serving `req` at `now_ms`, epoch milliseconds. Counts the request,
/// normalizes its params, answers from the cache where it can, selects candidates
/// (bans judged at epoch second `now_ms / 1000`), and then either answers at once
/// or hands back the session that drives the upstream attempts.
pub fn begin(app: &mut AppState, req: RpcRequest, now_ms: u64) -> (r: Start)
    requires
        old(app).wf(),
    ensures
        final(app).wf(),
        final(app).total_calls == bump(old(app).total_calls),
        final(app).cfg == old(app).cfg,
        final(app).last_errors == old(app).last_errors,
        ({
            let key = (req.method@, text_of(normalized(req.method@, req.params@)));
            let hit = ttl_lookup(old(app).cfg.cache_ttl@, req.method@) > 0 && old(app).cache.holds_key(key)
                && fresh_at(old(app).cache.entry(key), now_ms);
            let sel = selected(old(app).registry, old(app).cfg.relay.latency_threshold_ms, now_ms / 1000);
            let bc = names(old(app).cfg.relay.broadcast_methods@, req.method@);
            let red: nat = if old(app).cfg.relay.broadcast_redundancy >= 1 { old(app).cfg.relay.broadcast_redundancy as nat } else { 1 };
            &&& hit ==> final(app).registry == old(app).registry && match r {
                Start::Done(resp) => is_answer(resp, req.id@, old(app).cache.entry(key).value@),
                _ => false,
            }
            &&& !hit && sel.len() == 0 ==> final(app).registry == old(app).registry && match r {
                Start::Done(resp) => is_failure(resp, 500, req.id@, -32000, "No healthy RPCs available"@),
                _ => false,
            }
            &&& !hit && sel.len() > 0 && !bc ==> r is Failover
            &&& !hit && sel.len() > 0 && bc ==> exists|order: Seq<usize>| #[trigger] broadcast_order(old(app).registry, sel, order)
                && match r {
                    Start::Broadcast(s) => s.indices@ == admitted(old(app).registry, order, red, now_ms) && s.indices@.len() > 0,
                    Start::Done(resp) => admitted(old(app).registry, order, red, now_ms).len() == 0
                        && is_failure(resp, 429, req.id@, -32005, "Rate limited; try later"@),
                    _ => false,
                }
        }),
        match r {
            Start::Done(resp) => {
                &&& answers(resp, req.id@)
                &&& counts_kept(old(app).registry, final(app).registry)
                &&& resp.status == 200 ==> {
                    let key = (req.method@, text_of(normalized(req.method@, req.params@)));
                    &&& ttl_lookup(old(app).cfg.cache_ttl@, req.method@) > 0
                    &&& old(app).cache.holds_key(key)
                    &&& fresh_at(old(app).cache.entry(key), now_ms)
                    &&& final(app).cache_hits == bump(old(app).cache_hits)
                }
                &&& resp.status == 500 ==> selected(old(app).registry, old(app).cfg.relay.latency_threshold_ms, now_ms / 1000).len() == 0
                &&& (resp.status == 200 || resp.status == 500 || resp.status == 429)
            },
            Start::Failover(s) => {
                &&& s.wf()
                &&& s.request.id@ == req.id@
                &&& s.request.method@ == req.method@
                &&& s.request.params@ == normalized(req.method@, req.params@)
                &&& s.attempt == 0
                &&& cache_plan(s.cache_key, s.ttl_ms, old(app).cfg, req.method@, normalized(req.method@, req.params@))
                &&& s.rr == old(app).rr_main
                &&& s.candidates@.len() == selected(old(app).registry, old(app).cfg.relay.latency_threshold_ms, now_ms / 1000).len()
                &&& forall|k: int| 0 <= k < s.candidates@.len() ==> (#[trigger] s.candidates@[k])@
                    == url_at(old(app).registry, selected(old(app).registry, old(app).cfg.relay.latency_threshold_ms, now_ms / 1000)[k])
                &&& s.tries == (if old(app).cfg.relay.max_provider_tries >= 1 { old(app).cfg.relay.max_provider_tries } else { 1 })
                &&& !names(old(app).cfg.relay.broadcast_methods@, req.method@)
                &&& counts_kept(old(app).registry, final(app).registry)
                &&& final(app).rr_main == (if old(app).rr_main == u64::MAX { 0 } else { (old(app).rr_main + 1) as u64 })
            },
            Start::Broadcast(s) => {
                &&& s.request.id@ == req.id@
                &&& s.request.method@ == req.method@
                &&& s.request.params@ == normalized(req.method@, req.params@)
                &&& names(old(app).cfg.relay.broadcast_methods@, req.method@)
                &&& cache_plan(s.cache_key, s.ttl_ms, old(app).cfg, req.method@, normalized(req.method@, req.params@))
                &&& s.pending == s.targets@.len()
                &&& s.indices@.len() == s.targets@.len()
                &&& 0 < s.pending
                &&& s.pending <= (if old(app).cfg.relay.broadcast_redundancy >= 1 { old(app).cfg.relay.broadcast_redundancy } else { 1 })
                &&& s.first_err is None
                &&& counted_each(old(app).registry, final(app).registry, s.indices@)
                &&& forall|m: int| 0 <= m < s.indices@.len() ==>
                    s.targets@[m]@ == url_at(old(app).registry, #[trigger] s.indices@[m])
                    && selected(old(app).registry, old(app).cfg.relay.latency_threshold_ms, now_ms / 1000).contains(s.indices@[m])
            },
        },
{
    app.total_calls = app.total_calls.saturating_add(1);
    let ghost reg0 = app.registry;
    let RpcRequest { id, method, params } = req;
    let params = normalize_params(&method, params);
    let ttl_ms = app.cfg.ttl_for(&method);
    let cache_key = if ttl_ms > 0 { Some((method.clone(), params.text())) } else { None };
    if let Some(k) = &cache_key {
        let hit = app.cache.get(k, now_ms);
        if let Some(v) = hit {
            app.cache_hits = app.cache_hits.saturating_add(1);
            return Start::Done(answer(&id, v));
        }
    }
    proof {
        reveal_strlit("");
        assert("No healthy RPCs available"@ + ""@ =~= "No healthy RPCs available"@);
        assert("Rate limited; try later"@ + ""@ =~= "Rate limited; try later"@);
    }
    let now_s = now_ms / 1000;
    let cands = select(&app.registry, app.cfg.relay.latency_threshold_ms, now_s);
    if cands.len() == 0 {
        return Start::Done(failure(500, &id, -32000, "No healthy RPCs available", ""));
    }
    let request = RpcRequest { id, method, params };
    if app.cfg.is_broadcast(&request.method) {
        let ghost sel = cands@;
        let order = unique_by_low_latency(&app.registry, cands);
        let redundancy: usize = if app.cfg.relay.broadcast_redundancy >= 1 { app.cfg.relay.broadcast_redundancy } else { 1 };
        let (indices, targets) = admit_broadcast(app, &order, redundancy, now_ms);
        assert(broadcast_order(reg0, sel, order@));
        if indices.len() == 0 {
            proof {
                assert forall|k: int| 0 <= k < old(app).registry.all_seq().len() implies
                    (#[trigger] app.registry.all_seq()[k]).call_count == old(app).registry.all_seq()[k].call_count
                    && app.registry.all_seq()[k].url == old(app).registry.all_seq()[k].url by {
                    assert(!indices@.contains(k as usize));
                }
            }
            return Start::Done(failure(429, &request.id, -32005, "Rate limited; try later", ""));
        }
        let pending = indices.len();
        return Start::Broadcast(BroadcastSession {
            request,
            indices,
            targets,
            pending,
            first_err: None,
            cache_key,
            ttl_ms,
        });
    }
    let rr = app.rr_main;
    app.rr_main = app.rr_main.wrapping_add(1);
    let mut candidates: Vec<String> = Vec::new();
    let mut k: usize = 0;
    while k < cands.len()
        invariant
            k <= cands@.len(),
            candidates@.len() == k,
            app.wf(),
            valid_indices(app.registry, cands@),
            app.registry == old(app).registry,
            forall|j: int| 0 <= j < k ==> (#[trigger] candidates@[j])@ == url_at(app.registry, cands@[j]),
        decreases cands.len() - k,
    {
        candidates.push(app.registry.get(cands[k]).url.clone());
        k = k + 1;
    }
    let tries: u32 = if app.cfg.relay.max_provider_tries >= 1 { app.cfg.relay.max_provider_tries } else { 1 };
    Start::Failover(FailoverSession {
        request,
        candidates,
        rr,
        attempt: 0,
        tries,
        last_err: String::new(),
        cache_key,
        ttl_ms,
    })
}

/// One row of the status surface.
pub struct ProviderStatus {
    pub url: String,
    pub healthy: bool,
    pub latest_block: u64,
    pub behind: u64,
    pub latency_ms: u64,
    pub call_count: u64,
    pub errors: u64,
    pub banned_until: u64,
    pub last_error: String,
}

/// A row per provider, primaries first, each in tier order.
pub fn status(app: &AppState) -> (r: Vec<ProviderStatus>)
    requires
        app.wf(),
    ensures
        r@.len() == app.registry.all_seq().len(),
        forall|k: int| 0 <= k < r@.len() ==> {
            let row = #[trigger] r@[k];
            let p = app.registry.all_seq()[k];
            &&& row.url@ == p.url@
            &&& row.healthy == p.healthy
            &&& row.latest_block == p.latest_block
            &&& row.behind == p.behind
            &&& row.latency_ms == p.latency_ms
            &&& row.call_count == p.call_count
            &&& row.errors == p.errors
            &&& row.banned_until == p.breaker.banned_until_epoch
            &&& row.last_error@ == label(app.last_errors.reason_of(p.url@))
        },
{
    let n = app.registry.len();
    let mut rows: Vec<ProviderStatus> = Vec::new();
    let mut k: usize = 0;
    while k < n
        invariant
            n == app.registry.all_seq().len(),
            k <= n,
            app.wf(),
            rows@.len() == k,
            forall|j: int| 0 <= j < k ==> {
                let row = #[trigger] rows@[j];
                let p = app.registry.all_seq()[j];
                &&& row.url@ == p.url@
                &&& row.healthy == p.healthy
                &&& row.latest_block == p.latest_block
                &&& row.behind == p.behind
                &&& row.latency_ms == p.latency_ms
                &&& row.call_count == p.call_count
                &&& row.errors == p.errors
                &&& row.banned_until == p.breaker.banned_until_epoch
                &&& row.last_error@ == label(app.last_errors.reason_of(p.url@))
            },
        decreases n - k,
    {
        let p = app.registry.get(k);
        let reason = get_last_error(&app.last_errors, &p.url);
        rows.push(ProviderStatus {
            url: p.url.clone(),
            healthy: p.is_healthy(),
            latest_block: p.get_latest_block(),
            behind: p.get_behind(),
            latency_ms: p.get_latency(),
            call_count: p.call_count,
            errors: p.errors,
            banned_until: p.breaker.banned_until(),
            last_error: String::from_str(reason.as_str()),
        });
        k = k + 1;
    }
    rows
}

/// Some provider of `reg` has URL `u`.
pub open spec fn has_url(reg: ProviderRegistry, u: Seq<char>) -> bool {
    exists|k: int| 0 <= k < reg.all_seq().len() && (#[trigger] reg.all_seq()[k]).url@ == u
}

/// Applies a reloaded configuration: the registry is reconciled against its
/// endpoints, removed providers lose their last error, and the breaker settings
/// and the configuration are replaced. Counters and the cache stay.
pub fn apply_reload(app: &mut AppState, new_cfg: Config)
    requires
        old(app).wf(),
        new_cfg.rpc_endpoints.primary@.len() + new_cfg.rpc_endpoints.secondary@.len() <= usize::MAX,
    ensures
        final(app).wf(),
        final(app).cfg == new_cfg,
        (final(app).registry.primaries@, final(app).registry.secondaries@) == reconciled(old(app).registry, new_cfg.rpc_endpoints),
        final(app).breaker_cfg == (BreakerConfig {
            ban_error_threshold: new_cfg.relay.ban_error_threshold,
            ban_seconds: new_cfg.relay.ban_seconds,
        }),
        forall|u: Seq<char>| #[trigger] has_url(final(app).registry, u)
            ==> final(app).last_errors.reason_of(u) == old(app).last_errors.reason_of(u),
        forall|u: Seq<char>| !#[trigger] has_url(final(app).registry, u)
            ==> final(app).last_errors.reason_of(u) == ErrorReason::Unset,
        final(app).cache == old(app).cache,
        final(app).rr_main == old(app).rr_main,
        final(app).total_calls == old(app).total_calls,
        final(app).cache_hits == old(app).cache_hits,
{
    reconcile_registry(&mut app.registry, &new_cfg.rpc_endpoints);
    let urls = app.registry.all();
    retain_last_errors(&mut app.last_errors, &urls);
    app.breaker_cfg = BreakerConfig {
        ban_error_threshold: new_cfg.relay.ban_error_threshold,
        ban_seconds: new_cfg.relay.ban_seconds,
    };
    app.cfg = new_cfg;
    assert forall|u: Seq<char>| #[trigger] has_url(app.registry, u) == listed(urls@, u) by {
        if has_url(app.registry, u) {
            let k = choose|k: int| 0 <= k < app.registry.all_seq().len() && (#[trigger] app.registry.all_seq()[k]).url@ == u;
            assert(urls@[k]@ == u);
        }
        if listed(urls@, u) {
            let k = choose|k: int| 0 <= k < urls@.len() && (#[trigger] urls@[k])@ == u;
            assert(app.registry.all_seq()[k].url == urls@[k]);
        }
    }
}

} // verus!
