use vstd::prelude::*;

verus! {

/// Relies on std's `SystemTime::now` and `duration_since(UNIX_EPOCH)`: milliseconds
/// since the Unix epoch, 0 where the clock reads earlier than the epoch.
#[verifier::external_body]
pub fn now_millis() -> (r: u64) {
    let d = std::time::SystemTime::now().duration_since(std::time::UNIX_EPOCH).unwrap_or_default();
    u64::try_from(d.as_millis()).unwrap_or(u64::MAX)
}

/// Milli-tokens in one token.
pub const MILLI: u64 = 1000;

/// Admission control at `max_tps` tokens per second, refilled continuously and
/// capped at `max_tps` tokens. Tokens are counted in thousandths, time in
/// milliseconds, so that a refill of `dt` milliseconds adds exactly
/// `dt * max_tps` milli-tokens. `max_tps == 0` admits everything.
pub struct TokenBucket {
    pub max_tps: u32,
    pub tokens_milli: u64,
    pub last_ms: u64,
}

impl TokenBucket {
    pub open spec fn capacity(self) -> int {
        self.max_tps as int * MILLI as int
    }

    pub open spec fn wf(self) -> bool {
        self.tokens_milli <= self.capacity()
    }

    /// Milli-tokens after refilling up to `now`.
    pub open spec fn refilled(self, now: u64) -> int {
        if now > self.last_ms {
            let t = self.tokens_milli + (now - self.last_ms) * self.max_tps;
            if t > self.capacity() { self.capacity() } else { t }
        } else {
            self.tokens_milli as int
        }
    }

    /// The bucket and the answer after `try_take(n)` at `now`.
    pub open spec fn take(self, n: u32, now: u64) -> (TokenBucket, bool) {
        if self.max_tps == 0 {
            (self, true)
        } else {
            let last = if now > self.last_ms { now } else { self.last_ms };
            let t = self.refilled(now);
            if t >= n * MILLI {
                (TokenBucket { max_tps: self.max_tps, tokens_milli: (t - n * MILLI) as u64, last_ms: last }, true)
            } else {
                (TokenBucket { max_tps: self.max_tps, tokens_milli: t as u64, last_ms: last }, false)
            }
        }
    }

    /// A full bucket for `max_tps` tokens per second. Its refill clock starts at 0:
    /// a full bucket stays full whatever its first refill adds.
    pub fn new(max_tps: u32) -> (r: TokenBucket)
        ensures
            r.max_tps == max_tps,
            r.tokens_milli == r.capacity(),
            r.last_ms == 0,
            r.wf(),
    {
        TokenBucket { max_tps, tokens_milli: max_tps as u64 * MILLI, last_ms: 0 }
    }

    fn refill(&mut self, now_ms: u64)
        requires
            old(self).wf(),
            old(self).max_tps > 0,
        ensures
            final(self).tokens_milli == old(self).refilled(now_ms),
            final(self).max_tps == old(self).max_tps,
            final(self).last_ms == if now_ms > old(self).last_ms { now_ms } else { old(self).last_ms },
            final(self).wf(),
    {
        if now_ms > self.last_ms {
            let cap: u64 = self.max_tps as u64 * MILLI;
            let dt: u64 = now_ms - self.last_ms;
            if dt >= MILLI {
                assert(dt * self.max_tps >= MILLI * self.max_tps) by (nonlinear_arith)
                    requires dt >= MILLI;
                self.tokens_milli = cap;
            } else {
                assert(dt * self.max_tps <= MILLI * 0xffff_ffffu64) by (nonlinear_arith)
                    requires dt < MILLI, self.max_tps <= 0xffff_ffffu64;
                let add: u64 = dt * self.max_tps as u64;
                let t: u64 = self.tokens_milli + add;
                self.tokens_milli = if t > cap { cap } else { t };
            }
            self.last_ms = now_ms;
        }
    }

    /// Refills for the time elapsed up to `now_ms`, then takes `n` tokens if
    /// that many are there.
    pub fn try_take_at(&mut self, n: u32, now_ms: u64) -> (r: bool)
        requires
            old(self).wf(),
        ensures
            (*final(self), r) == old(self).take(n, now_ms),
            final(self).wf(),
            old(self).max_tps == 0 ==> r,
    {
        if self.max_tps == 0 {
            return true;
        }
        self.refill(now_ms);
        let need: u64 = n as u64 * MILLI;
        if self.tokens_milli >= need {
            self.tokens_milli = self.tokens_milli - need;
            true
        } else {
            false
        }
    }
}

/// The bucket and the number of admissions after `try_take(1)` at each of `times`.
pub open spec fn run(b: TokenBucket, times: Seq<u64>) -> (TokenBucket, nat)
    decreases times.len(),
{
    if times.len() == 0 {
        (b, 0)
    } else {
        let prev = run(b, times.drop_last());
        let step = prev.0.take(1, times.last());
        (step.0, prev.1 + if step.1 { 1nat } else { 0nat })
    }
}

pub open spec fn nondecreasing(times: Seq<u64>) -> bool {
    forall|i: int, j: int| 0 <= i <= j < times.len() ==> times[i] <= times[j]
}

proof fn lemma_run_bound(b: TokenBucket, times: Seq<u64>, t0: u64)
    requires
        b.wf(),
        b.max_tps > 0,
        b.last_ms == t0,
        b.tokens_milli == b.capacity(),
        nondecreasing(times),
        times.len() > 0 ==> times[0] >= t0,
    ensures
        run(b, times).0.wf(),
        run(b, times).0.max_tps == b.max_tps,
        run(b, times).0.last_ms == if times.len() == 0 { t0 } else { times.last() },
        run(b, times).1 * MILLI + run(b, times).0.tokens_milli
            <= b.capacity() + b.max_tps * (run(b, times).0.last_ms - t0),
    decreases times.len(),
{
    if times.len() > 0 {
        let rest = times.drop_last();
        assert(nondecreasing(rest));
        lemma_run_bound(b, rest, t0);
        let p = run(b, rest).0;
        let c = run(b, rest).1;
        let t = times.last();
        assert(p.last_ms <= t) by {
            if rest.len() > 0 {
                assert(rest.last() == times[times.len() - 2]);
            }
        }
        let k = b.max_tps as int;
        let dt = t - p.last_ms;
        assert(k * (t - t0) == k * (p.last_ms - t0) + k * dt) by (nonlinear_arith)
            requires dt == t - p.last_ms;
        assert(p.refilled(t) <= p.tokens_milli + k * dt) by (nonlinear_arith)
            requires
                p.refilled(t) == (if t > p.last_ms {
                    let x = p.tokens_milli + (t - p.last_ms) * p.max_tps;
                    if x > p.capacity() { p.capacity() } else { x }
                } else { p.tokens_milli as int }),
                dt == t - p.last_ms, k == p.max_tps, dt >= 0,
        {
            if t > p.last_ms {
                assert((t - p.last_ms) * p.max_tps == k * dt);
            }
        }
        assert(p.refilled(t) <= p.capacity());
    }
}

/// Admission is bounded by the rate: starting from a full bucket last touched at
/// `times[0]`, calls of `try_take(1)` at nondecreasing `times` admit at most
/// `max_tps + max_tps * T` of them, where `T` is the span of `times` in seconds.
pub proof fn lemma_rate_bound(b: TokenBucket, times: Seq<u64>)
    requires
        b.max_tps > 0,
        b.tokens_milli == b.capacity(),
        times.len() > 0,
        b.last_ms <= times[0],
        nondecreasing(times),
    ensures
        run(b, times).1 * MILLI <= b.max_tps * MILLI + b.max_tps * (times.last() - times[0]),
{
    let t0 = times[0];
    let b0 = TokenBucket { max_tps: b.max_tps, tokens_milli: b.tokens_milli, last_ms: t0 };
    assert(run(b, times) == run(b0, times)) by {
        lemma_run_same_when_full(b, b0, times);
    }
    lemma_run_bound(b0, times, t0);
}

proof fn lemma_run_same_when_full(b: TokenBucket, b0: TokenBucket, times: Seq<u64>)
    requires
        b.max_tps > 0,
        b.tokens_milli == b.capacity(),
        times.len() > 0,
        b.last_ms <= times[0],
        nondecreasing(times),
        b0 == (TokenBucket { max_tps: b.max_tps, tokens_milli: b.tokens_milli, last_ms: times[0] }),
    ensures
        run(b, times) == run(b0, times),
    decreases times.len(),
{
    if times.len() == 1 {
        assert(times.drop_last().len() == 0);
        assert(b.refilled(times[0]) == b.capacity()) by (nonlinear_arith)
            requires
                b.refilled(times[0]) == (if times[0] > b.last_ms {
                    let x = b.tokens_milli + (times[0] - b.last_ms) * b.max_tps;
                    if x > b.capacity() { b.capacity() } else { x }
                } else { b.tokens_milli as int }),
                b.tokens_milli == b.capacity(), times[0] >= b.last_ms, b.max_tps >= 0;
        assert(run(b, times.drop_last()) == (b, 0nat));
        assert(run(b0, times.drop_last()) == (b0, 0nat));
        assert(b.take(1, times[0]) == b0.take(1, times[0]));
    } else {
        let rest = times.drop_last();
        assert(rest[0] == times[0]);
        assert(nondecreasing(rest));
        lemma_run_same_when_full(b, b0, rest);
        assert(run(b, rest) == run(b0, rest));
    }
}

impl TokenBucket {
    /// `try_take_at` with the wall clock's milliseconds.
    pub fn try_take(&mut self, n: u32) -> (r: bool)
        requires
            old(self).wf(),
        ensures
            final(self).wf(),
            exists|now: u64| (*final(self), r) == #[trigger] old(self).take(n, now),
            old(self).max_tps == 0 ==> r && *final(self) == *old(self),
    {
        if self.max_tps == 0 {
            assert(old(self).take(n, 0) == (*old(self), true));
            return true;
        }
        let now = now_millis();
        self.try_take_at(n, now)
    }
}

} // verus!
