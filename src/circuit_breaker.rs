use vstd::prelude::*;

verus! {

/// How many consecutive failures trip the breaker, and for how long it then bans.
pub struct BreakerConfig {
    pub ban_error_threshold: u32,
    pub ban_seconds: u64,
}

/// Consecutive-failure breaker with a time-bounded ban, in epoch seconds.
pub struct CircuitBreaker {
    pub fail_streak: u32,
    pub banned_until_epoch: u64,
}

/// Relies on std's `SystemTime::now` and `duration_since(UNIX_EPOCH)`: whole seconds
/// since the Unix epoch, or 0 where the clock reads earlier than the epoch.
#[verifier::external_body]
pub fn now_epoch() -> (r: u64) {
    std::time::SystemTime::now()
        .duration_since(std::time::UNIX_EPOCH)
        .unwrap_or_default()
        .as_secs()
}

/// Saturating addition, as `u64::saturating_add` computes it.
pub open spec fn sat_add(a: u64, b: u64) -> u64 {
    if a + b > u64::MAX { u64::MAX } else { (a + b) as u64 }
}

impl CircuitBreaker {
    /// The breaker's state after one failure observed at `now`.
    pub open spec fn after_failure(self, cfg: BreakerConfig, now: u64) -> CircuitBreaker {
        let streak: u32 = if self.fail_streak == u32::MAX { u32::MAX } else { (self.fail_streak + 1) as u32 };
        if streak >= cfg.ban_error_threshold {
            CircuitBreaker { fail_streak: 0, banned_until_epoch: sat_add(now, cfg.ban_seconds) }
        } else {
            CircuitBreaker { fail_streak: streak, banned_until_epoch: self.banned_until_epoch }
        }
    }

    pub open spec fn banned_at(self, now: u64) -> bool {
        now < self.banned_until_epoch
    }

    pub fn new() -> (r: CircuitBreaker)
        ensures
            r.fail_streak == 0,
            r.banned_until_epoch == 0,
    {
        CircuitBreaker { fail_streak: 0, banned_until_epoch: 0 }
    }

    /// Whether the breaker bans at epoch second `now`.
    pub fn is_banned_at(&self, now: u64) -> (r: bool)
        ensures
            r == self.banned_at(now),
    {
        now < self.banned_until_epoch
    }

    /// Whether the breaker bans now, by the wall clock.
    pub fn is_banned(&self) -> (r: bool)
        ensures
            r ==> self.banned_until_epoch > 0,
            self.banned_until_epoch == 0 ==> !r,
    {
        let now = now_epoch();
        self.is_banned_at(now)
    }

    /// A success clears the streak; a ban in force is left to expire.
    pub fn on_success(&mut self)
        ensures
            final(self).fail_streak == 0,
            final(self).banned_until_epoch == old(self).banned_until_epoch,
    {
        self.fail_streak = 0;
    }

    /// Records a failure seen at epoch second `now`.
    pub fn on_failure_at(&mut self, cfg: &BreakerConfig, now: u64)
        ensures
            *final(self) == old(self).after_failure(*cfg, now),
    {
        self.fail_streak = self.fail_streak.saturating_add(1);
        if self.fail_streak >= cfg.ban_error_threshold {
            self.banned_until_epoch = now.saturating_add(cfg.ban_seconds);
            self.fail_streak = 0;
        }
    }

    /// Records a failure seen now, by the wall clock.
    pub fn on_failure(&mut self, cfg: &BreakerConfig)
        ensures
            exists|now: u64| *final(self) == #[trigger] old(self).after_failure(*cfg, now),
    {
        let now = now_epoch();
        self.on_failure_at(cfg, now);
    }

    pub fn banned_until(&self) -> (r: u64)
        ensures
            r == self.banned_until_epoch,
    {
        self.banned_until_epoch
    }
}

impl Default for CircuitBreaker {
    fn default() -> (r: CircuitBreaker)
        ensures
            r.fail_streak == 0,
            r.banned_until_epoch == 0,
    {
        CircuitBreaker::new()
    }
}

} // verus!
