use vstd::prelude::*;

verus! {

/// What the connection to the live-timing source reports.
#[derive(Clone, Copy, Debug, PartialEq, Eq)]
pub enum FeedEvent {
    /// A connection was established.
    Connected,
    /// The connection could not be made, or was lost.
    Lost,
}

/// What the feed client is to do next.
#[derive(Clone, Copy, Debug, PartialEq, Eq)]
pub enum FeedAction {
    /// Read messages from the connection.
    Read,
    /// Wait this many milliseconds, then connect again.
    RetryAfter(u64),
    /// Retries are exhausted: the failure is fatal to the run.
    GiveUp,
}

/// Reconnection policy of the feed client: exponential backoff from `base_ms`,
/// capped at `cap_ms`, for at most `max_attempts` consecutive failures.
#[derive(Clone, Copy, Debug, PartialEq, Eq)]
pub struct Backoff {
    pub base_ms: u64,
    pub cap_ms: u64,
    pub max_attempts: u32,
    /// Consecutive failures since the last connection.
    pub failures: u32,
}

/// The wait before the retry that follows `n` earlier consecutive failures.
pub open spec fn backoff_delay(base: u64, cap: u64, n: nat) -> int
    decreases n,
{
    if n == 0 {
        if base <= cap { base as int } else { cap as int }
    } else {
        let d = 2 * backoff_delay(base, cap, (n - 1) as nat);
        if d <= cap { d } else { cap as int }
    }
}

impl Backoff {
    pub fn new(base_ms: u64, cap_ms: u64, max_attempts: u32) -> (r: Backoff)
        ensures
            r.base_ms == base_ms,
            r.cap_ms == cap_ms,
            r.max_attempts == max_attempts,
            r.failures == 0,
    {
        Backoff { base_ms, cap_ms, max_attempts, failures: 0 }
    }

    /// The wait before the retry that follows `n` consecutive failures.
    pub fn delay_for(&self, n: u32) -> (r: u64)
        ensures
            r == backoff_delay(self.base_ms, self.cap_ms, n as nat),
    {
        let cap = self.cap_ms;
        let mut d: u64 = if self.base_ms <= cap { self.base_ms } else { cap };
        let mut i: u32 = 0;
        while i < n
            invariant
                i <= n,
                cap == self.cap_ms,
                d == backoff_delay(self.base_ms, cap, i as nat),
                d <= cap,
            decreases n - i,
        {
            d = if d > cap - d { cap } else { 2 * d };
            i += 1;
        }
        d
    }

    /// The next action, given what the connection reported. A connection
    /// clears the count of failures; a failure past the last attempt is fatal.
    pub fn step(&mut self, ev: FeedEvent) -> (r: FeedAction)
        ensures
            final(self).base_ms == old(self).base_ms,
            final(self).cap_ms == old(self).cap_ms,
            final(self).max_attempts == old(self).max_attempts,
            ev == FeedEvent::Connected ==> r == FeedAction::Read && final(self).failures == 0,
            ev == FeedEvent::Lost && old(self).failures >= old(self).max_attempts ==> r
                == FeedAction::GiveUp && final(self).failures == old(self).failures,
            ev == FeedEvent::Lost && old(self).failures < old(self).max_attempts ==> r
                == FeedAction::RetryAfter(
                backoff_delay(old(self).base_ms, old(self).cap_ms, old(self).failures as nat) as u64,
            ) && final(self).failures == old(self).failures + 1,
    {
        match ev {
            FeedEvent::Connected => {
                self.failures = 0;
                FeedAction::Read
            },
            FeedEvent::Lost => {
                if self.failures >= self.max_attempts {
                    FeedAction::GiveUp
                } else {
                    let d = self.delay_for(self.failures);
                    self.failures = self.failures + 1;
                    FeedAction::RetryAfter(d)
                }
            },
        }
    }
}

} // verus!
