//! Timing helpers on the caller's millisecond clock.
use vstd::prelude::*;

verus! {

#[derive(Debug, Clone, Copy, PartialEq, Eq, Structural)]
pub struct Cooldown {
    until: Option<u64>,
}

impl Cooldown {
    /// The time from which the cooldown is over, if armed.
    pub closed spec fn deadline(&self) -> Option<u64> {
        self.until
    }

    pub fn new() -> (r: Cooldown)
        ensures
            r.deadline() is None,
    {
        Cooldown { until: None }
    }

    /// Whether the cooldown is over at `now_ms` (always, if never armed).
    pub fn ready(&self, now_ms: u64) -> (r: bool)
        ensures
            r == match self.deadline() {
                Some(u) => now_ms >= u,
                None => true,
            },
    {
        match self.until {
            Some(u) => now_ms >= u,
            None => true,
        }
    }

    /// Arms the cooldown for `ms` milliseconds from `now_ms` (saturating).
    pub fn arm_ms(&mut self, now_ms: u64, ms: u64)
        ensures
            final(self).deadline() == Some(if now_ms + ms > u64::MAX { u64::MAX } else { (now_ms + ms) as u64 }),
    {
        self.until = Some(now_ms.saturating_add(ms));
    }
}

/// Paces a tick loop.
pub struct TickScheduler;

impl TickScheduler {
    /// How long to wait after a tick that took `elapsed_ms` so that ticks
    /// start every `interval_ms`: the rest of the interval, or nothing when
    /// the tick overran it.
    pub fn remainder_ms(elapsed_ms: u64, interval_ms: u64) -> (r: u64)
        ensures
            r == if elapsed_ms < interval_ms { interval_ms - elapsed_ms } else { 0 },
    {
        if elapsed_ms < interval_ms {
            interval_ms - elapsed_ms
        } else {
            0
        }
    }
}

} // verus!
