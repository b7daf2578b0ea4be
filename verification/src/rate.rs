//! Fixed-window rate limiting: a per-user window start and request count,
//! kept in the cache substrate by the surrounding service.

use vstd::prelude::*;

verus! {

/// The window length: requests older than this start a fresh window.
pub const WINDOW_MILLIS: u64 = 1000;

/// One user's current window: when it started and how many requests it
/// has seen.
#[derive(Clone, Copy, Debug, PartialEq, Eq, Structural)]
pub struct AccessPeriod {
    pub start: u64,
    pub count: u32,
}

impl AccessPeriod {
    /// A fresh window opened by this request.
    pub fn new(now: u64) -> (r: AccessPeriod)
        ensures
            r.start == now,
            r.count == 1,
    {
        AccessPeriod { start: now, count: 1 }
    }

    /// Count this request against the window. A request falling outside
    /// the window resets it and passes uncounted; inside the window the
    /// request is counted and rejected once the count exceeds the
    /// configured maximum.
    pub fn is_exceeded(&mut self, now: u64, max_count: u32) -> (r: bool)
        requires
            old(self).count < u32::MAX,
            now >= old(self).start,
        ensures
            now - old(self).start > WINDOW_MILLIS ==> final(self).start == now
                && final(self).count == 0 && r == false,
            now - old(self).start <= WINDOW_MILLIS ==> final(self).start == old(self).start
                && final(self).count == old(self).count + 1 && r == (old(self).count + 1
                > max_count),
    {
        self.count += 1;

        if now - self.start > WINDOW_MILLIS {
            self.start = now;
            self.count = 0;

            return false;
        }
        self.count > max_count
    }
}

} // verus!
