//! Injected time. The core never reads a system clock; callers pass milliseconds in.

use vstd::prelude::*;

verus! {

/// Milliseconds since an arbitrary but fixed epoch (monotonic within a run).
pub type Millis = u64;

/// A source of the current time.
pub trait Clock {
    fn now_ms(&self) -> Millis;
}

/// A clock the caller advances explicitly. Used by tests and the simulator.
#[derive(Debug, Default)]
pub struct ManualClock {
    now: Millis,
}

impl ManualClock {
    /// The current reading, as a mathematical value.
    pub closed spec fn reading(&self) -> Millis {
        self.now
    }

    pub fn new(start: Millis) -> (c: Self)
        ensures
            c.reading() == start,
    {
        ManualClock { now: start }
    }

    /// Move time forward by `delta` ms (saturating at `u64::MAX`) and return the new value.
    pub fn advance(&mut self, delta: Millis) -> (next: Millis)
        ensures
            next == (if old(self).reading() + delta > u64::MAX { u64::MAX as int } else {
                old(self).reading() + delta
            }),
            final(self).reading() == next,
    {
        let next = self.now.saturating_add(delta);
        self.now = next;
        next
    }

    pub fn set(&mut self, value: Millis)
        ensures
            final(self).reading() == value,
    {
        self.now = value;
    }

    pub fn now_ms(&self) -> (t: Millis)
        ensures
            t == self.reading(),
    {
        self.now
    }
}

impl Clock for ManualClock {
    fn now_ms(&self) -> (t: Millis)
        ensures
            t == self.reading(),
    {
        self.now
    }
}

} // verus!
