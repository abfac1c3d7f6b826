use vstd::prelude::*;

verus! {

/// Simulation tick: advances once per fixed simulation step.
#[derive(Debug, Clone, Copy, PartialEq, Eq, Structural, PartialOrd, Ord, Hash)]
pub struct NetworkTick(pub u64);

impl NetworkTick {
    pub fn new(tick: u64) -> (r: NetworkTick)
        ensures
            r.0 == tick,
    {
        NetworkTick(tick)
    }

    pub fn increment_tick(&mut self)
        requires
            old(self).0 < u64::MAX,
        ensures
            final(self).0 == old(self).0 + 1,
    {
        self.0 = self.0 + 1;
    }

    pub fn set_tick(&mut self, tick: u64)
        ensures
            final(self).0 == tick,
    {
        self.0 = tick;
    }

    pub fn tick(&self) -> (r: u64)
        ensures
            r == self.0,
    {
        self.0
    }
}

/// Number of nanoseconds in one second.
pub const NANOS_PER_SEC: u64 = 1_000_000_000;

/// Length in nanoseconds of one step at `rate` steps per second.
pub fn tick_hz(rate: u64) -> (r: u64)
    requires
        rate > 0,
    ensures
        r == NANOS_PER_SEC / rate,
{
    NANOS_PER_SEC / rate
}

} // verus!
