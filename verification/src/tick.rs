//! A timer that ticks at a fixed interval. Times are handed in by the
//! caller, in milliseconds since a moment of the caller's choosing.

use vstd::prelude::*;

verus! {

/// Provides data about tick-based timings.
#[derive(Clone, Copy, Debug, PartialEq, Eq, Structural)]
pub struct TickTiming {
    last_tick: u64,
    interval: u64,
    tick_count: u64,
}

impl TickTiming {
    pub closed spec fn last_tick_spec(&self) -> u64 {
        self.last_tick
    }

    pub closed spec fn interval_spec(&self) -> u64 {
        self.interval
    }

    pub closed spec fn tick_count_spec(&self) -> u64 {
        self.tick_count
    }

    /// Whether the next tick is due at time `now`: whether more than one
    /// interval has passed since the last tick.
    pub open spec fn is_due(&self, now: u64) -> bool {
        self.last_tick_spec() + self.interval_spec() < now
    }

    /// A timer that starts at time `now`, with an interval of one second and
    /// no tick counted yet.
    pub fn new(now: u64) -> (timing: TickTiming)
        ensures
            timing.last_tick_spec() == now,
            timing.interval_spec() == 1000,
            timing.tick_count_spec() == 0,
    {
        TickTiming { last_tick: now, interval: 1000, tick_count: 0 }
    }

    /// Returns the last time that this timer emitted a tick event.
    #[verifier::when_used_as_spec(last_tick_spec)]
    pub fn last_tick(&self) -> (last: u64)
        ensures
            last == self.last_tick_spec(),
    {
        self.last_tick
    }

    /// The interval between two ticks.
    #[verifier::when_used_as_spec(interval_spec)]
    pub fn interval(&self) -> (interval: u64)
        ensures
            interval == self.interval_spec(),
    {
        self.interval
    }

    /// Provides the next time that this timer will tick.
    pub fn next_tick(&self) -> (next: u64)
        requires
            self.last_tick_spec() + self.interval_spec() <= u64::MAX,
        ensures
            next == self.last_tick_spec() + self.interval_spec(),
    {
        self.last_tick + self.interval
    }

    /// Sets the interval of this tick timer to the given value.
    pub fn set_interval(&mut self, interval: u64)
        ensures
            final(self).interval_spec() == interval,
            final(self).last_tick_spec() == old(self).last_tick_spec(),
            final(self).tick_count_spec() == old(self).tick_count_spec(),
    {
        self.interval = interval;
    }

    /// Retrieves the number of ticks that have occurred since this tick
    /// timer was made.
    #[verifier::when_used_as_spec(tick_count_spec)]
    pub fn tick_count(&self) -> (count: u64)
        ensures
            count == self.tick_count_spec(),
    {
        self.tick_count
    }

    /// Determines whether it is time for the next tick event. If so, the
    /// last tick moves on by one interval, the tick is counted, and the
    /// result tells the caller to emit the event.
    pub fn handle_next_tick(&mut self, now: u64) -> (ticked: bool)
        requires
            old(self).tick_count_spec() < u64::MAX,
        ensures
            ticked == old(self).is_due(now),
            final(self).interval_spec() == old(self).interval_spec(),
            final(self).last_tick_spec() == (if ticked {
                old(self).last_tick_spec() + old(self).interval_spec()
            } else {
                old(self).last_tick_spec() as int
            }),
            final(self).tick_count_spec() == (if ticked {
                old(self).tick_count_spec() + 1
            } else {
                old(self).tick_count_spec() as int
            }),
    {
        match self.last_tick.checked_add(self.interval) {
            Some(next) => {
                if next < now {
                    self.last_tick = next;
                    self.tick_count = self.tick_count + 1;
                    true
                } else {
                    false
                }
            },
            None => false,
        }
    }
}

} // verus!
