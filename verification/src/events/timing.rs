use vstd::prelude::*;

verus! {

/// Gets sent out every `N` frames.
#[derive(Clone, Copy, Debug, PartialEq, Eq)]
pub struct Tick<const N: u32>;

/// Gets sent out every `N` milliseconds.
#[derive(Clone, Copy, Debug, PartialEq, Eq)]
pub struct FixedTick<const N: u64>;

/// The intervals, in milliseconds, for which a `FixedTick` is sent.
pub const FIXED_TICKS: [u64; 3] = [5000, 2500, 1000];

impl<const N: u32> Tick<N> {
    /// The event is due in every frame whose number `N` divides.
    pub open spec fn is_due_spec(frame: u64) -> bool {
        frame % (N as u64) == 0
    }

    /// Whether the event is due in frame number `frame`.
    #[verifier::when_used_as_spec(is_due_spec)]
    pub fn is_due(frame: u64) -> (due: bool)
        requires
            N > 0,
        ensures
            due == Self::is_due_spec(frame),
    {
        frame % (N as u64) == 0
    }
}

impl<const N: u64> FixedTick<N> {
    /// The event is due once more than `N` milliseconds have passed since
    /// it was sent last.
    pub open spec fn is_due_spec(last: u64, now: u64) -> bool {
        last + N < now
    }

    /// Whether the event is due at time `now`, where it was last sent at
    /// time `last`, both in milliseconds.
    #[verifier::when_used_as_spec(is_due_spec)]
    pub fn is_due(last: u64, now: u64) -> (due: bool)
        ensures
            due == Self::is_due_spec(last, now),
    {
        match last.checked_add(N) {
            Some(next) => next < now,
            None => false,
        }
    }
}

} // verus!
