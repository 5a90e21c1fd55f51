//! Which timing events are due in a frame: those that count frames, and
//! those that go by the clock.

use vstd::prelude::*;
use crate::events::timing::{FixedTick, Tick, FIXED_TICKS};
use rustc_hash::FxHashMap;

verus! {

/// `rustc_hash::FxBuildHasher`, the hasher of the table below. Nothing is
/// said of what it holds.
#[verifier::external_type_specification]
#[verifier::external_body]
pub struct ExFxBuildHasher(rustc_hash::FxBuildHasher);

/// `Default::default` for a `HashMap` hashed by `rustc_hash::FxBuildHasher`:
/// a table without entries.
#[verifier::external_body]
fn table_new() -> (table: FxHashMap<u64, u64>)
    ensures
        table@ =~= Map::empty(),
{
    FxHashMap::default()
}

/// `HashMap::insert` on a table hashed by `rustc_hash::FxBuildHasher`:
/// afterwards `key` leads to `value`, and every other key to what it led to.
#[verifier::external_body]
fn table_insert(table: &mut FxHashMap<u64, u64>, key: u64, value: u64)
    ensures
        final(table)@ == old(table)@.insert(key, value),
{
    table.insert(key, value);
}

/// `HashMap::get` on a table hashed by `rustc_hash::FxBuildHasher`: the
/// value that `key` leads to, if the table has the key.
#[verifier::external_body]
fn table_get<'a>(table: &'a FxHashMap<u64, u64>, key: &u64) -> (value: Option<&'a u64>)
    ensures
        match value {
            Some(found) => table@.contains_key(*key) && *found == table@[*key],
            None => !table@.contains_key(*key),
        },
{
    table.get(key)
}

/// The timing events that are due in one frame.
#[derive(Clone, Copy, Debug, PartialEq, Eq, Structural)]
pub struct DueEvents {
    /// `Tick<1>`, due in every frame.
    pub tick_1: bool,
    /// `Tick<2>`.
    pub tick_2: bool,
    /// `Tick<30>`.
    pub tick_30: bool,
    /// `Tick<60>`.
    pub tick_60: bool,
    /// `FixedTick<1000>`.
    pub fixed_1000: bool,
    /// `FixedTick<2500>`.
    pub fixed_2500: bool,
    /// `FixedTick<5000>`.
    pub fixed_5000: bool,
}

/// The time at which the event of interval `rate` was sent last, after a
/// frame at time `now`: `now` where it was due, else what it was.
pub open spec fn rescheduled(last: u64, rate: u64, now: u64) -> u64 {
    if last + rate < now {
        now
    } else {
        last
    }
}

/// The table of a scheduler after a frame at time `now`.
pub open spec fn rescheduled_table(last_ticks: Map<u64, u64>, now: u64) -> Map<u64, u64> {
    Map::new(
        |rate: u64| last_ticks.contains_key(rate),
        |rate: u64| rescheduled(last_ticks[rate], rate, now),
    )
}

/// Counts frames, and keeps for each fixed interval the time, in
/// milliseconds, at which its event was sent last.
pub struct FrameScheduler {
    frame: u64,
    last_ticks: FxHashMap<u64, u64>,
}

impl FrameScheduler {
    /// The number of the current frame.
    pub closed spec fn frame_spec(&self) -> u64 {
        self.frame
    }

    /// For each fixed interval the time at which its event was sent last.
    pub closed spec fn last_ticks(&self) -> Map<u64, u64> {
        self.last_ticks@
    }

    /// The table has the three fixed intervals for its keys.
    pub open spec fn wf(&self) -> bool {
        self.last_ticks().dom() =~= set![5000u64, 2500u64, 1000u64]
    }

    /// A scheduler in frame 0 at time `now`, with every fixed interval
    /// beginning then.
    pub fn new(now: u64) -> (scheduler: FrameScheduler)
        ensures
            scheduler.wf(),
            scheduler.frame_spec() == 0,
            scheduler.last_ticks() == Map::new(
                |rate: u64| rate == 5000 || rate == 2500 || rate == 1000,
                |rate: u64| now,
            ),
    {
        let mut last_ticks = table_new();
        for i in 0..3usize
            invariant
                last_ticks@ =~= Map::new(
                    |rate: u64| exists|k: int| 0 <= k < i && FIXED_TICKS[k] == rate,
                    |rate: u64| now,
                ),
        {
            table_insert(&mut last_ticks, FIXED_TICKS[i], now);
        }
        let scheduler = FrameScheduler { frame: 0, last_ticks };
        proof {
            assert(scheduler.last_ticks() =~= Map::new(
                |rate: u64| rate == 5000 || rate == 2500 || rate == 1000,
                |rate: u64| now,
            ));
        }
        scheduler
    }

    /// The number of the current frame.
    pub fn frame(&self) -> (frame: u64)
        ensures
            frame == self.frame_spec(),
    {
        self.frame
    }

    /// The time at which the event of interval `rate` was sent last, if
    /// `rate` is one of the fixed intervals.
    pub fn last_tick(&self, rate: u64) -> (last: Option<u64>)
        ensures
            last == (if self.last_ticks().contains_key(rate) {
                Some(self.last_ticks()[rate])
            } else {
                None::<u64>
            }),
    {
        match table_get(&self.last_ticks, &rate) {
            Some(last) => Some(*last),
            None => None,
        }
    }

    /// Decides whether the event of interval `rate` is due at time `now`,
    /// and if so records that it was sent at `now`.
    fn reschedule(&mut self, rate: u64, now: u64) -> (due: bool)
        requires
            old(self).last_ticks().contains_key(rate),
        ensures
            due == (old(self).last_ticks()[rate] + rate < now),
            final(self).last_ticks() == old(self).last_ticks().insert(
                rate,
                rescheduled(old(self).last_ticks()[rate], rate, now),
            ),
            final(self).frame_spec() == old(self).frame_spec(),
    {
        let due = match table_get(&self.last_ticks, &rate) {
            Some(last) => match (*last).checked_add(rate) {
                Some(next) => next < now,
                None => false,
            },
            None => false,
        };
        if due {
            table_insert(&mut self.last_ticks, rate, now);
        }
        proof {
            assert(self.last_ticks() =~= old(self).last_ticks().insert(
                rate,
                rescheduled(old(self).last_ticks()[rate], rate, now),
            ));
        }
        due
    }

    /// Decides which timing events are due in the current frame, at time
    /// `now` in milliseconds. `Tick<N>` is due where `N` divides the number
    /// of the frame. `FixedTick<N>` is due where more than `N` milliseconds
    /// have passed since it was sent last, and is then recorded as sent at
    /// `now`.
    pub fn handle_scheduling(&mut self, now: u64) -> (due: DueEvents)
        requires
            old(self).wf(),
        ensures
            final(self).wf(),
            final(self).frame_spec() == old(self).frame_spec(),
            final(self).last_ticks() == rescheduled_table(old(self).last_ticks(), now),
            due == (DueEvents {
                tick_1: true,
                tick_2: Tick::<2>::is_due_spec(old(self).frame_spec()),
                tick_30: Tick::<30>::is_due_spec(old(self).frame_spec()),
                tick_60: Tick::<60>::is_due_spec(old(self).frame_spec()),
                fixed_1000: FixedTick::<1000>::is_due_spec(old(self).last_ticks()[1000], now),
                fixed_2500: FixedTick::<2500>::is_due_spec(old(self).last_ticks()[2500], now),
                fixed_5000: FixedTick::<5000>::is_due_spec(old(self).last_ticks()[5000], now),
            }),
    {
        proof {
            assert(set![5000u64, 2500u64, 1000u64].contains(5000));
            assert(set![5000u64, 2500u64, 1000u64].contains(2500));
            assert(set![5000u64, 2500u64, 1000u64].contains(1000));
        }
        let fixed_5000 = self.reschedule(5000, now);
        let fixed_2500 = self.reschedule(2500, now);
        let fixed_1000 = self.reschedule(1000, now);
        let due = DueEvents {
            tick_1: true,
            tick_2: Tick::<2>::is_due(self.frame),
            tick_30: Tick::<30>::is_due(self.frame),
            tick_60: Tick::<60>::is_due(self.frame),
            fixed_1000,
            fixed_2500,
            fixed_5000,
        };
        proof {
            assert(self.last_ticks() =~= rescheduled_table(old(self).last_ticks(), now));
        }
        due
    }

    /// Goes on to the next frame.
    pub fn end_frame(&mut self)
        requires
            old(self).frame_spec() < u64::MAX,
        ensures
            final(self).frame_spec() == old(self).frame_spec() + 1,
            final(self).last_ticks() == old(self).last_ticks(),
    {
        self.frame = self.frame + 1;
    }
}

} // verus!
