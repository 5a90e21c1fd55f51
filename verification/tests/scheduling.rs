use granular_core::events::timing::{FixedTick, Tick, FIXED_TICKS};
use granular_core::events::{Draw, Initialized};
use granular_core::{DueEvents, FrameScheduler, TickTiming};

#[test]
fn fixed_ticks_are_five_two_and_a_half_and_one_second() {
    assert_eq!(FIXED_TICKS, [5000, 2500, 1000]);
}

#[test]
fn marker_events_are_plain_values() {
    assert_eq!(Initialized {}, Initialized {});
    assert_eq!(Draw, Draw);
    assert_eq!(Tick::<60>, Tick::<60>);
    assert_eq!(FixedTick::<1000>, FixedTick::<1000>);
}

#[test]
fn frame_tick_is_due_where_its_interval_divides_the_frame() {
    assert!(Tick::<1>::is_due(0));
    assert!(Tick::<1>::is_due(7));
    assert!(Tick::<2>::is_due(0));
    assert!(!Tick::<2>::is_due(1));
    assert!(Tick::<30>::is_due(90));
    assert!(!Tick::<30>::is_due(91));
    assert!(Tick::<60>::is_due(120));
    assert!(!Tick::<60>::is_due(90));
    assert!(!Tick::<60>::is_due(u64::MAX));
}

#[test]
fn fixed_tick_is_due_after_more_than_its_interval() {
    assert!(!FixedTick::<1000>::is_due(0, 1000));
    assert!(FixedTick::<1000>::is_due(0, 1001));
    assert!(!FixedTick::<2500>::is_due(500, 3000));
    assert!(FixedTick::<2500>::is_due(500, 3001));
    assert!(!FixedTick::<5000>::is_due(10, 5));
    assert!(!FixedTick::<5000>::is_due(u64::MAX, u64::MAX));
    assert!(!FixedTick::<5000>::is_due(u64::MAX - 4999, u64::MAX));
}

#[test]
fn scheduler_starts_in_frame_zero() {
    let scheduler = FrameScheduler::new(40);
    assert_eq!(scheduler.frame(), 0);
    assert_eq!(scheduler.last_tick(5000), Some(40));
    assert_eq!(scheduler.last_tick(2500), Some(40));
    assert_eq!(scheduler.last_tick(1000), Some(40));
    assert_eq!(scheduler.last_tick(40), None);
    assert_eq!(scheduler.last_tick(0), None);
}

#[test]
fn scheduler_sends_frame_ticks_by_frame_number() {
    let mut scheduler = FrameScheduler::new(0);
    for frame in 0..130u64 {
        assert_eq!(scheduler.frame(), frame);
        let due = scheduler.handle_scheduling(0);
        assert_eq!(
            due,
            DueEvents {
                tick_1: true,
                tick_2: frame % 2 == 0,
                tick_30: frame % 30 == 0,
                tick_60: frame % 60 == 0,
                fixed_1000: false,
                fixed_2500: false,
                fixed_5000: false,
            }
        );
        scheduler.end_frame();
    }
}

#[test]
fn scheduler_sends_fixed_ticks_by_the_clock() {
    let mut scheduler = FrameScheduler::new(100);
    let due = scheduler.handle_scheduling(1100);
    assert!(!due.fixed_1000 && !due.fixed_2500 && !due.fixed_5000);
    let due = scheduler.handle_scheduling(1101);
    assert!(due.fixed_1000 && !due.fixed_2500 && !due.fixed_5000);
    assert_eq!(scheduler.last_tick(1000), Some(1101));
    assert_eq!(scheduler.last_tick(2500), Some(100));
    assert_eq!(scheduler.last_tick(5000), Some(100));
    let due = scheduler.handle_scheduling(2601);
    assert!(due.fixed_1000 && due.fixed_2500 && !due.fixed_5000);
    assert_eq!(scheduler.last_tick(1000), Some(2601));
    assert_eq!(scheduler.last_tick(2500), Some(2601));
    let due = scheduler.handle_scheduling(5101);
    assert!(due.fixed_1000 && !due.fixed_2500 && due.fixed_5000);
    assert_eq!(scheduler.last_tick(5000), Some(5101));
    assert_eq!(scheduler.last_tick(2500), Some(2601));
    // the clock stands still: nothing is due
    let due = scheduler.handle_scheduling(5101);
    assert!(!due.fixed_1000 && !due.fixed_2500 && !due.fixed_5000);
    assert_eq!(scheduler.frame(), 0);
}

#[test]
fn scheduler_near_the_end_of_time() {
    let mut scheduler = FrameScheduler::new(u64::MAX - 10);
    let due = scheduler.handle_scheduling(u64::MAX);
    assert!(due.tick_1);
    assert!(!due.fixed_1000 && !due.fixed_2500 && !due.fixed_5000);
    assert_eq!(scheduler.last_tick(1000), Some(u64::MAX - 10));
}

#[test]
fn tick_timing_starts_with_an_interval_of_one_second() {
    let timing = TickTiming::new(250);
    assert_eq!(timing.last_tick(), 250);
    assert_eq!(timing.interval(), 1000);
    assert_eq!(timing.next_tick(), 1250);
    assert_eq!(timing.tick_count(), 0);
}

#[test]
fn tick_timing_ticks_after_more_than_one_interval() {
    let mut timing = TickTiming::new(250);
    assert!(!timing.handle_next_tick(1250));
    assert_eq!(timing.tick_count(), 0);
    assert_eq!(timing.last_tick(), 250);
    assert!(timing.handle_next_tick(1251));
    assert_eq!(timing.tick_count(), 1);
    assert_eq!(timing.last_tick(), 1250);
    assert_eq!(timing.next_tick(), 2250);
    // a long pause: one tick per call, the timer catches up interval by interval
    assert!(timing.handle_next_tick(10_000));
    assert_eq!(timing.last_tick(), 2250);
    assert!(timing.handle_next_tick(10_000));
    assert_eq!(timing.last_tick(), 3250);
    assert_eq!(timing.tick_count(), 3);
}

#[test]
fn tick_timing_takes_a_new_interval() {
    let mut timing = TickTiming::new(0);
    timing.set_interval(16);
    assert_eq!(timing.interval(), 16);
    assert_eq!(timing.next_tick(), 16);
    assert!(!timing.handle_next_tick(16));
    assert!(timing.handle_next_tick(17));
    assert_eq!(timing.last_tick(), 16);
    assert_eq!(timing.tick_count(), 1);
}

#[test]
fn tick_timing_does_not_tick_past_the_end_of_time() {
    let mut timing = TickTiming::new(u64::MAX - 5);
    assert!(!timing.handle_next_tick(u64::MAX));
    assert_eq!(timing.last_tick(), u64::MAX - 5);
    assert_eq!(timing.tick_count(), 0);
}
