use bevy_replicon::tick::{is_newer_than, ComponentTicks, Tick};

#[test]
fn later_tick_is_newer() {
    assert!(is_newer_than(Tick::new(2), Tick::new(1)));
    assert!(!is_newer_than(Tick::new(1), Tick::new(2)));
}

#[test]
fn tick_is_not_newer_than_itself() {
    assert!(!is_newer_than(Tick::new(7), Tick::new(7)));
    assert!(!is_newer_than(Tick::new(u32::MAX), Tick::new(u32::MAX)));
}

#[test]
fn newer_across_wraparound() {
    assert!(is_newer_than(Tick::new(0), Tick::new(u32::MAX)));
    assert!(!is_newer_than(Tick::new(u32::MAX), Tick::new(0)));
    assert!(is_newer_than(Tick::new(5), Tick::new(u32::MAX - 5)));
    assert!(!is_newer_than(Tick::new(u32::MAX - 5), Tick::new(5)));
}

#[test]
fn half_range_boundary_is_unordered() {
    let half = 0x8000_0000u32;
    // One step short of half the cycle is still newer.
    assert!(is_newer_than(Tick::new(half - 1), Tick::new(0)));
    assert!(!is_newer_than(Tick::new(0), Tick::new(half - 1)));
    // Exactly half the cycle apart, neither is newer.
    assert!(!is_newer_than(Tick::new(half), Tick::new(0)));
    assert!(!is_newer_than(Tick::new(0), Tick::new(half)));
    assert!(!is_newer_than(Tick::new(half + 100), Tick::new(100)));
    assert!(!is_newer_than(Tick::new(100), Tick::new(half + 100)));
    // One step past half the cycle, the order flips.
    assert!(!is_newer_than(Tick::new(half + 1), Tick::new(0)));
    assert!(is_newer_than(Tick::new(0), Tick::new(half + 1)));
}

#[test]
fn next_tick_wraps_to_zero() {
    assert_eq!(Tick::new(41).next(), Tick::new(42));
    assert_eq!(Tick::new(u32::MAX).next(), Tick::new(0));
    assert!(is_newer_than(Tick::new(u32::MAX).next(), Tick::new(u32::MAX)));
    assert_eq!(Tick::new(9).get(), 9);
}

#[test]
fn newer_relative_to_current_tick() {
    let current = Tick::new(100);
    assert!(Tick::new(60).is_newer_than(Tick::new(50), current));
    assert!(!Tick::new(50).is_newer_than(Tick::new(60), current));
    assert!(!Tick::new(50).is_newer_than(Tick::new(50), current));
    // The current tick itself is newer than anything behind it.
    assert!(current.is_newer_than(Tick::new(99), current));
    assert!(!Tick::new(99).is_newer_than(current, current));
}

#[test]
fn newer_relative_to_current_tick_across_wraparound() {
    let current = Tick::new(10);
    let before_wrap = Tick::new(u32::MAX - 10);
    assert!(Tick::new(3).is_newer_than(before_wrap, current));
    assert!(!before_wrap.is_newer_than(Tick::new(3), current));
}

#[test]
fn ages_are_clamped() {
    // Both ticks lie further behind the current tick than the largest age
    // that is told apart: neither is newer than the other.
    let max_change_age = 3_258_167_296u32;
    let current = Tick::new(0);
    let old = Tick::new(0u32.wrapping_sub(max_change_age));
    let older = Tick::new(0u32.wrapping_sub(max_change_age).wrapping_sub(1000));
    assert!(!old.is_newer_than(older, current));
    assert!(!older.is_newer_than(old, current));
    // One step younger than the largest age is told apart from it.
    let younger = Tick::new(0u32.wrapping_sub(max_change_age - 1));
    assert!(younger.is_newer_than(old, current));
    assert!(younger.is_newer_than(older, current));
}

#[test]
fn relative_order_agrees_with_cyclic_order_in_window() {
    let current = Tick::new(1_000);
    for (a, b) in [(990u32, 100u32), (100, 990), (500, 500), (1_000, 0), (0, 1_000)] {
        assert_eq!(
            Tick::new(a).is_newer_than(Tick::new(b), current),
            is_newer_than(Tick::new(a), Tick::new(b))
        );
    }
}

#[test]
fn component_ticks_changed_and_added() {
    let ticks = ComponentTicks::new(Tick::new(5), Tick::new(20));
    let this_run = Tick::new(30);
    assert_eq!(ticks.added_tick(), Tick::new(5));
    assert_eq!(ticks.last_changed_tick(), Tick::new(20));
    assert!(ticks.is_changed(Tick::new(10), this_run));
    assert!(!ticks.is_added(Tick::new(10), this_run));
    assert!(!ticks.is_changed(Tick::new(20), this_run));
    assert!(ticks.is_added(Tick::new(4), this_run));
}
