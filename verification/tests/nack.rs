use chirp::protocol::nack::{DurationMs, InstantMs, NackTracker, MAX_GAP_WINDOW};

fn ms(t: u64) -> InstantMs {
    InstantMs::from_ticks(t)
}

#[test]
fn detect_gaps() {
    let mut t = NackTracker::new(0);
    for s in [1u32, 2, 4, 6] {
        t.record(s);
    }
    assert_eq!(t.missing(1), vec![3, 5]);
}

#[test]
fn no_gaps_when_complete() {
    let mut t = NackTracker::new(0);
    for s in 1u32..=10 {
        t.record(s);
    }
    assert!(t.missing(1).is_empty());
}

#[test]
fn hashset_o1_contains() {
    let mut t = NackTracker::new(0);
    for s in 0u32..10_000 {
        t.record(s);
    }
    // All received — no gaps
    assert!(t.missing(0).is_empty());
    assert!(t.has(9_999));
    assert!(!t.has(10_000));
}

#[test]
fn rate_limiting() {
    let mut t = NackTracker::new(200);
    t.record(1);
    t.record(3); // gap at 2
    assert!(t.get_nack_list(1, ms(0)).is_some()); // first — always fires
    assert!(t.get_nack_list(1, ms(100)).is_none()); // too soon
    assert!(t.get_nack_list(1, ms(201)).is_some()); // interval elapsed
}

#[test]
fn trim_below_frees_memory() {
    let mut t = NackTracker::new(0);
    for s in 1u32..=100 {
        t.record(s);
    }
    t.trim_below(51);
    assert!(!t.has(50));
    assert!(t.has(51));
    assert_eq!(t.received_count(), 50);
}

#[test]
fn wrapping_record_advances_highest_seen() {
    let mut t = NackTracker::new(0);
    t.force_highest_seen(u32::MAX - 2);

    // Normal advance near the boundary.
    t.record(u32::MAX - 1);
    assert_eq!(
        t.highest(),
        u32::MAX - 1,
        "highest should advance normally near u32::MAX"
    );

    t.record(u32::MAX);
    assert_eq!(t.highest(), u32::MAX);

    // Wrap: 0 is ahead of u32::MAX.
    t.record(0);
    assert_eq!(
        t.highest(),
        0,
        "highest should advance across the u32::MAX → 0 boundary"
    );

    t.record(1);
    assert_eq!(t.highest(), 1);
}

#[test]
fn missing_bounded_by_max_gap_window() {
    let mut t = NackTracker::new(0);
    // highest_seen is far ahead of start_seq.
    t.record(u32::MAX);
    let gaps = t.missing(1);
    assert!(
        gaps.len() <= MAX_GAP_WINDOW as usize,
        "missing() returned {} entries, expected ≤ {}",
        gaps.len(),
        MAX_GAP_WINDOW
    );
}

#[test]
fn missing_wraps_across_u32_max() {
    let mut t = NackTracker::new(0);
    // Record packets on both sides of the wrap boundary.
    // Gaps: u32::MAX-1 and 1 are missing.
    t.record(u32::MAX - 2);
    t.record(u32::MAX);
    t.record(0);
    t.record(2);
    let gaps = t.missing(u32::MAX - 2);
    assert!(
        gaps.contains(&(u32::MAX - 1)),
        "expected u32::MAX-1 in gaps"
    );
    assert!(gaps.contains(&1), "expected 1 in gaps (post-wrap)");
}

#[test]
fn a_list_needs_gaps() {
    let mut t = NackTracker::new(10);
    t.record(1);
    assert_eq!(t.get_nack_list(1, ms(0)), None);
    t.record(4);
    // No list was given out yet, so the interval does not count.
    assert_eq!(t.get_nack_list(1, ms(0)), Some(vec![2, 3]));
    assert_eq!(t.get_nack_list(1, ms(9)), None);
    assert_eq!(t.get_nack_list(1, ms(10)), Some(vec![2, 3]));
    t.record(2);
    assert_eq!(t.get_nack_list(1, ms(20)), Some(vec![3]));
}

#[test]
fn time_between_lists_is_counted_from_the_last() {
    let mut t = NackTracker::new(50);
    t.record(2);
    assert!(t.get_nack_list(1, ms(1_000)).is_some());
    assert!(t.get_nack_list(1, ms(1_049)).is_none());
    assert!(t.get_nack_list(1, ms(1_050)).is_some());
    assert!(!t.in_order(ms(1_049)));
    assert!(t.in_order(ms(1_050)));
    assert!(NackTracker::new(0).in_order(ms(0)));
}

#[test]
fn the_window_holds_exactly_its_number() {
    let mut t = NackTracker::new(0);
    t.force_highest_seen(MAX_GAP_WINDOW);
    assert_eq!(t.missing(1).len(), MAX_GAP_WINDOW as usize);
    assert_eq!(t.missing(0).len(), MAX_GAP_WINDOW as usize);
    assert_eq!(t.missing(2).len(), MAX_GAP_WINDOW as usize - 1);
    assert_eq!(t.missing(1)[MAX_GAP_WINDOW as usize - 1], MAX_GAP_WINDOW);
}

#[test]
fn a_number_half_the_circle_away_is_not_ahead() {
    let mut t = NackTracker::new(0);
    t.record(0x7FFF_FFFF);
    assert_eq!(t.highest(), 0x7FFF_FFFF);
    t.record(0xFFFF_FFFF);
    assert_eq!(t.highest(), 0x7FFF_FFFF);
    assert!(t.has(0xFFFF_FFFF));
    assert_eq!(t.received_count(), 2);
    t.record(0xFFFF_FFFF);
    assert_eq!(t.received_count(), 2);
}

#[test]
fn ticks_are_kept() {
    assert_eq!(ms(7).ticks(), 7);
    assert_eq!(DurationMs::from_ticks(9).ticks(), 9);
}
