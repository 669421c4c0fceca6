use trust::seqnum::is_between_wrapped;
use trust::tcp::{advance, is_segment_acceptable};

#[test]
fn start_itself_is_never_between() {
    for a in [0u32, 1, 77, 0x7fff_ffff, u32::MAX - 1, u32::MAX] {
        assert!(!is_between_wrapped(a, a, a.wrapping_add(1)));
        assert!(!is_between_wrapped(a, a, a));
        assert!(!is_between_wrapped(a, a, a.wrapping_sub(1)));
    }
}

#[test]
fn plain_interval_holds_what_is_strictly_inside() {
    assert!(is_between_wrapped(10, 11, 20));
    assert!(is_between_wrapped(10, 19, 20));
    assert!(!is_between_wrapped(10, 10, 20));
    assert!(!is_between_wrapped(10, 20, 20));
    assert!(!is_between_wrapped(10, 21, 20));
    assert!(!is_between_wrapped(10, 9, 20));
    assert!(!is_between_wrapped(10, 0, 20));
    assert!(!is_between_wrapped(10, u32::MAX, 20));
}

#[test]
fn empty_interval_holds_nothing() {
    assert!(!is_between_wrapped(10, 11, 10));
    assert!(!is_between_wrapped(10, 9, 10));
    assert!(!is_between_wrapped(10, 11, 11));
}

#[test]
fn interval_across_the_wraparound() {
    let start = u32::MAX - 2;
    let end = 3;
    assert!(is_between_wrapped(start, u32::MAX - 1, end));
    assert!(is_between_wrapped(start, u32::MAX, end));
    assert!(is_between_wrapped(start, 0, end));
    assert!(is_between_wrapped(start, 2, end));
    assert!(!is_between_wrapped(start, 3, end));
    assert!(!is_between_wrapped(start, 4, end));
    assert!(!is_between_wrapped(start, start, end));
    assert!(!is_between_wrapped(start, start - 1, end));
}

#[test]
fn shifted_interval_answers_the_same() {
    // the window 10..20 moved so that it straddles the wraparound
    let shift = u32::MAX - 14;
    for x in 0u32..40 {
        assert_eq!(
            is_between_wrapped(10, x, 20),
            is_between_wrapped(
                10u32.wrapping_add(shift),
                x.wrapping_add(shift),
                20u32.wrapping_add(shift)
            )
        );
    }
}

#[test]
fn advance_wraps_around() {
    assert_eq!(advance(100, 1), 101);
    assert_eq!(advance(u32::MAX, 1), 0);
    assert_eq!(advance(u32::MAX - 1, 5), 3);
    assert_eq!(advance(7, 0), 7);
    assert_eq!(advance(7, 0x1_0000_0000), 7);
    assert_eq!(advance(7, 0x1_0000_0003), 10);
}

#[test]
fn window_boundary() {
    // empty segments
    assert!(is_segment_acceptable(1000, 10, 1000, 0));
    assert!(is_segment_acceptable(1000, 10, 1009, 0));
    assert!(!is_segment_acceptable(1000, 10, 1010, 0));
    assert!(!is_segment_acceptable(1000, 10, 1011, 0));
    assert!(!is_segment_acceptable(1000, 10, 999, 0));
    // first byte 995, last byte 1000: overlaps the window from before it
    assert!(is_segment_acceptable(1000, 10, 995, 6));
    // first byte 995, last byte 999: ends before the window
    assert!(!is_segment_acceptable(1000, 10, 995, 5));
    // starts inside
    assert!(is_segment_acceptable(1000, 10, 1009, 100));
    // starts behind
    assert!(!is_segment_acceptable(1000, 10, 1010, 1));
}

#[test]
fn closed_window() {
    assert!(is_segment_acceptable(1000, 0, 1000, 0));
    assert!(!is_segment_acceptable(1000, 0, 1001, 0));
    assert!(!is_segment_acceptable(1000, 0, 999, 0));
    assert!(!is_segment_acceptable(1000, 0, 1000, 1));
}

#[test]
fn window_across_the_wraparound() {
    let nxt = u32::MAX - 4;
    assert!(is_segment_acceptable(nxt, 10, nxt, 0));
    assert!(is_segment_acceptable(nxt, 10, 0, 0));
    assert!(is_segment_acceptable(nxt, 10, 4, 0));
    assert!(!is_segment_acceptable(nxt, 10, 5, 0));
    // last byte wraps into the window
    assert!(is_segment_acceptable(nxt, 10, nxt - 3, 4));
    assert!(!is_segment_acceptable(nxt, 10, nxt - 3, 3));
}
