use tree_manipulation::hunk::{HunkHeader, HunkRange};

fn range(start: u32, lines: u32) -> HunkRange {
    HunkRange { start, lines }
}

fn hunk(old: (u32, u32), new: (u32, u32)) -> HunkHeader {
    HunkHeader { old_start: old.0, old_lines: old.1, new_start: new.0, new_lines: new.1 }
}

#[test]
fn range_end_is_one_past_the_last_line() {
    assert_eq!(range(3, 4).end(), 7);
    assert_eq!(range(1, 0).end(), 1);
    assert_eq!(range(u32::MAX, u32::MAX).end(), 2 * (u32::MAX as u64));
}

#[test]
fn range_contains_itself_and_inner_ranges() {
    let outer = range(3, 4);
    assert!(outer.contains(outer));
    assert!(outer.contains(range(3, 1)));
    assert!(outer.contains(range(6, 1)));
    assert!(outer.contains(range(4, 2)));
    assert!(outer.contains(range(7, 0)));
}

#[test]
fn range_does_not_contain_what_sticks_out() {
    let outer = range(3, 4);
    assert!(!outer.contains(range(2, 2)));
    assert!(!outer.contains(range(6, 2)));
    assert!(!outer.contains(range(2, 6)));
    assert!(!outer.contains(range(8, 0)));
}

#[test]
fn range_containment_does_not_wrap_around() {
    let outer = range(10, 5);
    assert!(!outer.contains(range(u32::MAX, 12)));
    assert!(range(u32::MAX, 10).contains(range(u32::MAX, 10)));
}

#[test]
fn ranges_are_ordered_by_start_then_length() {
    assert!(range(1, 9).precedes(&range(2, 0)));
    assert!(range(2, 1).precedes(&range(2, 1)));
    assert!(range(2, 1).precedes(&range(2, 3)));
    assert!(!range(2, 3).precedes(&range(2, 1)));
    assert!(!range(3, 0).precedes(&range(2, 9)));
}

#[test]
fn header_ranges() {
    let h = hunk((5, 2), (7, 3));
    assert_eq!(h.old_range(), range(5, 2));
    assert_eq!(h.new_range(), range(7, 3));
}

#[test]
fn header_contains_itself_and_parts_of_one_side() {
    let h = hunk((1, 10), (1, 10));
    assert!(h.contains(h));
    assert!(h.contains(hunk((5, 1), (1, 10))));
    assert!(h.contains(hunk((1, 10), (5, 1))));
    assert!(h.contains(hunk((1, 10), (11, 0))));
    assert!(h.contains(hunk((1, 0), (1, 10))));
}

#[test]
fn header_does_not_contain_what_shares_no_range_with_it() {
    let h = hunk((1, 10), (1, 10));
    assert!(!h.contains(hunk((2, 3), (4, 5))));
    assert!(!h.contains(hunk((5, 1), (5, 1))));
    assert!(!h.contains(hunk((1, 9), (1, 9))));
}

#[test]
fn header_does_not_contain_what_sticks_out() {
    let h = hunk((1, 10), (1, 10));
    assert!(!h.contains(hunk((5, 1), (8, 4))));
    assert!(!h.contains(hunk((0, 3), (1, 10))));
    assert!(!h.contains(hunk((1, 10), (10, 2))));
    assert!(!h.contains(hunk((1, 11), (1, 10))));
}

#[test]
fn header_representable() {
    assert!(hunk((1, 10), (1, 10)).representable());
    assert!(hunk((u32::MAX, 0), (1, 1)).representable());
    assert!(!hunk((u32::MAX, 1), (1, 1)).representable());
    assert!(!hunk((1, 1), (2, u32::MAX)).representable());
}
