use tree_manipulation::hunk::{HunkHeader, HunkRange};
use tree_manipulation::subtract::{subtract_hunks, HunkSubtraction, SubtractError};

fn range(start: u32, lines: u32) -> HunkRange {
    HunkRange { start, lines }
}

fn hunk(old: (u32, u32), new: (u32, u32)) -> HunkHeader {
    HunkHeader { old_start: old.0, old_lines: old.1, new_start: new.0, new_lines: new.1 }
}

#[test]
fn subtracting_nothing_leaves_the_hunk() {
    let h = hunk((1, 10), (1, 10));
    assert_eq!(subtract_hunks(h, vec![]), Ok(vec![h]));
}

#[test]
fn subtract_old_line_in_the_middle_splits_in_step() {
    let h = hunk((1, 10), (1, 10));
    assert_eq!(
        subtract_hunks(h, vec![HunkSubtraction::Old(range(5, 1))]),
        Ok(vec![hunk((1, 4), (1, 4)), hunk((6, 5), (5, 6))])
    );
}

#[test]
fn subtract_new_line_in_the_middle_splits_in_step() {
    let h = hunk((1, 10), (1, 10));
    assert_eq!(
        subtract_hunks(h, vec![HunkSubtraction::New(range(5, 1))]),
        Ok(vec![hunk((1, 4), (1, 4)), hunk((5, 6), (6, 5))])
    );
}

#[test]
fn subtract_at_the_start_shortens_the_side() {
    let h = hunk((1, 10), (1, 10));
    assert_eq!(
        subtract_hunks(h, vec![HunkSubtraction::Old(range(1, 3))]),
        Ok(vec![hunk((4, 7), (1, 10))])
    );
    assert_eq!(
        subtract_hunks(h, vec![HunkSubtraction::New(range(1, 3))]),
        Ok(vec![hunk((1, 10), (4, 7))])
    );
}

#[test]
fn subtract_at_the_end_shortens_the_side() {
    let h = hunk((1, 10), (1, 10));
    assert_eq!(
        subtract_hunks(h, vec![HunkSubtraction::Old(range(8, 3))]),
        Ok(vec![hunk((1, 7), (1, 10))])
    );
    assert_eq!(
        subtract_hunks(h, vec![HunkSubtraction::New(range(10, 1))]),
        Ok(vec![hunk((1, 10), (1, 9))])
    );
}

#[test]
fn subtract_whole_side_leaves_an_empty_side() {
    let h = hunk((3, 2), (3, 4));
    assert_eq!(
        subtract_hunks(h, vec![HunkSubtraction::Old(range(3, 2))]),
        Ok(vec![hunk((5, 0), (3, 4))])
    );
    assert_eq!(
        subtract_hunks(h, vec![HunkSubtraction::New(range(3, 4))]),
        Ok(vec![hunk((3, 2), (7, 0))])
    );
}

#[test]
fn split_gives_the_first_piece_no_more_than_the_other_side_has() {
    let h = hunk((1, 10), (1, 2));
    assert_eq!(
        subtract_hunks(h, vec![HunkSubtraction::Old(range(5, 1))]),
        Ok(vec![hunk((1, 4), (1, 2)), hunk((6, 5), (3, 0))])
    );
}

#[test]
fn subtract_old_and_new_line_of_the_same_number() {
    let h = hunk((1, 10), (1, 10));
    assert_eq!(
        subtract_hunks(
            h,
            vec![HunkSubtraction::Old(range(5, 1)), HunkSubtraction::New(range(5, 1))]
        ),
        Ok(vec![hunk((1, 4), (1, 4)), hunk((6, 5), (6, 5))])
    );
}

#[test]
fn subtractions_are_taken_in_range_order() {
    let h = hunk((1, 10), (1, 10));
    let sorted = subtract_hunks(
        h,
        vec![HunkSubtraction::Old(range(3, 1)), HunkSubtraction::Old(range(7, 1))],
    );
    let unsorted = subtract_hunks(
        h,
        vec![HunkSubtraction::Old(range(7, 1)), HunkSubtraction::Old(range(3, 1))],
    );
    assert_eq!(sorted, Ok(vec![hunk((1, 2), (1, 2)), hunk((4, 3), (3, 3)), hunk((8, 3), (6, 5))]));
    assert_eq!(unsorted, sorted);
}

#[test]
fn equal_ranges_keep_the_order_given() {
    let h = hunk((1, 4), (1, 4));
    assert_eq!(
        subtract_hunks(
            h,
            vec![HunkSubtraction::New(range(2, 1)), HunkSubtraction::Old(range(2, 1))]
        ),
        Ok(vec![hunk((1, 1), (1, 1)), hunk((3, 2), (3, 2))])
    );
}

#[test]
fn subtract_range_outside_the_hunk_fails() {
    let h = hunk((1, 10), (1, 10));
    let sub = HunkSubtraction::Old(range(10, 2));
    assert_eq!(
        subtract_hunks(h, vec![sub]),
        Err(SubtractError::NotContained { hunk: h, subtraction: sub })
    );
}

#[test]
fn subtract_range_across_two_pieces_fails() {
    let h = hunk((1, 10), (1, 10));
    let inner = HunkSubtraction::Old(range(5, 1));
    assert_eq!(
        subtract_hunks(h, vec![inner, HunkSubtraction::Old(range(4, 3))]),
        Err(SubtractError::NotContained { hunk: h, subtraction: inner })
    );
    let across = HunkSubtraction::Old(range(4, 3));
    assert_eq!(
        subtract_hunks(h, vec![HunkSubtraction::Old(range(3, 2)), across]),
        Err(SubtractError::NotContained { hunk: h, subtraction: across })
    );
}

#[test]
fn subtract_from_a_hunk_that_ends_too_far_fails() {
    let h = hunk((u32::MAX, 2), (1, 1));
    assert_eq!(
        subtract_hunks(h, vec![HunkSubtraction::New(range(1, 1))]),
        Err(SubtractError::RangeOverflow { hunk: h })
    );
    assert_eq!(subtract_hunks(h, vec![]), Ok(vec![h]));
}

#[test]
fn subtraction_range_is_the_tagged_range() {
    assert_eq!(HunkSubtraction::Old(range(2, 3)).range(), range(2, 3));
    assert_eq!(HunkSubtraction::New(range(4, 5)).range(), range(4, 5));
}
