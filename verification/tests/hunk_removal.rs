use tree_manipulation::hunk::{HunkHeader, HunkRange};
use tree_manipulation::removal::new_hunks_after_removals;
use tree_manipulation::subtract::{HunkSubtraction, SubtractError};

fn hunk(old: (u32, u32), new: (u32, u32)) -> HunkHeader {
    HunkHeader { old_start: old.0, old_lines: old.1, new_start: new.0, new_lines: new.1 }
}

#[test]
fn no_removals_keep_every_hunk() {
    let changes = vec![hunk((1, 2), (1, 3)), hunk((10, 1), (11, 1))];
    assert_eq!(new_hunks_after_removals(changes.clone(), vec![]), Ok(changes));
}

#[test]
fn removing_every_hunk_leaves_none() {
    let changes = vec![hunk((1, 2), (1, 3)), hunk((10, 1), (11, 1))];
    assert_eq!(new_hunks_after_removals(changes.clone(), changes), Ok(vec![]));
}

#[test]
fn removing_every_hunk_in_another_order_leaves_none() {
    let a = hunk((1, 2), (1, 3));
    let b = hunk((10, 1), (11, 1));
    assert_eq!(new_hunks_after_removals(vec![a, b], vec![b, a]), Ok(vec![]));
}

#[test]
fn exact_match_drops_only_that_hunk() {
    let a = hunk((1, 2), (1, 3));
    let b = hunk((5, 1), (5, 1));
    let c = hunk((10, 1), (11, 1));
    assert_eq!(new_hunks_after_removals(vec![a, b, c], vec![b]), Ok(vec![a, c]));
}

#[test]
fn a_removal_is_used_up_by_one_hunk() {
    let a = hunk((1, 2), (1, 3));
    assert_eq!(new_hunks_after_removals(vec![a, a], vec![a]), Ok(vec![a]));
    assert_eq!(new_hunks_after_removals(vec![a, a], vec![a, a]), Ok(vec![]));
}

#[test]
fn removal_with_the_same_new_range_cuts_old_lines() {
    let change = hunk((1, 10), (1, 10));
    let removal = hunk((5, 1), (1, 10));
    assert_eq!(
        new_hunks_after_removals(vec![change], vec![removal]),
        Ok(vec![hunk((1, 4), (1, 4)), hunk((6, 5), (5, 6))])
    );
}

#[test]
fn removal_with_the_same_old_range_cuts_new_lines() {
    let change = hunk((1, 10), (1, 10));
    let removal = hunk((1, 10), (5, 1));
    assert_eq!(
        new_hunks_after_removals(vec![change], vec![removal]),
        Ok(vec![hunk((1, 4), (1, 4)), hunk((5, 6), (6, 5))])
    );
}

#[test]
fn old_and_new_line_of_one_hunk_are_cut_together() {
    let change = hunk((1, 10), (1, 10));
    assert_eq!(
        new_hunks_after_removals(vec![change], vec![hunk((5, 1), (1, 10)), hunk((1, 10), (5, 1))]),
        Ok(vec![hunk((1, 4), (1, 4)), hunk((6, 5), (6, 5))])
    );
}

#[test]
fn pieces_are_spliced_in_at_the_place_of_their_hunk() {
    let a = hunk((1, 1), (1, 1));
    let b = hunk((10, 4), (10, 4));
    let c = hunk((20, 1), (20, 2));
    assert_eq!(
        new_hunks_after_removals(vec![a, b, c], vec![hunk((11, 1), (10, 4)), a]),
        Ok(vec![hunk((10, 1), (10, 1)), hunk((12, 2), (11, 3)), c])
    );
}

#[test]
fn a_removal_that_matches_no_hunk_changes_nothing() {
    let a = hunk((1, 2), (1, 3));
    assert_eq!(new_hunks_after_removals(vec![a], vec![hunk((7, 1), (7, 1))]), Ok(vec![a]));
}

#[test]
fn a_cut_outside_its_hunk_fails() {
    let change = hunk((1, 10), (1, 10));
    let removal = hunk((12, 1), (1, 10));
    assert_eq!(
        new_hunks_after_removals(vec![change], vec![removal]),
        Err(SubtractError::NotContained {
            hunk: change,
            subtraction: HunkSubtraction::Old(HunkRange { start: 12, lines: 1 }),
        })
    );
}
