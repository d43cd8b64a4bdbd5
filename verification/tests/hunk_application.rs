use tree_manipulation::hunk::HunkHeader;
use tree_manipulation::patch::{apply_hunks, ApplyError};

fn hunk(old: (u32, u32), new: (u32, u32)) -> HunkHeader {
    HunkHeader { old_start: old.0, old_lines: old.1, new_start: new.0, new_lines: new.1 }
}

#[test]
fn no_hunks_give_the_old_image() {
    assert_eq!(apply_hunks(b"1\n2\n3\n", b"1\nX\n3\n", &[]), Ok(b"1\n2\n3\n".to_vec()));
    assert_eq!(apply_hunks(b"", b"new", &[]), Ok(vec![]));
    assert_eq!(apply_hunks(b"no newline", b"", &[]), Ok(b"no newline".to_vec()));
}

#[test]
fn one_hunk_replaces_its_lines() {
    assert_eq!(
        apply_hunks(b"1\n2\n3\n", b"1\nX\n3\n", &[hunk((2, 1), (2, 1))]),
        Ok(b"1\nX\n3\n".to_vec())
    );
}

#[test]
fn all_hunks_give_the_new_image() {
    let old = b"a\nb\nc\nd\ne\nf\n";
    let new = b"a\nB\nc\nd\nE\nE2\nf\n";
    assert_eq!(
        apply_hunks(old, new, &[hunk((2, 1), (2, 1)), hunk((5, 1), (5, 2))]),
        Ok(new.to_vec())
    );
}

#[test]
fn some_hunks_give_a_mix() {
    let old = b"a\nb\nc\nd\ne\nf\n";
    let new = b"a\nB\nc\nd\nE\nE2\nf\n";
    assert_eq!(apply_hunks(old, new, &[hunk((2, 1), (2, 1))]), Ok(b"a\nB\nc\nd\ne\nf\n".to_vec()));
    assert_eq!(
        apply_hunks(old, new, &[hunk((5, 1), (5, 2))]),
        Ok(b"a\nb\nc\nd\nE\nE2\nf\n".to_vec())
    );
}

#[test]
fn addition_and_deletion_hunks() {
    assert_eq!(apply_hunks(b"a\nc\n", b"a\nb\nc\n", &[hunk((2, 0), (2, 1))]), Ok(b"a\nb\nc\n".to_vec()));
    assert_eq!(apply_hunks(b"a\nb\nc\n", b"a\nc\n", &[hunk((2, 1), (2, 0))]), Ok(b"a\nc\n".to_vec()));
    assert_eq!(apply_hunks(b"", b"x\ny\n", &[hunk((1, 0), (1, 2))]), Ok(b"x\ny\n".to_vec()));
}

#[test]
fn last_line_without_line_feed() {
    assert_eq!(apply_hunks(b"a\nb", b"a\nB", &[hunk((2, 1), (2, 1))]), Ok(b"a\nB".to_vec()));
    assert_eq!(apply_hunks(b"a\nb", b"A\nb", &[hunk((1, 1), (1, 1))]), Ok(b"A\nb".to_vec()));
}

#[test]
fn carriage_returns_stay_with_their_line() {
    assert_eq!(
        apply_hunks(b"a\r\nb\r\n", b"a\r\nB\r\n", &[hunk((2, 1), (2, 1))]),
        Ok(b"a\r\nB\r\n".to_vec())
    );
}

#[test]
fn ranges_past_the_end_give_what_is_there() {
    assert_eq!(apply_hunks(b"a\n", b"x\n", &[hunk((1, 5), (1, 5))]), Ok(b"x\n".to_vec()));
    assert_eq!(apply_hunks(b"a\n", b"x\n", &[hunk((4, 1), (7, 1))]), Ok(b"a\n".to_vec()));
}

#[test]
fn hunks_out_of_order_in_the_old_image_fail() {
    let first = hunk((5, 1), (5, 2));
    let second = hunk((2, 1), (7, 1));
    assert_eq!(
        apply_hunks(b"a\nb\nc\nd\ne\nf\n", b"a\nB\nc\nd\nE\nE2\nf\n", &[first, second]),
        Err(ApplyError::OldOutOfOrder { hunk: second })
    );
}

#[test]
fn hunks_out_of_order_in_the_new_image_fail() {
    let first = hunk((2, 1), (5, 2));
    let second = hunk((5, 1), (2, 1));
    assert_eq!(
        apply_hunks(b"a\nb\nc\nd\ne\nf\n", b"a\nB\nc\nd\nE\nE2\nf\n", &[first, second]),
        Err(ApplyError::NewOutOfOrder { hunk: second })
    );
}

#[test]
fn line_zero_is_before_the_first_line() {
    let h = hunk((0, 0), (1, 1));
    assert_eq!(apply_hunks(b"", b"x\n", &[h]), Err(ApplyError::OldOutOfOrder { hunk: h }));
    let h = hunk((1, 0), (0, 1));
    assert_eq!(apply_hunks(b"", b"x\n", &[h]), Err(ApplyError::NewOutOfOrder { hunk: h }));
}

#[test]
fn overlapping_hunks_fail() {
    let first = hunk((2, 3), (2, 3));
    let second = hunk((4, 1), (5, 1));
    assert_eq!(
        apply_hunks(b"a\nb\nc\nd\ne\n", b"a\nb\nc\nd\ne\n", &[first, second]),
        Err(ApplyError::OldOutOfOrder { hunk: second })
    );
}
