//! Building a file from its old version, its new version and the hunks to
//! carry over from the new one.

use vstd::prelude::*;
use vstd::seq_lib::lemma_flatten_concat;
use crate::bytes::append_bytes;
use crate::hunk::HunkHeader;

verus! {

/// Why hunks could not be applied.
#[derive(Clone, Copy, Debug, PartialEq, Eq, Structural)]
pub enum ApplyError {
    /// The hunk starts, in the old version, before the end of the hunk ahead
    /// of it, or before line 1.
    OldOutOfOrder { hunk: HunkHeader },
    /// The hunk starts, in the new version, before the end of the hunk ahead
    /// of it, or before line 1.
    NewOutOfOrder { hunk: HunkHeader },
}

/// The length of the first line of `bytes`, its line feed included. The last
/// line may lack a line feed.
pub open spec fn first_line_len(bytes: Seq<u8>) -> int
    decreases bytes.len(),
{
    if bytes.len() == 0 {
        0
    } else if bytes[0] == 10 {
        1
    } else {
        1 + first_line_len(bytes.skip(1))
    }
}

/// The lines of `bytes`, each with the line feed that ends it.
pub open spec fn lines_with_terminator(bytes: Seq<u8>) -> Seq<Seq<u8>>
    decreases bytes.len(),
{
    if bytes.len() == 0 {
        Seq::empty()
    } else {
        let n = first_line_len(bytes);
        proof {
            lemma_first_line_len_bounds(bytes);
        }
        seq![bytes.take(n)] + lines_with_terminator(bytes.skip(n))
    }
}

/// The place in `lines` of the line numbered `number`, counting from 1, held
/// within `0 ..= lines.len()`.
pub open spec fn line_index(lines: Seq<Seq<u8>>, number: int) -> int {
    if number <= 1 {
        0
    } else if number - 1 >= lines.len() {
        lines.len() as int
    } else {
        number - 1
    }
}

/// The lines numbered from `from` up to, but not including, `to`, as far as
/// `lines` has them.
pub open spec fn lines_between(lines: Seq<Seq<u8>>, from: int, to: int) -> Seq<Seq<u8>> {
    let lo = line_index(lines, from);
    let hi = line_index(lines, to);
    if lo <= hi {
        lines.subrange(lo, hi)
    } else {
        Seq::empty()
    }
}

/// The lines of the patched file from the old line `old_cursor` on, where the
/// new lines before `new_cursor` are behind us.
///
/// Each hunk stands for: the old lines up to its old range, unchanged; then
/// the new lines of its new range, in place of the old lines of its old range.
/// After the last hunk come the old lines that are left.
pub open spec fn patched_lines(
    old_lines: Seq<Seq<u8>>,
    new_lines: Seq<Seq<u8>>,
    hunks: Seq<HunkHeader>,
    old_cursor: int,
    new_cursor: int,
) -> Result<Seq<Seq<u8>>, ApplyError>
    decreases hunks.len(),
{
    if hunks.len() == 0 {
        Ok(lines_between(old_lines, old_cursor, old_lines.len() as int + 1))
    } else {
        let hunk = hunks[0];
        if hunk.old_start < old_cursor {
            Err(ApplyError::OldOutOfOrder { hunk })
        } else if hunk.new_start < new_cursor {
            Err(ApplyError::NewOutOfOrder { hunk })
        } else {
            match patched_lines(
                old_lines,
                new_lines,
                hunks.skip(1),
                hunk.spec_old_range().spec_end(),
                hunk.spec_new_range().spec_end(),
            ) {
                Err(e) => Err(e),
                Ok(rest) => Ok(
                    lines_between(old_lines, old_cursor, hunk.old_start as int) + lines_between(
                        new_lines,
                        hunk.new_start as int,
                        hunk.spec_new_range().spec_end(),
                    ) + rest,
                ),
            }
        }
    }
}

/// The bytes of `lines`, or the error.
pub open spec fn joined(lines: Result<Seq<Seq<u8>>, ApplyError>) -> Result<Seq<u8>, ApplyError> {
    match lines {
        Ok(lines) => Ok(lines.flatten()),
        Err(e) => Err(e),
    }
}

/// The file that has the lines of `new_image` where `hunks` say so and the
/// lines of `old_image` everywhere else.
pub open spec fn spec_apply_hunks(old_image: Seq<u8>, new_image: Seq<u8>, hunks: Seq<HunkHeader>)
    -> Result<Seq<u8>, ApplyError> {
    joined(
        patched_lines(
            lines_with_terminator(old_image),
            lines_with_terminator(new_image),
            hunks,
            1,
            1,
        ),
    )
}

/// `starts` holds the offset at which each line of `bytes` begins, and the
/// length of `bytes` at its end.
pub open spec fn marks_lines(starts: Seq<usize>, bytes: Seq<u8>) -> bool {
    let lines = lines_with_terminator(bytes);
    &&& starts.len() == lines.len() + 1
    &&& starts[0] == 0
    &&& starts.last() == bytes.len()
    &&& forall|i: int|
        0 <= i < lines.len() ==> starts[i] <= #[trigger] starts[i + 1] <= bytes.len()
    &&& forall|i: int|
        0 <= i < lines.len() ==> #[trigger] lines[i] == bytes.subrange(
            starts[i] as int,
            starts[i + 1] as int,
        )
}

/// The first line of a file that is not empty holds at least one byte, and
/// no more than the file.
pub proof fn lemma_first_line_len_bounds(bytes: Seq<u8>)
    requires
        bytes.len() > 0,
    ensures
        0 < first_line_len(bytes) <= bytes.len(),
    decreases bytes.len(),
{
    if bytes[0] != 10 {
        if bytes.len() > 1 {
            lemma_first_line_len_bounds(bytes.skip(1));
        } else {
            assert(first_line_len(bytes.skip(1)) == 0);
        }
    }
}

/// A first line is `n` bytes long where no line feed stands before its last
/// byte and it ends in a line feed or at the end of `bytes`.
proof fn lemma_first_line_len_is(bytes: Seq<u8>, n: int)
    requires
        0 < n <= bytes.len(),
        forall|k: int| 0 <= k < n - 1 ==> bytes[k] != 10,
        bytes[n - 1] == 10 || n == bytes.len(),
    ensures
        first_line_len(bytes) == n,
    decreases n,
{
    if n > 1 {
        let rest = bytes.skip(1);
        assert forall|k: int| 0 <= k < n - 2 implies rest[k] != 10 by {
            assert(rest[k] == bytes[k + 1]);
        }
        assert(rest[n - 2] == bytes[n - 1]);
        lemma_first_line_len_is(rest, n - 1);
    } else {
        if bytes[0] != 10 {
            assert(first_line_len(bytes.skip(1)) == 0);
        }
    }
}

/// The lines of a file, put together again, are the file.
pub proof fn lemma_lines_join(bytes: Seq<u8>)
    ensures
        lines_with_terminator(bytes).flatten() == bytes,
    decreases bytes.len(),
{
    if bytes.len() > 0 {
        let n = first_line_len(bytes);
        lemma_first_line_len_bounds(bytes);
        lemma_lines_join(bytes.skip(n));
        let lines = lines_with_terminator(bytes);
        assert(lines.first() == bytes.take(n));
        assert(lines.drop_first() =~= lines_with_terminator(bytes.skip(n)));
        assert(bytes.take(n) + bytes.skip(n) =~= bytes);
    }
}

/// Every line holds at least one byte; a line feed stands at the end of a
/// line and nowhere else in it; only the last line may lack one.
pub proof fn lemma_lines_end_with_line_feeds(bytes: Seq<u8>)
    ensures
        forall|i: int|
            0 <= i < lines_with_terminator(bytes).len() ==> {
                let line = #[trigger] lines_with_terminator(bytes)[i];
                &&& line.len() > 0
                &&& forall|k: int| 0 <= k < line.len() - 1 ==> line[k] != 10
                &&& i < lines_with_terminator(bytes).len() - 1 ==> line.last() == 10
            },
    decreases bytes.len(),
{
    if bytes.len() > 0 {
        let n = first_line_len(bytes);
        lemma_first_line_len_bounds(bytes);
        lemma_first_line(bytes);
        lemma_lines_end_with_line_feeds(bytes.skip(n));
        let lines = lines_with_terminator(bytes);
        let rest = lines_with_terminator(bytes.skip(n));
        assert forall|i: int| 0 <= i < lines.len() implies {
            let line = #[trigger] lines[i];
            &&& line.len() > 0
            &&& forall|k: int| 0 <= k < line.len() - 1 ==> line[k] != 10
            &&& i < lines.len() - 1 ==> line.last() == 10
        } by {
            if i > 0 {
                assert(lines[i] == rest[i - 1]);
            } else {
                assert(lines[0] == bytes.take(n));
                if lines.len() > 1 {
                    assert(rest.len() > 0);
                    assert(bytes.skip(n).len() > 0);
                }
            }
        }
    }
}

/// The first line holds no line feed before its last byte, and ends in one
/// unless it is all there is.
proof fn lemma_first_line(bytes: Seq<u8>)
    requires
        bytes.len() > 0,
    ensures
        forall|k: int| 0 <= k < first_line_len(bytes) - 1 ==> bytes[k] != 10,
        first_line_len(bytes) < bytes.len() ==> bytes[first_line_len(bytes) - 1] == 10,
    decreases bytes.len(),
{
    lemma_first_line_len_bounds(bytes);
    if bytes[0] != 10 {
        let rest = bytes.skip(1);
        if rest.len() > 0 {
            lemma_first_line(rest);
            lemma_first_line_len_bounds(rest);
            assert forall|k: int| 0 <= k < first_line_len(bytes) - 1 implies bytes[k] != 10 by {
                if k > 0 {
                    assert(rest[k - 1] == bytes[k]);
                }
            }
            if first_line_len(bytes) < bytes.len() {
                assert(rest[first_line_len(rest) - 1] == bytes[first_line_len(bytes) - 1]);
            }
        } else {
            assert(first_line_len(rest) == 0);
        }
    }
}

/// With no hunks to carry over, the file is the old one.
pub proof fn lemma_no_hunks_give_the_old_image(old_image: Seq<u8>, new_image: Seq<u8>)
    ensures
        spec_apply_hunks(old_image, new_image, Seq::empty()) == Ok::<Seq<u8>, ApplyError>(
            old_image,
        ),
{
    let old_lines = lines_with_terminator(old_image);
    assert(old_lines.subrange(0, old_lines.len() as int) =~= old_lines);
    lemma_lines_join(old_image);
}

/// A run of lines is the bytes from where its first line begins to where its
/// last line ends.
proof fn lemma_run_of_lines(starts: Seq<usize>, bytes: Seq<u8>, lo: int, hi: int)
    requires
        marks_lines(starts, bytes),
        0 <= lo <= hi <= lines_with_terminator(bytes).len(),
    ensures
        starts[lo] <= starts[hi] <= bytes.len(),
        lines_with_terminator(bytes).subrange(lo, hi).flatten() == bytes.subrange(
            starts[lo] as int,
            starts[hi] as int,
        ),
    decreases hi - lo,
{
    let lines = lines_with_terminator(bytes);
    if lo == hi {
        assert(lines.subrange(lo, hi) =~= Seq::<Seq<u8>>::empty());
        if lo < lines.len() {
            assert(starts[lo] <= starts[lo + 1] <= bytes.len());
        } else {
            assert(starts[lo] == starts.last());
        }
        assert(bytes.subrange(starts[lo] as int, starts[hi] as int) =~= Seq::<u8>::empty());
    } else {
        lemma_run_of_lines(starts, bytes, lo, hi - 1);
        assert(starts[hi - 1] <= starts[hi - 1 + 1]);
        assert(lines.subrange(lo, hi) =~= lines.subrange(lo, hi - 1).push(lines[hi - 1]));
        lines.subrange(lo, hi - 1).lemma_flatten_push(lines[hi - 1]);
        assert(bytes.subrange(starts[lo] as int, starts[hi - 1] as int) + bytes.subrange(
            starts[hi - 1] as int,
            starts[hi] as int,
        ) =~= bytes.subrange(starts[lo] as int, starts[hi] as int));
    }
}

/// Finds where the lines of `bytes` begin.
fn line_starts(bytes: &[u8]) -> (starts: Vec<usize>)
    ensures
        marks_lines(starts@, bytes@),
{
    let ghost lines = lines_with_terminator(bytes@);
    let mut starts: Vec<usize> = Vec::new();
    starts.push(0);
    let mut pos: usize = 0;
    assert(bytes@.skip(0) =~= bytes@);
    assert(lines.take(0) + lines =~= lines);
    while pos < bytes.len()
        invariant
            pos <= bytes.len(),
            lines == lines_with_terminator(bytes@),
            starts@.len() >= 1,
            starts@[0] == 0,
            starts@.last() <= pos,
            starts@.len() - 1 <= lines.len(),
            lines == lines.take(starts@.len() - 1) + lines_with_terminator(
                bytes@.skip(starts@.last() as int),
            ),
            forall|i: int|
                0 <= i < starts@.len() - 1 ==> starts@[i] <= #[trigger] starts@[i + 1]
                    <= bytes@.len(),
            forall|i: int|
                0 <= i < starts@.len() - 1 ==> #[trigger] lines[i] == bytes@.subrange(
                    starts@[i] as int,
                    starts@[i + 1] as int,
                ),
            forall|k: int| starts@.last() <= k < pos ==> bytes@[k] != 10,
        decreases bytes.len() - pos,
    {
        if bytes[pos] == 10 {
            proof {
                let from = starts@.last() as int;
                let rest = bytes@.skip(from);
                let n = pos + 1 - from;
                assert forall|k: int| 0 <= k < n - 1 implies rest[k] != 10 by {
                    assert(rest[k] == bytes@[from + k]);
                }
                assert(rest[n - 1] == bytes@[pos as int]);
                lemma_first_line_len_is(rest, n);
                assert(rest.take(n) =~= bytes@.subrange(from, pos + 1));
                assert(rest.skip(n) =~= bytes@.skip(pos + 1));
                let known = starts@.len() - 1;
                assert(lines == lines.take(known) + (seq![rest.take(n)] + lines_with_terminator(
                    rest.skip(n),
                )));
                assert(lines[known] == rest.take(n));
                assert(lines.take(known) + (seq![rest.take(n)] + lines_with_terminator(
                    rest.skip(n),
                )) =~= lines.take(known + 1) + lines_with_terminator(rest.skip(n)));
            }
            starts.push(pos + 1);
        }
        pos += 1;
    }
    let last = starts[starts.len() - 1];
    if last < bytes.len() {
        proof {
            let from = last as int;
            let rest = bytes@.skip(from);
            let n = bytes@.len() - from;
            assert forall|k: int| 0 <= k < n - 1 implies rest[k] != 10 by {
                assert(rest[k] == bytes@[from + k]);
            }
            lemma_first_line_len_is(rest, n);
            assert(rest.take(n) =~= bytes@.subrange(from, bytes@.len() as int));
            assert(rest.skip(n).len() == 0);
            let known = starts@.len() - 1;
            assert(lines == lines.take(known) + (seq![rest.take(n)] + lines_with_terminator(
                rest.skip(n),
            )));
            assert(lines[known] == rest.take(n));
            assert(lines.len() == known + 1);
        }
        starts.push(bytes.len());
    } else {
        proof {
            assert(bytes@.skip(last as int).len() == 0);
            assert(lines.len() == starts@.len() - 1);
        }
    }
    starts
}

/// The place of line `number` among `count` lines.
fn index_of_line(count: usize, number: u64) -> (r: usize)
    ensures
        r <= count,
        forall|lines: Seq<Seq<u8>>| lines.len() == count ==> r == #[trigger] line_index(lines, number as int),
{
    if number <= 1 {
        0
    } else if number - 1 >= count as u64 {
        count
    } else {
        (number - 1) as usize
    }
}

/// Appends to `out` the lines of `bytes` numbered from `from` up to, but not
/// including, `to`, as far as there are any.
fn append_lines(out: &mut Vec<u8>, bytes: &[u8], starts: &Vec<usize>, from: u64, to: u64)
    requires
        marks_lines(starts@, bytes@),
    ensures
        final(out)@ == old(out)@ + lines_between(
            lines_with_terminator(bytes@),
            from as int,
            to as int,
        ).flatten(),
{
    let ghost lines = lines_with_terminator(bytes@);
    let count = starts.len() - 1;
    let lo = index_of_line(count, from);
    let hi = index_of_line(count, to);
    assert(lo == line_index(lines, from as int));
    assert(hi == line_index(lines, to as int));
    if lo <= hi {
        proof {
            lemma_run_of_lines(starts@, bytes@, lo as int, hi as int);
        }
        let run = vstd::slice::slice_subrange(bytes, starts[lo], starts[hi]);
        append_bytes(out, run);
    } else {
        assert(out@ + Seq::<Seq<u8>>::empty().flatten() =~= out@);
    }
}

/// `front` followed by the bytes of `rest`, or the error of `rest`.
pub open spec fn behind(front: Seq<u8>, rest: Result<Seq<Seq<u8>>, ApplyError>) -> Result<
    Seq<u8>,
    ApplyError,
> {
    match rest {
        Ok(lines) => Ok(front + lines.flatten()),
        Err(e) => Err(e),
    }
}

/// Builds a file out of `old_image` and `new_image`: where a hunk says so, the
/// lines of its new range stand in place of the lines of its old range; all
/// other lines are those of `old_image`.
///
/// A line ends with its line feed; the last line of an image may lack one.
/// Lines are numbered from 1. The hunks must come in the order of the file: the
/// call fails at the first hunk that starts before the end of the hunk ahead of
/// it, in the old version or in the new one. A range that reaches past the end
/// of its image yields the lines that are there.
pub fn apply_hunks(old_image: &[u8], new_image: &[u8], hunks: &[HunkHeader]) -> (r: Result<
    Vec<u8>,
    ApplyError,
>)
    ensures
        match r {
            Ok(image) => spec_apply_hunks(old_image@, new_image@, hunks@) == Ok::<
                Seq<u8>,
                ApplyError,
            >(image@),
            Err(e) => spec_apply_hunks(old_image@, new_image@, hunks@) == Err::<
                Seq<u8>,
                ApplyError,
            >(e),
        },
{
    let ghost old_lines = lines_with_terminator(old_image@);
    let ghost new_lines = lines_with_terminator(new_image@);
    let old_starts = line_starts(old_image);
    let new_starts = line_starts(new_image);
    let mut out: Vec<u8> = Vec::new();
    let mut old_cursor: u64 = 1;
    let mut new_cursor: u64 = 1;
    let mut i: usize = 0;
    proof {
        assert(hunks@.skip(0) =~= hunks@);
        match patched_lines(old_lines, new_lines, hunks@, 1, 1) {
            Ok(lines) => {
                assert(out@ + lines.flatten() =~= lines.flatten());
            },
            Err(_) => {},
        }
    }
    while i < hunks.len()
        invariant
            i <= hunks.len(),
            old_lines == lines_with_terminator(old_image@),
            new_lines == lines_with_terminator(new_image@),
            marks_lines(old_starts@, old_image@),
            marks_lines(new_starts@, new_image@),
            old_cursor <= 2 * u32::MAX + 1,
            new_cursor <= 2 * u32::MAX + 1,
            spec_apply_hunks(old_image@, new_image@, hunks@) == behind(
                out@,
                patched_lines(
                    old_lines,
                    new_lines,
                    hunks@.skip(i as int),
                    old_cursor as int,
                    new_cursor as int,
                ),
            ),
        decreases hunks.len() - i,
    {
        let hunk = hunks[i];
        let ghost rest = hunks@.skip(i as int);
        let ghost front = out@;
        proof {
            assert(rest[0] == hunk);
            assert(rest.skip(1) =~= hunks@.skip(i + 1));
        }
        if (hunk.old_start as u64) < old_cursor {
            return Err(ApplyError::OldOutOfOrder { hunk });
        }
        if (hunk.new_start as u64) < new_cursor {
            return Err(ApplyError::NewOutOfOrder { hunk });
        }
        let new_end = hunk.new_range().end();
        append_lines(&mut out, old_image, &old_starts, old_cursor, hunk.old_start as u64);
        append_lines(&mut out, new_image, &new_starts, hunk.new_start as u64, new_end);
        proof {
            let kept = lines_between(old_lines, old_cursor as int, hunk.old_start as int);
            let brought = lines_between(new_lines, hunk.new_start as int, new_end as int);
            match patched_lines(
                old_lines,
                new_lines,
                rest.skip(1),
                hunk.spec_old_range().spec_end(),
                new_end as int,
            ) {
                Ok(tail) => {
                    lemma_flatten_concat(kept + brought, tail);
                    lemma_flatten_concat(kept, brought);
                    assert(front + ((kept.flatten() + brought.flatten()) + tail.flatten()) =~= out@
                        + tail.flatten());
                },
                Err(_) => {},
            }
        }
        old_cursor = hunk.old_range().end();
        new_cursor = new_end;
        i += 1;
    }
    append_lines(&mut out, old_image, &old_starts, old_cursor, old_starts.len() as u64);
    proof {
        assert(old_starts@.len() == old_lines.len() + 1);
    }
    Ok(out)
}

} // verus!
