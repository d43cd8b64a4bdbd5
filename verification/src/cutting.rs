//! What cutting lines out of a hunk does to the file that the hunks build.
//!
//! A cut on the old side keeps the old lines it names: they stand in the
//! file, among the new lines of the hunk. A cut on the new side leaves the new
//! lines it names out of the file. Nothing else about the file changes.

use vstd::prelude::*;
use crate::hunk::{HunkHeader, HunkRange};
use crate::patch::{line_index, lines_between, patched_lines, ApplyError};
use crate::subtract::{carve, holds, HunkSubtraction};

verus! {

/// How many new lines of `hunk` come ahead of the old lines that a cut keeps:
/// none where the cut is at the start of the old side, all where it is at
/// its end, and in between as many as old lines stand ahead of the cut, as
/// far as the hunk has new lines.
pub open spec fn new_lines_ahead(hunk: HunkHeader, cut: HunkRange) -> int {
    if hunk.old_start == cut.start {
        0
    } else if hunk.spec_old_range().spec_end() == cut.spec_end() {
        hunk.new_lines as int
    } else if cut.start - hunk.old_start <= hunk.new_lines {
        cut.start - hunk.old_start
    } else {
        hunk.new_lines as int
    }
}

/// Lines up to a number and lines from that number on are the lines
/// altogether.
pub proof fn lemma_lines_between_add(lines: Seq<Seq<u8>>, from: int, mid: int, to: int)
    requires
        from <= mid <= to,
    ensures
        lines_between(lines, from, mid) + lines_between(lines, mid, to) == lines_between(
            lines,
            from,
            to,
        ),
{
    let lo = line_index(lines, from);
    let at = line_index(lines, mid);
    let hi = line_index(lines, to);
    assert(lines.subrange(lo, at) + lines.subrange(at, hi) =~= lines.subrange(lo, hi));
}

/// Hunks that can be applied from an old line on can be applied from any
/// line before it, and then bring the old lines in between along.
pub proof fn lemma_earlier_old_cursor(
    old_lines: Seq<Seq<u8>>,
    new_lines: Seq<Seq<u8>>,
    hunks: Seq<HunkHeader>,
    earlier: int,
    old_cursor: int,
    new_cursor: int,
)
    requires
        earlier <= old_cursor,
        patched_lines(old_lines, new_lines, hunks, old_cursor, new_cursor) is Ok,
    ensures
        patched_lines(old_lines, new_lines, hunks, earlier, new_cursor) == Ok::<
            Seq<Seq<u8>>,
            ApplyError,
        >(
            lines_between(old_lines, earlier, old_cursor) + patched_lines(
                old_lines,
                new_lines,
                hunks,
                old_cursor,
                new_cursor,
            )->Ok_0,
        ),
{
    if hunks.len() == 0 {
        let end = old_lines.len() as int + 1;
        if old_cursor <= end {
            lemma_lines_between_add(old_lines, earlier, old_cursor, end);
        } else {
            assert(lines_between(old_lines, old_cursor, end) =~= Seq::<Seq<u8>>::empty());
            assert(lines_between(old_lines, earlier, old_cursor) =~= lines_between(
                old_lines,
                earlier,
                end,
            ));
            assert(lines_between(old_lines, earlier, old_cursor) + Seq::<Seq<u8>>::empty()
                =~= lines_between(old_lines, earlier, old_cursor));
        }
    } else {
        let hunk = hunks[0];
        lemma_lines_between_add(old_lines, earlier, old_cursor, hunk.old_start as int);
        let brought = lines_between(
            new_lines,
            hunk.new_start as int,
            hunk.spec_new_range().spec_end(),
        );
        let rest = patched_lines(
            old_lines,
            new_lines,
            hunks.skip(1),
            hunk.spec_old_range().spec_end(),
            hunk.spec_new_range().spec_end(),
        )->Ok_0;
        assert((lines_between(old_lines, earlier, old_cursor) + lines_between(
            old_lines,
            old_cursor,
            hunk.old_start as int,
        )) + brought + rest =~= lines_between(old_lines, earlier, old_cursor) + (lines_between(
            old_lines,
            old_cursor,
            hunk.old_start as int,
        ) + brought + rest));
    }
}

/// Hunks that can be applied with new lines up to some number behind us can
/// be applied with fewer behind us, to the same end.
pub proof fn lemma_earlier_new_cursor(
    old_lines: Seq<Seq<u8>>,
    new_lines: Seq<Seq<u8>>,
    hunks: Seq<HunkHeader>,
    old_cursor: int,
    earlier: int,
    new_cursor: int,
)
    requires
        earlier <= new_cursor,
        patched_lines(old_lines, new_lines, hunks, old_cursor, new_cursor) is Ok,
    ensures
        patched_lines(old_lines, new_lines, hunks, old_cursor, earlier) == patched_lines(
            old_lines,
            new_lines,
            hunks,
            old_cursor,
            new_cursor,
        ),
{
}

/// What a hunk and the hunks behind it build: the old lines up to the hunk,
/// the new lines of the hunk, and what the hunks behind it build.
pub proof fn lemma_patched_by_hunk(
    old_lines: Seq<Seq<u8>>,
    new_lines: Seq<Seq<u8>>,
    hunk: HunkHeader,
    rest: Seq<HunkHeader>,
    old_cursor: int,
    new_cursor: int,
)
    requires
        old_cursor <= hunk.old_start,
        new_cursor <= hunk.new_start,
    ensures
        patched_lines(old_lines, new_lines, seq![hunk] + rest, old_cursor, new_cursor)
            == match patched_lines(
            old_lines,
            new_lines,
            rest,
            hunk.spec_old_range().spec_end(),
            hunk.spec_new_range().spec_end(),
        ) {
            Ok(tail) => Ok(
                lines_between(old_lines, old_cursor, hunk.old_start as int) + lines_between(
                    new_lines,
                    hunk.new_start as int,
                    hunk.spec_new_range().spec_end(),
                ) + tail,
            ),
            Err(e) => Err(e),
        },
{
    let hunks = seq![hunk] + rest;
    assert(hunks[0] == hunk);
    assert(hunks.skip(1) =~= rest);
}

/// Cutting old lines out of a hunk keeps these lines in the file.
///
/// Where the hunk and the hunks behind it can be applied, so can what the cut
/// leaves of the hunk. The file is then the same up to the hunk and behind
/// it; in place of the hunk stand all its new lines, as before, and among
/// them the old lines that were cut out.
pub proof fn lemma_cutting_old_lines_keeps_them(
    old_lines: Seq<Seq<u8>>,
    new_lines: Seq<Seq<u8>>,
    hunk: HunkHeader,
    cut: HunkRange,
    rest: Seq<HunkHeader>,
    old_cursor: int,
    new_cursor: int,
)
    requires
        hunk.spec_representable(),
        holds(hunk, HunkSubtraction::Old(cut)),
        patched_lines(old_lines, new_lines, seq![hunk] + rest, old_cursor, new_cursor) is Ok,
    ensures
        ({
            let ahead = hunk.new_start + new_lines_ahead(hunk, cut);
            let before = lines_between(old_lines, old_cursor, hunk.old_start as int);
            let first = lines_between(new_lines, hunk.new_start as int, ahead);
            let kept = lines_between(old_lines, cut.start as int, cut.spec_end());
            let second = lines_between(new_lines, ahead, hunk.spec_new_range().spec_end());
            let tail = patched_lines(
                old_lines,
                new_lines,
                rest,
                hunk.spec_old_range().spec_end(),
                hunk.spec_new_range().spec_end(),
            )->Ok_0;
            &&& patched_lines(old_lines, new_lines, seq![hunk] + rest, old_cursor, new_cursor)
                == Ok::<Seq<Seq<u8>>, ApplyError>(before + first + second + tail)
            &&& patched_lines(
                old_lines,
                new_lines,
                carve(hunk, HunkSubtraction::Old(cut)) + rest,
                old_cursor,
                new_cursor,
            ) == Ok::<Seq<Seq<u8>>, ApplyError>(before + first + kept + second + tail)
        }),
{
    let sub = HunkSubtraction::Old(cut);
    let old_end = hunk.spec_old_range().spec_end();
    let new_end = hunk.spec_new_range().spec_end();
    let whole = seq![hunk] + rest;
    assert(whole[0] == hunk);
    assert(whole.skip(1) =~= rest);
    let tail_result = patched_lines(old_lines, new_lines, rest, old_end, new_end);
    let tail = tail_result->Ok_0;
    let ahead = hunk.new_start + new_lines_ahead(hunk, cut);
    let before = lines_between(old_lines, old_cursor, hunk.old_start as int);
    let first = lines_between(new_lines, hunk.new_start as int, ahead);
    let kept = lines_between(old_lines, cut.start as int, cut.spec_end());
    let second = lines_between(new_lines, ahead, new_end);
    let brought = lines_between(new_lines, hunk.new_start as int, new_end);
    lemma_lines_between_add(new_lines, hunk.new_start as int, ahead, new_end);
    assert(before + brought + tail =~= before + first + second + tail);

    let pieces = carve(hunk, sub);
    if hunk.old_start == cut.start {
        let piece = pieces[0];
        assert(pieces + rest =~= seq![piece] + rest);
        lemma_patched_by_hunk(old_lines, new_lines, piece, rest, old_cursor, new_cursor);
        lemma_lines_between_add(old_lines, old_cursor, cut.start as int, cut.spec_end());
        assert(first =~= Seq::<Seq<u8>>::empty());
        assert((before + kept) + brought + tail =~= before + first + kept + second + tail);
    } else if old_end == cut.spec_end() {
        let piece = pieces[0];
        assert(pieces + rest =~= seq![piece] + rest);
        lemma_earlier_old_cursor(old_lines, new_lines, rest, cut.start as int, old_end, new_end);
        lemma_patched_by_hunk(old_lines, new_lines, piece, rest, old_cursor, new_cursor);
        assert(second =~= Seq::<Seq<u8>>::empty());
        assert(before + brought + (kept + tail) =~= before + first + kept + second + tail);
    } else {
        let head = pieces[0];
        let last = pieces[1];
        assert(pieces + rest =~= seq![head] + (seq![last] + rest));
        lemma_patched_by_hunk(old_lines, new_lines, last, rest, cut.start as int, ahead);
        lemma_patched_by_hunk(
            old_lines,
            new_lines,
            head,
            seq![last] + rest,
            old_cursor,
            new_cursor,
        );
        assert(before + first + (kept + second + tail) =~= before + first + kept + second + tail);
    }
}

/// Cutting new lines out of a hunk leaves these lines out of the file.
///
/// Where the hunk and the hunks behind it can be applied, so can what the cut
/// leaves of the hunk. The file is then the same up to the hunk and behind
/// it; in place of the hunk stand its new lines but for those that were cut
/// out, and no old line of the hunk.
pub proof fn lemma_cutting_new_lines_drops_them(
    old_lines: Seq<Seq<u8>>,
    new_lines: Seq<Seq<u8>>,
    hunk: HunkHeader,
    cut: HunkRange,
    rest: Seq<HunkHeader>,
    old_cursor: int,
    new_cursor: int,
)
    requires
        hunk.spec_representable(),
        holds(hunk, HunkSubtraction::New(cut)),
        patched_lines(old_lines, new_lines, seq![hunk] + rest, old_cursor, new_cursor) is Ok,
    ensures
        ({
            let before = lines_between(old_lines, old_cursor, hunk.old_start as int);
            let first = lines_between(new_lines, hunk.new_start as int, cut.start as int);
            let dropped = lines_between(new_lines, cut.start as int, cut.spec_end());
            let second = lines_between(
                new_lines,
                cut.spec_end(),
                hunk.spec_new_range().spec_end(),
            );
            let tail = patched_lines(
                old_lines,
                new_lines,
                rest,
                hunk.spec_old_range().spec_end(),
                hunk.spec_new_range().spec_end(),
            )->Ok_0;
            &&& patched_lines(old_lines, new_lines, seq![hunk] + rest, old_cursor, new_cursor)
                == Ok::<Seq<Seq<u8>>, ApplyError>(before + first + dropped + second + tail)
            &&& patched_lines(
                old_lines,
                new_lines,
                carve(hunk, HunkSubtraction::New(cut)) + rest,
                old_cursor,
                new_cursor,
            ) == Ok::<Seq<Seq<u8>>, ApplyError>(before + first + second + tail)
        }),
{
    let sub = HunkSubtraction::New(cut);
    let old_end = hunk.spec_old_range().spec_end();
    let new_end = hunk.spec_new_range().spec_end();
    let whole = seq![hunk] + rest;
    assert(whole[0] == hunk);
    assert(whole.skip(1) =~= rest);
    let tail = patched_lines(old_lines, new_lines, rest, old_end, new_end)->Ok_0;
    let before = lines_between(old_lines, old_cursor, hunk.old_start as int);
    let first = lines_between(new_lines, hunk.new_start as int, cut.start as int);
    let dropped = lines_between(new_lines, cut.start as int, cut.spec_end());
    let second = lines_between(new_lines, cut.spec_end(), new_end);
    let brought = lines_between(new_lines, hunk.new_start as int, new_end);
    lemma_lines_between_add(new_lines, hunk.new_start as int, cut.start as int, cut.spec_end());
    lemma_lines_between_add(new_lines, hunk.new_start as int, cut.spec_end(), new_end);
    assert(before + brought + tail =~= before + first + dropped + second + tail);

    let pieces = carve(hunk, sub);
    if hunk.new_start == cut.start {
        let piece = pieces[0];
        assert(pieces + rest =~= seq![piece] + rest);
        lemma_patched_by_hunk(old_lines, new_lines, piece, rest, old_cursor, new_cursor);
        assert(first =~= Seq::<Seq<u8>>::empty());
        assert(before + second + tail =~= before + first + second + tail);
    } else if new_end == cut.spec_end() {
        let piece = pieces[0];
        assert(pieces + rest =~= seq![piece] + rest);
        lemma_earlier_new_cursor(old_lines, new_lines, rest, old_end, cut.start as int, new_end);
        lemma_patched_by_hunk(old_lines, new_lines, piece, rest, old_cursor, new_cursor);
        assert(second =~= Seq::<Seq<u8>>::empty());
        assert(before + first + tail =~= before + first + second + tail);
    } else {
        let head = pieces[0];
        let last = pieces[1];
        let split = last.old_start as int;
        assert(pieces + rest =~= seq![head] + (seq![last] + rest));
        lemma_patched_by_hunk(old_lines, new_lines, last, rest, split, cut.start as int);
        lemma_patched_by_hunk(
            old_lines,
            new_lines,
            head,
            seq![last] + rest,
            old_cursor,
            new_cursor,
        );
        assert(lines_between(old_lines, split, split) =~= Seq::<Seq<u8>>::empty());
        assert(before + first + (Seq::<Seq<u8>>::empty() + second + tail) =~= before + first
            + second + tail);
    }
}

} // verus!
