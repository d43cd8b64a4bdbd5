//! Cutting line ranges out of a hunk.
//!
//! A hunk pairs a range of old lines with the range of new lines that replaces
//! it. Cutting a range out of one side leaves the lines of that range alone:
//! cut from the old side, they are no longer replaced; cut from the new side,
//! they are no longer brought in. What is left of the hunk is one piece or two.

use vstd::prelude::*;
use crate::hunk::{HunkHeader, HunkRange};

verus! {

/// A range to cut out of one side of a hunk.
#[derive(Clone, Copy, Debug, PartialEq, Eq, Structural)]
pub enum HunkSubtraction {
    /// Cut the range out of the old lines.
    Old(HunkRange),
    /// Cut the range out of the new lines.
    New(HunkRange),
}

/// Why a range could not be cut out of a hunk.
#[derive(Clone, Copy, Debug, PartialEq, Eq, Structural)]
pub enum SubtractError {
    /// The hunk ends past the last line number that can be written down.
    RangeOverflow { hunk: HunkHeader },
    /// The range lies within no piece that is left of the hunk.
    NotContained { hunk: HunkHeader, subtraction: HunkSubtraction },
}

impl HunkSubtraction {
    /// The range to cut out.
    pub open spec fn spec_range(self) -> HunkRange {
        match self {
            HunkSubtraction::Old(range) => range,
            HunkSubtraction::New(range) => range,
        }
    }

    /// The range to cut out.
    pub fn range(&self) -> (r: HunkRange)
        ensures
            r == self.spec_range(),
    {
        match self {
            HunkSubtraction::Old(range) => *range,
            HunkSubtraction::New(range) => *range,
        }
    }
}

/// The side of `hunk` that `sub` cuts into.
pub open spec fn edit_range(hunk: HunkHeader, sub: HunkSubtraction) -> HunkRange {
    match sub {
        HunkSubtraction::Old(_) => hunk.spec_old_range(),
        HunkSubtraction::New(_) => hunk.spec_new_range(),
    }
}

/// The side of `hunk` that `sub` leaves whole.
pub open spec fn keep_range(hunk: HunkHeader, sub: HunkSubtraction) -> HunkRange {
    match sub {
        HunkSubtraction::Old(_) => hunk.spec_new_range(),
        HunkSubtraction::New(_) => hunk.spec_old_range(),
    }
}

/// The hunk whose cut side is `edit` and whose other side is `keep`.
pub open spec fn rebuilt(sub: HunkSubtraction, edit: HunkRange, keep: HunkRange) -> HunkHeader {
    match sub {
        HunkSubtraction::Old(_) => HunkHeader {
            old_start: edit.start,
            old_lines: edit.lines,
            new_start: keep.start,
            new_lines: keep.lines,
        },
        HunkSubtraction::New(_) => HunkHeader {
            old_start: keep.start,
            old_lines: keep.lines,
            new_start: edit.start,
            new_lines: edit.lines,
        },
    }
}

/// `sub` can be cut out of `hunk`: its range lies within the side it names.
pub open spec fn holds(hunk: HunkHeader, sub: HunkSubtraction) -> bool {
    edit_range(hunk, sub).spec_contains(sub.spec_range())
}

/// What is left of `hunk` once `sub` is cut out of it.
///
/// A cut at the start or at the end of the side shortens that side and leaves
/// the other side whole. A cut in the middle splits the hunk in two: the first
/// piece takes as many lines of the other side as it has on the cut side, as
/// far as there are any, and the second piece takes the rest.
pub open spec fn carve(hunk: HunkHeader, sub: HunkSubtraction) -> Seq<HunkHeader> {
    let edit = edit_range(hunk, sub);
    let keep = keep_range(hunk, sub);
    let cut = sub.spec_range();
    if edit.start == cut.start {
        seq![
            rebuilt(
                sub,
                HunkRange {
                    start: (edit.start + cut.lines) as u32,
                    lines: (edit.lines - cut.lines) as u32,
                },
                keep,
            ),
        ]
    } else if edit.spec_end() == cut.spec_end() {
        seq![
            rebuilt(
                sub,
                HunkRange { start: edit.start, lines: (edit.lines - cut.lines) as u32 },
                keep,
            ),
        ]
    } else {
        let head_lines = cut.start - edit.start;
        let head_keep_lines = if head_lines <= keep.lines {
            head_lines
        } else {
            keep.lines as int
        };
        seq![
            rebuilt(
                sub,
                HunkRange { start: edit.start, lines: head_lines as u32 },
                HunkRange { start: keep.start, lines: head_keep_lines as u32 },
            ),
            rebuilt(
                sub,
                HunkRange {
                    start: cut.spec_end() as u32,
                    lines: (edit.spec_end() - cut.spec_end()) as u32,
                },
                HunkRange {
                    start: (keep.start + head_keep_lines) as u32,
                    lines: (keep.lines - head_keep_lines) as u32,
                },
            ),
        ]
    }
}

/// `pieces` with `sub` cut out of the first piece that holds it; `None` where
/// no piece holds it.
pub open spec fn subtract_one(pieces: Seq<HunkHeader>, sub: HunkSubtraction) -> Option<
    Seq<HunkHeader>,
>
    decreases pieces.len(),
{
    if pieces.len() == 0 {
        None
    } else if holds(pieces[0], sub) {
        Some(carve(pieces[0], sub) + pieces.skip(1))
    } else {
        match subtract_one(pieces.skip(1), sub) {
            None => None,
            Some(rest) => Some(seq![pieces[0]] + rest),
        }
    }
}

/// `pieces` with each of `subs` cut out in turn. The error names the first
/// range that no piece held, and `hunk`, which the pieces came from.
pub open spec fn subtract_each(
    hunk: HunkHeader,
    pieces: Seq<HunkHeader>,
    subs: Seq<HunkSubtraction>,
) -> Result<Seq<HunkHeader>, SubtractError>
    decreases subs.len(),
{
    if subs.len() == 0 {
        Ok(pieces)
    } else {
        match subtract_one(pieces, subs[0]) {
            None => Err(SubtractError::NotContained { hunk, subtraction: subs[0] }),
            Some(next) => subtract_each(hunk, next, subs.skip(1)),
        }
    }
}

/// `sorted` with `sub` put behind the last entry whose range does not come
/// after its own.
pub open spec fn insert_by_range(sorted: Seq<HunkSubtraction>, sub: HunkSubtraction) -> Seq<
    HunkSubtraction,
>
    decreases sorted.len(),
{
    if sorted.len() == 0 {
        seq![sub]
    } else if sorted.last().spec_range().spec_precedes(sub.spec_range()) {
        sorted.push(sub)
    } else {
        insert_by_range(sorted.drop_last(), sub).push(sorted.last())
    }
}

/// `subs` in the order of their ranges; entries with equal ranges keep the
/// order they came in.
pub open spec fn in_range_order(subs: Seq<HunkSubtraction>) -> Seq<HunkSubtraction>
    decreases subs.len(),
{
    if subs.len() == 0 {
        subs
    } else {
        insert_by_range(in_range_order(subs.drop_last()), subs.last())
    }
}

/// What is left of `hunk` once all of `subs` are cut out of it, in the order
/// of their ranges.
pub open spec fn spec_subtract_hunks(hunk: HunkHeader, subs: Seq<HunkSubtraction>) -> Result<
    Seq<HunkHeader>,
    SubtractError,
> {
    if subs.len() == 0 {
        Ok(seq![hunk])
    } else if !hunk.spec_representable() {
        Err(SubtractError::RangeOverflow { hunk })
    } else {
        subtract_each(hunk, seq![hunk], in_range_order(subs))
    }
}

/// Every piece ends where a `u32` can still hold the line number.
pub open spec fn all_representable(pieces: Seq<HunkHeader>) -> bool {
    forall|i: int| 0 <= i < pieces.len() ==> (#[trigger] pieces[i]).spec_representable()
}

/// The ranges of `subs` stand in order: none comes behind one that it
/// precedes.
pub open spec fn ranges_ascend(subs: Seq<HunkSubtraction>) -> bool {
    forall|i: int, j: int|
        0 <= i < j < subs.len() ==> (#[trigger] subs[i]).spec_range().spec_precedes(
            (#[trigger] subs[j]).spec_range(),
        )
}

/// Putting an entry into ordered entries keeps them ordered, and adds just
/// that entry.
pub proof fn lemma_insert_by_range(sorted: Seq<HunkSubtraction>, sub: HunkSubtraction)
    requires
        ranges_ascend(sorted),
    ensures
        ranges_ascend(insert_by_range(sorted, sub)),
        insert_by_range(sorted, sub).to_multiset() == sorted.to_multiset().insert(sub),
        insert_by_range(sorted, sub).len() == sorted.len() + 1,
        forall|x: HunkSubtraction|
            #[trigger] insert_by_range(sorted, sub).contains(x) ==> x == sub || sorted.contains(x),
    decreases sorted.len(),
{
    broadcast use vstd::seq_lib::group_to_multiset_ensures;

    let out = insert_by_range(sorted, sub);
    if sorted.len() == 0 {
        assert(out =~= Seq::<HunkSubtraction>::empty().push(sub));
        assert(sorted =~= Seq::<HunkSubtraction>::empty());
        assert forall|x: HunkSubtraction| out.contains(x) implies x == sub || sorted.contains(
            x,
        ) by {
            let i = choose|i: int| 0 <= i < out.len() && out[i] == x;
            assert(out[i] == sub);
        }
    } else if sorted.last().spec_range().spec_precedes(sub.spec_range()) {
        assert forall|i: int, j: int| 0 <= i < j < out.len() implies (
        #[trigger] out[i]).spec_range().spec_precedes((#[trigger] out[j]).spec_range()) by {
            if j == out.len() - 1 {
                if i < sorted.len() - 1 {
                    assert(sorted[i].spec_range().spec_precedes(sorted.last().spec_range()));
                }
            } else {
                assert(sorted[i].spec_range().spec_precedes(sorted[j].spec_range()));
            }
        }
        assert forall|x: HunkSubtraction| out.contains(x) implies x == sub || sorted.contains(
            x,
        ) by {
            let i = choose|i: int| 0 <= i < out.len() && out[i] == x;
            if i < sorted.len() {
                assert(sorted[i] == x);
            }
        }
    } else {
        let front = sorted.drop_last();
        let last = sorted.last();
        assert forall|i: int, j: int| 0 <= i < j < front.len() implies (
        #[trigger] front[i]).spec_range().spec_precedes((#[trigger] front[j]).spec_range()) by {
            assert(sorted[i].spec_range().spec_precedes(sorted[j].spec_range()));
        }
        lemma_insert_by_range(front, sub);
        let inner = insert_by_range(front, sub);
        assert(out == inner.push(last));
        assert forall|i: int, j: int| 0 <= i < j < out.len() implies (
        #[trigger] out[i]).spec_range().spec_precedes((#[trigger] out[j]).spec_range()) by {
            if j == out.len() - 1 {
                assert(inner.contains(inner[i]));
                if inner[i] != sub {
                    let k = choose|k: int| 0 <= k < front.len() && front[k] == inner[i];
                    assert(sorted[k].spec_range().spec_precedes(
                        sorted[sorted.len() - 1].spec_range(),
                    ));
                }
            } else {
                assert(inner[i].spec_range().spec_precedes(inner[j].spec_range()));
            }
        }
        assert(sorted =~= front.push(last));
        assert(out.to_multiset() =~= sorted.to_multiset().insert(sub));
        assert forall|x: HunkSubtraction| out.contains(x) implies x == sub || sorted.contains(
            x,
        ) by {
            let i = choose|i: int| 0 <= i < out.len() && out[i] == x;
            if i < inner.len() {
                assert(inner[i] == x);
                assert(inner.contains(x));
                if x != sub {
                    let k = choose|k: int| 0 <= k < front.len() && front[k] == x;
                    assert(sorted[k] == x);
                }
            } else {
                assert(sorted[sorted.len() - 1] == x);
            }
        }
    }
}

/// `in_range_order` orders: the entries come out ascending by range, and they
/// are the entries that went in, each as often as it went in.
pub proof fn lemma_in_range_order(subs: Seq<HunkSubtraction>)
    ensures
        ranges_ascend(in_range_order(subs)),
        in_range_order(subs).to_multiset() == subs.to_multiset(),
        in_range_order(subs).len() == subs.len(),
    decreases subs.len(),
{
    broadcast use vstd::seq_lib::group_to_multiset_ensures;

    if subs.len() == 0 {
    } else {
        lemma_in_range_order(subs.drop_last());
        lemma_insert_by_range(in_range_order(subs.drop_last()), subs.last());
        assert(subs =~= subs.drop_last().push(subs.last()));
    }
}

/// What a cut leaves of a hunk, in numbers.
///
/// On the side that is cut, the pieces lie within the hunk, stand in order,
/// hold no line of the cut, and together hold as many lines as the hunk has
/// away from the cut. On the other side the pieces follow one another from
/// the start of the hunk to its end, so that no line of it is lost or
/// counted twice.
pub proof fn lemma_carve(hunk: HunkHeader, sub: HunkSubtraction)
    requires
        hunk.spec_representable(),
        holds(hunk, sub),
    ensures
        ({
            let pieces = carve(hunk, sub);
            let edit = edit_range(hunk, sub);
            let keep = keep_range(hunk, sub);
            let cut = sub.spec_range();
            let first = pieces[0];
            let last = pieces[pieces.len() - 1];
            &&& 1 <= pieces.len() <= 2
            &&& forall|i: int|
                0 <= i < pieces.len() ==> {
                    let piece = edit_range(#[trigger] pieces[i], sub);
                    &&& edit.spec_contains(piece)
                    &&& piece.spec_end() <= cut.start || cut.spec_end() <= piece.start
                }
            &&& edit_range(first, sub).lines + (if pieces.len() == 2 {
                edit_range(last, sub).lines as int
            } else {
                0
            }) == edit.lines - cut.lines
            &&& pieces.len() == 2 ==> edit_range(first, sub).spec_end() <= edit_range(
                last,
                sub,
            ).start
            &&& keep_range(first, sub).start == keep.start
            &&& keep_range(last, sub).spec_end() == keep.spec_end()
            &&& pieces.len() == 2 ==> keep_range(last, sub).start == keep_range(
                first,
                sub,
            ).spec_end()
        }),
{
}

/// An entry is put at `at` where all entries from `at` on come after it and
/// the entry ahead of `at` does not.
proof fn lemma_insert_position(sorted: Seq<HunkSubtraction>, sub: HunkSubtraction, at: int)
    requires
        0 <= at <= sorted.len(),
        forall|k: int|
            at <= k < sorted.len() ==> !(#[trigger] sorted[k]).spec_range().spec_precedes(
                sub.spec_range(),
            ),
        at > 0 ==> sorted[at - 1].spec_range().spec_precedes(sub.spec_range()),
    ensures
        insert_by_range(sorted, sub) == sorted.insert(at, sub),
    decreases sorted.len(),
{
    if sorted.len() == 0 {
        assert(seq![sub] =~= sorted.insert(at, sub));
    } else if at == sorted.len() {
        assert(sorted.push(sub) =~= sorted.insert(at, sub));
    } else {
        lemma_insert_position(sorted.drop_last(), sub, at);
        assert(sorted.drop_last().insert(at, sub).push(sorted.last()) =~= sorted.insert(
            at,
            sub,
        ));
    }
}

/// Where the piece at `at` is the first to hold `sub`, it is the one that is
/// cut, and the pieces around it stay.
proof fn lemma_subtract_one_at(pieces: Seq<HunkHeader>, sub: HunkSubtraction, at: int)
    requires
        0 <= at < pieces.len(),
        holds(pieces[at], sub),
        forall|k: int| 0 <= k < at ==> !holds(#[trigger] pieces[k], sub),
    ensures
        subtract_one(pieces, sub) == Some(
            pieces.take(at) + carve(pieces[at], sub) + pieces.skip(at + 1),
        ),
    decreases at,
{
    if at == 0 {
        assert(pieces.take(0) + carve(pieces[0], sub) + pieces.skip(1) =~= carve(pieces[0], sub)
            + pieces.skip(1));
    } else {
        let tail = pieces.skip(1);
        assert(tail[at - 1] == pieces[at]);
        assert forall|k: int| 0 <= k < at - 1 implies !holds(#[trigger] tail[k], sub) by {
            assert(tail[k] == pieces[k + 1]);
        }
        lemma_subtract_one_at(tail, sub, at - 1);
        assert(seq![pieces[0]] + (tail.take(at - 1) + carve(tail[at - 1], sub) + tail.skip(at))
            =~= pieces.take(at) + carve(pieces[at], sub) + pieces.skip(at + 1));
    }
}

/// Where no piece holds `sub`, nothing can be cut.
proof fn lemma_subtract_one_none(pieces: Seq<HunkHeader>, sub: HunkSubtraction)
    requires
        forall|k: int| 0 <= k < pieces.len() ==> !holds(#[trigger] pieces[k], sub),
    ensures
        subtract_one(pieces, sub) is None,
    decreases pieces.len(),
{
    if pieces.len() > 0 {
        let tail = pieces.skip(1);
        assert forall|k: int| 0 <= k < tail.len() implies !holds(#[trigger] tail[k], sub) by {
            assert(tail[k] == pieces[k + 1]);
        }
        lemma_subtract_one_none(tail, sub);
    }
}

/// The pieces of a hunk end no later than the hunk.
proof fn lemma_carve_representable(hunk: HunkHeader, sub: HunkSubtraction)
    requires
        hunk.spec_representable(),
        holds(hunk, sub),
    ensures
        all_representable(carve(hunk, sub)),
        1 <= carve(hunk, sub).len() <= 2,
{
}

/// Puts `subs` in the order of their ranges.
fn sort_by_range(subs: &Vec<HunkSubtraction>) -> (r: Vec<HunkSubtraction>)
    ensures
        r@ == in_range_order(subs@),
{
    let mut out: Vec<HunkSubtraction> = Vec::new();
    let mut i: usize = 0;
    while i < subs.len()
        invariant
            i <= subs.len(),
            out@ == in_range_order(subs@.take(i as int)),
            out@.len() == i,
        decreases subs.len() - i,
    {
        let sub = subs[i];
        let mut at: usize = out.len();
        while at > 0 && !out[at - 1].range().precedes(&sub.range())
            invariant
                at <= out.len(),
                forall|k: int|
                    at <= k < out@.len() ==> !(#[trigger] out@[k]).spec_range().spec_precedes(
                        sub.spec_range(),
                    ),
            decreases at,
        {
            at -= 1;
        }
        proof {
            lemma_insert_position(out@, sub, at as int);
            assert(subs@.take(i + 1).drop_last() =~= subs@.take(i as int));
            assert(subs@.take(i + 1).last() == sub);
        }
        out.insert(at, sub);
        i += 1;
    }
    assert(subs@.take(subs@.len() as int) =~= subs@);
    out
}

/// Rebuilds a hunk from the side that was cut and the side that was kept.
fn rebuild(sub: HunkSubtraction, edit: HunkRange, keep: HunkRange) -> (r: HunkHeader)
    ensures
        r == rebuilt(sub, edit, keep),
{
    match sub {
        HunkSubtraction::Old(_) => HunkHeader {
            old_start: edit.start,
            old_lines: edit.lines,
            new_start: keep.start,
            new_lines: keep.lines,
        },
        HunkSubtraction::New(_) => HunkHeader {
            old_start: keep.start,
            old_lines: keep.lines,
            new_start: edit.start,
            new_lines: edit.lines,
        },
    }
}

/// Cuts `sub` out of the piece at `at`, which holds it.
fn carve_at(pieces: &mut Vec<HunkHeader>, at: usize, sub: HunkSubtraction)
    requires
        at < old(pieces)@.len(),
        holds(old(pieces)@[at as int], sub),
        old(pieces)@[at as int].spec_representable(),
    ensures
        final(pieces)@ == old(pieces)@.take(at as int) + carve(old(pieces)@[at as int], sub) + old(
            pieces,
        )@.skip(at + 1),
{
    let hunk = pieces[at];
    let (edit, keep) = match sub {
        HunkSubtraction::Old(_) => (hunk.old_range(), hunk.new_range()),
        HunkSubtraction::New(_) => (hunk.new_range(), hunk.old_range()),
    };
    let cut = sub.range();
    if edit.start == cut.start {
        let piece = rebuild(
            sub,
            HunkRange { start: edit.start + cut.lines, lines: edit.lines - cut.lines },
            keep,
        );
        pieces.set(at, piece);
        assert(pieces@ =~= old(pieces)@.take(at as int) + carve(hunk, sub) + old(pieces)@.skip(
            at + 1,
        ));
    } else if edit.end() == cut.end() {
        let piece = rebuild(
            sub,
            HunkRange { start: edit.start, lines: edit.lines - cut.lines },
            keep,
        );
        pieces.set(at, piece);
        assert(pieces@ =~= old(pieces)@.take(at as int) + carve(hunk, sub) + old(pieces)@.skip(
            at + 1,
        ));
    } else {
        let head_lines: u32 = cut.start - edit.start;
        let head_keep_lines: u32 = if head_lines <= keep.lines {
            head_lines
        } else {
            keep.lines
        };
        let head = rebuild(
            sub,
            HunkRange { start: edit.start, lines: head_lines },
            HunkRange { start: keep.start, lines: head_keep_lines },
        );
        let tail = rebuild(
            sub,
            HunkRange {
                start: cut.start + cut.lines,
                lines: edit.lines - head_lines - cut.lines,
            },
            HunkRange {
                start: keep.start + head_keep_lines,
                lines: keep.lines - head_keep_lines,
            },
        );
        pieces.set(at, head);
        assert(at < pieces.len());
        pieces.insert(at + 1, tail);
        assert(pieces@ =~= old(pieces)@.take(at as int) + carve(hunk, sub) + old(pieces)@.skip(
            at + 1,
        ));
    }
}

/// Cuts `subtractions` out of `hunk` and returns the pieces that are left, in
/// the order of their lines.
///
/// The ranges are cut in the order of their first line, then of their length;
/// those with equal ranges in the order given. Each is cut out of the first
/// piece whose side holds it whole. The call fails where a range lies within
/// no piece, and where there is something to cut but `hunk` itself ends past
/// the last line number that a `u32` holds. With nothing to cut, the hunk
/// comes back as it is.
pub fn subtract_hunks(hunk: HunkHeader, subtractions: Vec<HunkSubtraction>) -> (r: Result<
    Vec<HunkHeader>,
    SubtractError,
>)
    ensures
        match r {
            Ok(pieces) => spec_subtract_hunks(hunk, subtractions@) == Ok::<
                Seq<HunkHeader>,
                SubtractError,
            >(pieces@),
            Err(e) => spec_subtract_hunks(hunk, subtractions@) == Err::<
                Seq<HunkHeader>,
                SubtractError,
            >(e),
        },
{
    let mut pieces: Vec<HunkHeader> = Vec::new();
    pieces.push(hunk);
    assert(pieces@ =~= seq![hunk]);
    if subtractions.len() == 0 {
        return Ok(pieces);
    }
    if !hunk.representable() {
        return Err(SubtractError::RangeOverflow { hunk });
    }
    let sorted = sort_by_range(&subtractions);
    assert(sorted@.skip(0) =~= sorted@);
    let mut i: usize = 0;
    while i < sorted.len()
        invariant
            i <= sorted.len(),
            hunk.spec_representable(),
            subtractions@.len() > 0,
            sorted@ == in_range_order(subtractions@),
            all_representable(pieces@),
            subtract_each(hunk, seq![hunk], sorted@) == subtract_each(
                hunk,
                pieces@,
                sorted@.skip(i as int),
            ),
        decreases sorted.len() - i,
    {
        let sub = sorted[i];
        let ghost before = pieces@;
        let mut at: usize = 0;
        while at < pieces.len() && !holds_exec(pieces[at], sub)
            invariant
                at <= pieces.len(),
                forall|k: int| 0 <= k < at ==> !holds(#[trigger] pieces@[k], sub),
            decreases pieces.len() - at,
        {
            at += 1;
        }
        proof {
            assert(sorted@.skip(i as int)[0] == sub);
            assert(sorted@.skip(i as int).skip(1) =~= sorted@.skip(i + 1));
        }
        if at == pieces.len() {
            proof {
                lemma_subtract_one_none(pieces@, sub);
                assert(subtract_each(hunk, pieces@, sorted@.skip(i as int)) == Err::<
                    Seq<HunkHeader>,
                    SubtractError,
                >(SubtractError::NotContained { hunk, subtraction: sub }));
            }
            return Err(SubtractError::NotContained { hunk, subtraction: sub });
        }
        proof {
            lemma_subtract_one_at(pieces@, sub, at as int);
            lemma_carve_representable(pieces@[at as int], sub);
        }
        carve_at(&mut pieces, at, sub);
        i += 1;
    }
    Ok(pieces)
}

/// Whether `sub` can be cut out of `hunk`.
fn holds_exec(hunk: HunkHeader, sub: HunkSubtraction) -> (r: bool)
    ensures
        r == holds(hunk, sub),
{
    match sub {
        HunkSubtraction::Old(range) => hunk.old_range().contains(range),
        HunkSubtraction::New(range) => hunk.new_range().contains(range),
    }
}

} // verus!
