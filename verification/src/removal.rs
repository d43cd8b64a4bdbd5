//! Which hunks of a diff stay once some of them have been discarded.
//!
//! A hunk to discard either equals a hunk of the diff, which is then left out
//! whole, or shares one of its two ranges with a hunk of the diff and names,
//! with its other range, the lines to cut out of that hunk.

use vstd::prelude::*;
use crate::hunk::HunkHeader;
use crate::subtract::{spec_subtract_hunks, subtract_hunks, HunkSubtraction, SubtractError};

verus! {

/// The place of the first hunk in `hunks` that equals `hunk`, or the length of
/// `hunks` where none does.
pub open spec fn position_of(hunks: Seq<HunkHeader>, hunk: HunkHeader) -> int
    decreases hunks.len(),
{
    if hunks.len() == 0 {
        0
    } else if hunks[0] == hunk {
        0
    } else {
        1 + position_of(hunks.skip(1), hunk)
    }
}

/// The first pass. Each hunk of `changes`, in order, that equals one of
/// `removals` is left out and uses up the first such removal; the others
/// stay. The result is the hunks that stay and the removals not used up.
pub open spec fn drop_exact_matches(changes: Seq<HunkHeader>, removals: Seq<HunkHeader>) -> (
    Seq<HunkHeader>,
    Seq<HunkHeader>,
)
    decreases changes.len(),
{
    if changes.len() == 0 {
        (changes, removals)
    } else {
        let at = position_of(removals, changes[0]);
        if at < removals.len() {
            drop_exact_matches(changes.skip(1), removals.remove(at))
        } else {
            let (kept, left) = drop_exact_matches(changes.skip(1), removals);
            (seq![changes[0]] + kept, left)
        }
    }
}

/// What `removal` cuts out of `hunk`, if anything. With the same old range it
/// names new lines to cut out; with the same new range it names old lines.
pub open spec fn tag_for(hunk: HunkHeader, removal: HunkHeader) -> Option<HunkSubtraction> {
    if removal.spec_old_range() == hunk.spec_old_range() {
        Some(HunkSubtraction::New(removal.spec_new_range()))
    } else if removal.spec_new_range() == hunk.spec_new_range() {
        Some(HunkSubtraction::Old(removal.spec_old_range()))
    } else {
        None
    }
}

/// All that `removals` cut out of `hunk`, in their order.
pub open spec fn tags_for(hunk: HunkHeader, removals: Seq<HunkHeader>) -> Seq<HunkSubtraction> {
    removals.filter_map(|removal: HunkHeader| tag_for(hunk, removal))
}

/// The removals that cut nothing out of `hunk`, in their order.
pub open spec fn untagged(hunk: HunkHeader, removals: Seq<HunkHeader>) -> Seq<HunkHeader> {
    removals.filter(|removal: HunkHeader| tag_for(hunk, removal) is None)
}

/// `front` followed by the hunks of `rest`, or the error of `rest`.
pub open spec fn prepend(front: Seq<HunkHeader>, rest: Result<Seq<HunkHeader>, SubtractError>)
    -> Result<Seq<HunkHeader>, SubtractError> {
    match rest {
        Ok(hunks) => Ok(front + hunks),
        Err(e) => Err(e),
    }
}

/// What stays of one hunk: the hunk itself where nothing is cut out of it,
/// else its pieces.
pub open spec fn split_hunk(hunk: HunkHeader, tags: Seq<HunkSubtraction>) -> Result<
    Seq<HunkHeader>,
    SubtractError,
> {
    if tags.len() == 0 {
        Ok(seq![hunk])
    } else {
        spec_subtract_hunks(hunk, tags)
    }
}

/// The second pass. Each hunk of `kept`, in order, takes from `removals` all
/// that cut into it and is replaced by what stays of it; the first hunk that
/// cannot be cut fails the whole.
pub open spec fn split_kept(kept: Seq<HunkHeader>, removals: Seq<HunkHeader>) -> Result<
    Seq<HunkHeader>,
    SubtractError,
>
    decreases kept.len(),
{
    if kept.len() == 0 {
        Ok(kept)
    } else {
        match split_hunk(kept[0], tags_for(kept[0], removals)) {
            Err(e) => Err(e),
            Ok(pieces) => prepend(pieces, split_kept(kept.skip(1), untagged(kept[0], removals))),
        }
    }
}

/// The hunks of `changes` that are still to be applied once `removals` are
/// discarded.
pub open spec fn spec_new_hunks_after_removals(
    changes: Seq<HunkHeader>,
    removals: Seq<HunkHeader>,
) -> Result<Seq<HunkHeader>, SubtractError> {
    let (kept, left) = drop_exact_matches(changes, removals);
    split_kept(kept, left)
}

/// Every removal is a hunk of `changes` or cuts into none of them: only
/// whole hunks are to be discarded.
pub open spec fn only_whole_hunks(changes: Seq<HunkHeader>, removals: Seq<HunkHeader>) -> bool {
    forall|i: int, j: int|
        0 <= i < changes.len() && 0 <= j < removals.len() ==> (#[trigger] removals[j])
            == (#[trigger] changes[i]) || tag_for(changes[i], removals[j]) is None
}

/// The place of a hunk that `hunks` holds is within `hunks`, and the hunk
/// stands there; the place of any other hunk is the length of `hunks`.
pub proof fn lemma_position_of(hunks: Seq<HunkHeader>, hunk: HunkHeader)
    ensures
        0 <= position_of(hunks, hunk) <= hunks.len(),
        hunks.contains(hunk) <==> position_of(hunks, hunk) < hunks.len(),
        position_of(hunks, hunk) < hunks.len() ==> hunks[position_of(hunks, hunk)] == hunk,
    decreases hunks.len(),
{
    if hunks.len() > 0 && hunks[0] != hunk {
        let tail = hunks.skip(1);
        lemma_position_of(tail, hunk);
        if hunks.contains(hunk) {
            let i = choose|i: int| 0 <= i < hunks.len() && hunks[i] == hunk;
            assert(tail[i - 1] == hunk);
        }
        if position_of(tail, hunk) < tail.len() {
            assert(tail[position_of(tail, hunk)] == hunks[position_of(tail, hunk) + 1]);
        }
    } else if hunks.len() > 0 {
        assert(hunks[0] == hunk);
    }
}

/// Two tests that agree on every entry filter alike.
proof fn lemma_filter_alike(
    hunks: Seq<HunkHeader>,
    one: spec_fn(HunkHeader) -> bool,
    other: spec_fn(HunkHeader) -> bool,
)
    requires
        forall|i: int| 0 <= i < hunks.len() ==> one(#[trigger] hunks[i]) == other(hunks[i]),
    ensures
        hunks.filter(one) == hunks.filter(other),
    decreases hunks.len(),
{
    reveal(Seq::filter);
    if hunks.len() > 0 {
        let front = hunks.drop_last();
        assert forall|i: int| 0 <= i < front.len() implies one(#[trigger] front[i]) == other(
            front[i],
        ) by {
            assert(front[i] == hunks[i]);
        }
        lemma_filter_alike(front, one, other);
        assert(one(hunks[hunks.len() - 1]) == other(hunks[hunks.len() - 1]));
    }
}

/// The first pass leaves the hunks that are no removal, where no hunk
/// comes twice; and what it leaves of the removals are removals.
proof fn lemma_drop_exact_matches(changes: Seq<HunkHeader>, removals: Seq<HunkHeader>)
    requires
        changes.no_duplicates(),
    ensures
        drop_exact_matches(changes, removals).0 == changes.filter(
            |hunk: HunkHeader| !removals.contains(hunk),
        ),
        forall|j: int|
            0 <= j < drop_exact_matches(changes, removals).1.len() ==> removals.contains(
                #[trigger] drop_exact_matches(changes, removals).1[j],
            ),
    decreases changes.len(),
{
    let stays = |hunk: HunkHeader| !removals.contains(hunk);
    if changes.len() == 0 {
        reveal(Seq::filter);
        assert forall|j: int| 0 <= j < removals.len() implies removals.contains(
            #[trigger] removals[j],
        ) by {}
    } else {
        let first = changes[0];
        let tail = changes.skip(1);
        assert(changes =~= seq![first] + tail);
        tail.lemma_filter_prepend(first, stays);
        lemma_position_of(removals, first);
        let at = position_of(removals, first);
        if at < removals.len() {
            let fewer = removals.remove(at);
            let stays_then = |hunk: HunkHeader| !fewer.contains(hunk);
            lemma_drop_exact_matches(tail, fewer);
            assert forall|i: int| 0 <= i < tail.len() implies stays_then(#[trigger] tail[i])
                == stays(tail[i]) by {
                let hunk = tail[i];
                assert(hunk == changes[i + 1]);
                assert(hunk != first);
                if removals.contains(hunk) {
                    let j = choose|j: int| 0 <= j < removals.len() && removals[j] == hunk;
                    if j < at {
                        assert(fewer[j] == hunk);
                    } else {
                        assert(fewer[j - 1] == hunk);
                    }
                }
                if fewer.contains(hunk) {
                    let j = choose|j: int| 0 <= j < fewer.len() && fewer[j] == hunk;
                    if j < at {
                        assert(removals[j] == hunk);
                    } else {
                        assert(removals[j + 1] == hunk);
                    }
                }
            }
            lemma_filter_alike(tail, stays_then, stays);
            assert(Seq::<HunkHeader>::empty() + tail.filter(stays) =~= tail.filter(stays));
            let left = drop_exact_matches(tail, fewer).1;
            assert forall|j: int| 0 <= j < left.len() implies removals.contains(
                #[trigger] left[j],
            ) by {
                assert(fewer.contains(left[j]));
                let k = choose|k: int| 0 <= k < fewer.len() && fewer[k] == left[j];
                if k < at {
                    assert(removals[k] == left[j]);
                } else {
                    assert(removals[k + 1] == left[j]);
                }
            }
        } else {
            lemma_drop_exact_matches(tail, removals);
        }
    }
}

/// The second pass leaves hunks as they are where no removal cuts into them.
proof fn lemma_split_kept_untouched(kept: Seq<HunkHeader>, removals: Seq<HunkHeader>)
    requires
        forall|i: int, j: int|
            0 <= i < kept.len() && 0 <= j < removals.len() ==> tag_for(
                #[trigger] kept[i],
                #[trigger] removals[j],
            ) is None,
    ensures
        split_kept(kept, removals) == Ok::<Seq<HunkHeader>, SubtractError>(kept),
    decreases kept.len(),
{
    if kept.len() > 0 {
        let hunk = kept[0];
        let tail = kept.skip(1);
        lemma_no_tags(hunk, removals);
        assert forall|i: int, j: int|
            0 <= i < tail.len() && 0 <= j < removals.len() implies tag_for(
            #[trigger] tail[i],
            #[trigger] removals[j],
        ) is None by {
            assert(tail[i] == kept[i + 1]);
        }
        lemma_split_kept_untouched(tail, removals);
        assert(seq![hunk] + tail =~= kept);
    }
}

/// Removals that cut nothing out of a hunk give it no tags, and all stay.
proof fn lemma_no_tags(hunk: HunkHeader, removals: Seq<HunkHeader>)
    requires
        forall|j: int| 0 <= j < removals.len() ==> tag_for(hunk, #[trigger] removals[j]) is None,
    ensures
        tags_for(hunk, removals) == Seq::<HunkSubtraction>::empty(),
        untagged(hunk, removals) == removals,
    decreases removals.len(),
{
    reveal(Seq::filter);
    if removals.len() > 0 {
        let front = removals.drop_last();
        assert forall|j: int| 0 <= j < front.len() implies tag_for(hunk, #[trigger] front[j])
            is None by {
            assert(front[j] == removals[j]);
        }
        lemma_no_tags(hunk, front);
        assert(tag_for(hunk, removals[removals.len() - 1]) is None);
        assert(front.push(removals.last()) =~= removals);
    } else {
        assert(tags_for(hunk, removals) =~= Seq::<HunkSubtraction>::empty());
    }
}

/// Discarding whole hunks leaves the other hunks, in their order.
///
/// Where no hunk of the diff comes twice, and every removal is a hunk of the
/// diff or cuts into none, what stays of the diff are the hunks that are no
/// removal.
pub proof fn lemma_whole_hunks_are_left_out(changes: Seq<HunkHeader>, removals: Seq<HunkHeader>)
    requires
        changes.no_duplicates(),
        only_whole_hunks(changes, removals),
    ensures
        spec_new_hunks_after_removals(changes, removals) == Ok::<
            Seq<HunkHeader>,
            SubtractError,
        >(changes.filter(|hunk: HunkHeader| !removals.contains(hunk))),
{
    let stays = |hunk: HunkHeader| !removals.contains(hunk);
    lemma_drop_exact_matches(changes, removals);
    let (kept, left) = drop_exact_matches(changes, removals);
    assert forall|i: int, j: int| 0 <= i < kept.len() && 0 <= j < left.len() implies tag_for(
        #[trigger] kept[i],
        #[trigger] left[j],
    ) is None by {
        changes.lemma_filter_pred(stays, i);
        changes.lemma_filter_contains_rev(stays, kept[i]);
        let a = choose|a: int| 0 <= a < changes.len() && changes[a] == kept[i];
        assert(removals.contains(left[j]));
        let b = choose|b: int| 0 <= b < removals.len() && removals[b] == left[j];
        assert(removals[b] == changes[a] || tag_for(changes[a], removals[b]) is None);
    }
    lemma_split_kept_untouched(kept, left);
}

/// The place of the first hunk in `hunks` that equals `hunk`.
fn find_equal(hunks: &Vec<HunkHeader>, hunk: HunkHeader) -> (at: usize)
    ensures
        at == position_of(hunks@, hunk),
        at <= hunks@.len(),
{
    let mut at: usize = 0;
    assert(hunks@.skip(0) =~= hunks@);
    while at < hunks.len() && hunks[at] != hunk
        invariant
            at <= hunks.len(),
            position_of(hunks@, hunk) == at + position_of(hunks@.skip(at as int), hunk),
        decreases hunks.len() - at,
    {
        proof {
            assert(hunks@.skip(at as int)[0] == hunks@[at as int]);
            assert(hunks@.skip(at as int).skip(1) =~= hunks@.skip(at + 1));
        }
        at += 1;
    }
    proof {
        if at < hunks.len() {
            assert(hunks@.skip(at as int)[0] == hunks@[at as int]);
        }
    }
    at
}

/// Takes out of `removals` all that cut into `hunk`, and returns what they cut.
fn take_tags(hunk: HunkHeader, removals: &mut Vec<HunkHeader>) -> (tags: Vec<HunkSubtraction>)
    ensures
        tags@ == tags_for(hunk, old(removals)@),
        final(removals)@ == untagged(hunk, old(removals)@),
{
    let mut tags: Vec<HunkSubtraction> = Vec::new();
    let mut rest: Vec<HunkHeader> = Vec::new();
    let ghost tag = |removal: HunkHeader| tag_for(hunk, removal);
    let ghost stays = |removal: HunkHeader| tag_for(hunk, removal) is None;
    let mut i: usize = 0;
    while i < removals.len()
        invariant
            i <= removals.len(),
            *removals == *old(removals),
            tag == |removal: HunkHeader| tag_for(hunk, removal),
            stays == |removal: HunkHeader| tag_for(hunk, removal) is None,
            tags@ == removals@.take(i as int).filter_map(tag),
            rest@ == removals@.take(i as int).filter(stays),
        decreases removals.len() - i,
    {
        let removal = removals[i];
        proof {
            removals@.lemma_filter_map_take_succ(tag, i as int);
            assert(removals@.take(i + 1) =~= removals@.take(i as int).push(removal));
            removals@.take(i as int).lemma_filter_push(removal, stays);
        }
        if removal.old_range() == hunk.old_range() {
            tags.push(HunkSubtraction::New(removal.new_range()));
        } else if removal.new_range() == hunk.new_range() {
            tags.push(HunkSubtraction::Old(removal.old_range()));
        } else {
            rest.push(removal);
        }
        i += 1;
    }
    assert(removals@.take(removals@.len() as int) =~= removals@);
    *removals = rest;
    tags
}

/// Returns the hunks of `change_hunks` that are still to be applied once
/// `removal_hunks` are discarded, in the order of `change_hunks`.
///
/// First, each change hunk that equals a removal hunk is left out, and uses up
/// that one removal. Then each change hunk that is left takes every remaining
/// removal that shares its old range or its new range: one with the same old
/// range names, with its new range, new lines to cut out; one with the same
/// new range names old lines. A hunk that nothing cuts into stays as it is; the
/// others are replaced by their pieces. The call fails where a hunk cannot be
/// cut as asked, with the error of the first such hunk.
pub fn new_hunks_after_removals(change_hunks: Vec<HunkHeader>, removal_hunks: Vec<HunkHeader>) -> (r:
    Result<Vec<HunkHeader>, SubtractError>)
    ensures
        match r {
            Ok(hunks) => spec_new_hunks_after_removals(change_hunks@, removal_hunks@) == Ok::<
                Seq<HunkHeader>,
                SubtractError,
            >(hunks@),
            Err(e) => spec_new_hunks_after_removals(change_hunks@, removal_hunks@) == Err::<
                Seq<HunkHeader>,
                SubtractError,
            >(e),
        },
{
    let mut removals = removal_hunks;
    let mut kept: Vec<HunkHeader> = Vec::new();
    let mut i: usize = 0;
    assert(change_hunks@.skip(0) =~= change_hunks@);
    while i < change_hunks.len()
        invariant
            i <= change_hunks.len(),
            drop_exact_matches(change_hunks@, removal_hunks@) == (
                kept@ + drop_exact_matches(change_hunks@.skip(i as int), removals@).0,
                drop_exact_matches(change_hunks@.skip(i as int), removals@).1,
            ),
        decreases change_hunks.len() - i,
    {
        let hunk = change_hunks[i];
        let ghost rest = change_hunks@.skip(i as int);
        proof {
            assert(rest[0] == hunk);
            assert(rest.skip(1) =~= change_hunks@.skip(i + 1));
        }
        let at = find_equal(&removals, hunk);
        if at < removals.len() {
            removals.remove(at);
        } else {
            proof {
                let tail = drop_exact_matches(rest.skip(1), removals@);
                assert(kept@ + (seq![hunk] + tail.0) =~= kept@.push(hunk) + tail.0);
            }
            kept.push(hunk);
        }
        i += 1;
    }
    assert(kept@ + Seq::<HunkHeader>::empty() =~= kept@);

    let mut out: Vec<HunkHeader> = Vec::new();
    let ghost left = removals@;
    let mut j: usize = 0;
    assert(kept@.skip(0) =~= kept@);
    assert(split_kept(kept@, left) == prepend(out@, split_kept(kept@, left))) by {
        match split_kept(kept@, left) {
            Ok(hunks) => {
                assert(out@ + hunks =~= hunks);
            },
            Err(_) => {},
        }
    }
    while j < kept.len()
        invariant
            j <= kept.len(),
            spec_new_hunks_after_removals(change_hunks@, removal_hunks@) == split_kept(kept@, left),
            split_kept(kept@, left) == prepend(out@, split_kept(kept@.skip(j as int), removals@)),
        decreases kept.len() - j,
    {
        let hunk = kept[j];
        let ghost rest = kept@.skip(j as int);
        let ghost before = removals@;
        let ghost front = out@;
        proof {
            assert(rest[0] == hunk);
            assert(rest.skip(1) =~= kept@.skip(j + 1));
        }
        let tags = take_tags(hunk, &mut removals);
        if tags.len() == 0 {
            out.push(hunk);
            proof {
                match split_kept(rest.skip(1), removals@) {
                    Ok(hunks) => {
                        assert(front + (seq![hunk] + hunks) =~= out@ + hunks);
                    },
                    Err(_) => {},
                }
            }
        } else {
            match subtract_hunks(hunk, tags) {
                Err(e) => {
                    return Err(e);
                },
                Ok(mut pieces) => {
                    let ghost cut = pieces@;
                    out.append(&mut pieces);
                    proof {
                        match split_kept(rest.skip(1), removals@) {
                            Ok(hunks) => {
                                assert(front + (cut + hunks) =~= out@ + hunks);
                            },
                            Err(_) => {},
                        }
                    }
                },
            }
        }
        j += 1;
    }
    proof {
        assert(out@ + Seq::<HunkHeader>::empty() =~= out@);
    }
    Ok(out)
}

} // verus!
