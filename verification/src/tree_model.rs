//! A tree as a map from paths to entries, and what discarding does to it.
//!
//! The discard engine answers with edits. This module says what a tree looks
//! like once the edits are made, and states, of every input of a given shape,
//! what the engine answers.

use vstd::prelude::*;
use crate::discard::{
    after_outcome, bad_hunks, good_hunks, hunk_discard, is_good, revert_edits, spec_discard_all,
    spec_discard_change, spec_needs_patch, DiffSpecView, DiscardError, ObservedChangeView, Outcome,
    PatchView, TreeEditView,
};
use crate::hunk::HunkHeader;
use crate::object::{EntryKind, ObjectId, TreeEntry};
use crate::patch::lemma_no_hunks_give_the_old_image;
use crate::removal::{drop_exact_matches, lemma_position_of, position_of, split_kept, tag_for};
use crate::subtract::holds;

verus! {

/// What a tree holds at a path: the kind of the entry and the bytes of the
/// object it names.
pub struct Item {
    pub kind: EntryKind,
    pub content: Seq<u8>,
}

/// The tree after one edit. `store` gives the bytes of each object.
pub open spec fn apply_edit(
    store: Map<ObjectId, Seq<u8>>,
    tree: Map<Seq<u8>, Item>,
    edit: TreeEditView,
) -> Map<Seq<u8>, Item> {
    match edit {
        TreeEditView::Remove { path } => tree.remove(path),
        TreeEditView::Upsert { path, kind, id } => tree.insert(
            path,
            Item { kind, content: store[id] },
        ),
        TreeEditView::UpsertBlob { path, kind, content } => tree.insert(
            path,
            Item { kind, content },
        ),
    }
}

/// The tree after the edits, made in order.
pub open spec fn apply_edits(
    store: Map<ObjectId, Seq<u8>>,
    tree: Map<Seq<u8>, Item>,
    edits: Seq<TreeEditView>,
) -> Map<Seq<u8>, Item>
    decreases edits.len(),
{
    if edits.len() == 0 {
        tree
    } else {
        apply_edits(store, apply_edit(store, tree, edits[0]), edits.skip(1))
    }
}

/// `change` with `hunks` in place of its own.
pub open spec fn with_hunks(change: DiffSpecView, hunks: Seq<HunkHeader>) -> DiffSpecView {
    DiffSpecView {
        previous_path_bytes: change.previous_path_bytes,
        path_bytes: change.path_bytes,
        hunk_headers: hunks,
    }
}

/// The diff between the two entries matters only where `spec_needs_patch`
/// says so: everywhere else a change comes to the same with any diff and with
/// none.
pub proof fn lemma_patch_counts_only_where_needed(observed: ObservedChangeView)
    requires
        !spec_needs_patch(observed.change, observed.before_entry, observed.after_entry),
    ensures
        spec_discard_change(observed) == spec_discard_change(
            ObservedChangeView {
                change: observed.change,
                before_entry: observed.before_entry,
                after_entry: observed.after_entry,
                patch: None,
            },
        ),
{
}

/// Discarding the whole change of a file that only the tree after the change
/// holds takes the file out of the tree, and everything is discarded.
pub proof fn lemma_discarding_an_addition_removes_the_path(
    observed: ObservedChangeView,
    store: Map<ObjectId, Seq<u8>>,
    tree: Map<Seq<u8>, Item>,
)
    requires
        observed.change.hunk_headers.len() == 0,
        observed.before_entry is None,
        observed.after_entry is Some,
    ensures
        spec_discard_change(observed) matches Ok(outcome) && outcome.undiscardable.len() == 0
            && !apply_edits(store, tree, outcome.edits).dom().contains(
            observed.change.path_bytes,
        ),
{
    let edits = revert_edits(None, observed.change);
    assert(edits.skip(1) =~= Seq::<TreeEditView>::empty());
    assert(apply_edits(store, tree, edits) == apply_edit(store, tree, edits[0])) by {
        reveal_with_fuel(apply_edits, 2);
    }
}

/// Discarding the whole change of a file that only the tree before the change
/// holds puts the file back with the kind and the content it had, and
/// everything is discarded.
pub proof fn lemma_discarding_a_deletion_restores_the_path(
    observed: ObservedChangeView,
    store: Map<ObjectId, Seq<u8>>,
    tree: Map<Seq<u8>, Item>,
)
    requires
        observed.change.hunk_headers.len() == 0,
        observed.before_entry is Some,
        observed.after_entry is None,
    ensures
        spec_discard_change(observed) matches Ok(outcome) && outcome.undiscardable.len() == 0 && {
            let after = apply_edits(store, tree, outcome.edits);
            let before = observed.before_entry->0;
            &&& after.dom().contains(observed.change.path_bytes)
            &&& after[observed.change.path_bytes] == Item {
                kind: before.kind,
                content: store[before.id],
            }
        },
{
    let outcome = spec_discard_change(observed)->Ok_0;
    assert(outcome.edits.skip(1) =~= Seq::<TreeEditView>::empty());
    assert(apply_edits(store, tree, outcome.edits) == apply_edit(store, tree, outcome.edits[0]))
        by {
        reveal_with_fuel(apply_edits, 2);
    }
}

/// A change to a file that neither tree holds comes back as it is, whatever
/// its hunks, and the tree stays as it is.
pub proof fn lemma_discarding_what_is_in_neither_tree_changes_nothing(
    observed: ObservedChangeView,
    store: Map<ObjectId, Seq<u8>>,
    tree: Map<Seq<u8>, Item>,
)
    requires
        observed.before_entry is None,
        observed.after_entry is None,
    ensures
        spec_discard_change(observed) matches Ok(outcome) && outcome.undiscardable == seq![
            observed.change,
        ] && apply_edits(store, tree, outcome.edits) == tree,
{
}

/// Discarding a change leaves every path alone but the path of the change
/// and the path that its file had before.
pub proof fn lemma_other_paths_stay(
    observed: ObservedChangeView,
    store: Map<ObjectId, Seq<u8>>,
    tree: Map<Seq<u8>, Item>,
    path: Seq<u8>,
)
    requires
        path != observed.change.path_bytes,
        path != observed.change.before_path(),
    ensures
        spec_discard_change(observed) matches Ok(outcome) ==> {
            let after = apply_edits(store, tree, outcome.edits);
            &&& after.dom().contains(path) == tree.dom().contains(path)
            &&& tree.dom().contains(path) ==> after[path] == tree[path]
        },
{
    if let Ok(outcome) = spec_discard_change(observed) {
        let edits = outcome.edits;
        reveal_with_fuel(apply_edits, 3);
        if edits.len() == 1 {
            assert(edits.skip(1).len() == 0);
        } else if edits.len() == 2 {
            assert(edits.skip(1)[0] == edits[1]);
            assert(edits.skip(1).skip(1).len() == 0);
        }
    }
}

/// Where each of `changes` occurs once and is among `removals`, the first
/// pass leaves no hunk.
proof fn lemma_all_matched(changes: Seq<HunkHeader>, removals: Seq<HunkHeader>)
    requires
        changes.no_duplicates(),
        forall|i: int| 0 <= i < changes.len() ==> removals.contains(#[trigger] changes[i]),
    ensures
        drop_exact_matches(changes, removals).0 == Seq::<HunkHeader>::empty(),
    decreases changes.len(),
{
    if changes.len() == 0 {
        assert(changes =~= Seq::<HunkHeader>::empty());
    } else {
        let first = changes[0];
        let tail = changes.skip(1);
        lemma_position_of(removals, first);
        let at = position_of(removals, first);
        let left = removals.remove(at);
        assert forall|i: int| 0 <= i < tail.len() implies left.contains(#[trigger] tail[i]) by {
            assert(tail[i] == changes[i + 1]);
            assert(removals.contains(changes[i + 1]));
            let j = choose|j: int| 0 <= j < removals.len() && removals[j] == tail[i];
            assert(j != at);
            if j < at {
                assert(left[j] == tail[i]);
            } else {
                assert(left[j - 1] == tail[i]);
            }
        }
        lemma_all_matched(tail, left);
    }
}

/// Discarding every hunk of the diff of a file gives the file the content it
/// had before the change, and the kind it had: the content that discarding
/// the whole change of the file gives it.
///
/// In a tree, where `store` holds under the entry before the change the
/// content that the diff was made from, the two put the same entry in place,
/// and where the file was not renamed they leave the same tree.
///
/// No hunk of the diff comes twice; else one request for it would not discard
/// it twice.
pub proof fn lemma_discarding_every_hunk_is_a_whole_file_revert(
    observed: ObservedChangeView,
    store: Map<ObjectId, Seq<u8>>,
    tree: Map<Seq<u8>, Item>,
)
    requires
        spec_needs_patch(observed.change, observed.before_entry, observed.after_entry),
        observed.patch is Some,
        observed.patch->0.hunks.no_duplicates(),
        forall|i: int|
            0 <= i < observed.patch->0.hunks.len() ==> observed.change.hunk_headers.contains(
                #[trigger] observed.patch->0.hunks[i],
            ),
    ensures
        spec_discard_change(observed) matches Ok(outcome) && {
            let change = observed.change;
            let before = observed.before_entry->0;
            let whole = spec_discard_change(
                ObservedChangeView {
                    change: with_hunks(change, Seq::empty()),
                    before_entry: observed.before_entry,
                    after_entry: observed.after_entry,
                    patch: observed.patch,
                },
            )->Ok_0;
            &&& outcome.edits == seq![
                TreeEditView::UpsertBlob {
                    path: change.path_bytes,
                    kind: before.kind,
                    content: observed.patch->0.before_content,
                },
            ]
            &&& whole.edits == revert_edits(observed.before_entry, change)
            &&& store[before.id] == observed.patch->0.before_content ==> {
                &&& apply_edits(store, tree, outcome.edits)[change.path_bytes] == apply_edits(
                    store,
                    tree,
                    whole.edits,
                )[change.before_path()]
                &&& apply_edits(store, tree, outcome.edits)[change.path_bytes] == Item {
                    kind: before.kind,
                    content: observed.patch->0.before_content,
                }
                &&& change.previous_path_bytes is None ==> apply_edits(
                    store,
                    tree,
                    outcome.edits,
                ) == apply_edits(store, tree, whole.edits)
            }
        },
{
    let change = observed.change;
    let patch = observed.patch->0;
    let before = observed.before_entry->0;
    let requested = change.hunk_headers;
    let good = good_hunks(patch.hunks, requested);
    let is_in = |hunk: HunkHeader| is_good(patch.hunks, hunk);
    assert forall|i: int| 0 <= i < patch.hunks.len() implies good.contains(
        #[trigger] patch.hunks[i],
    ) by {
        let hunk = patch.hunks[i];
        assert(hunk.spec_contains(hunk));
        assert(is_good(patch.hunks, hunk));
        let j = choose|j: int| 0 <= j < requested.len() && requested[j] == hunk;
        requested.lemma_filter_contains(is_in, j);
    }
    lemma_all_matched(patch.hunks, good);
    let left = drop_exact_matches(patch.hunks, good).1;
    assert(split_kept(Seq::<HunkHeader>::empty(), left) == Ok::<
        Seq<HunkHeader>,
        crate::subtract::SubtractError,
    >(Seq::<HunkHeader>::empty()));
    lemma_no_hunks_give_the_old_image(patch.before_content, patch.after_content);

    let outcome = spec_discard_change(observed)->Ok_0;
    let whole_edits = revert_edits(observed.before_entry, change);
    assert(outcome.edits.skip(1) =~= Seq::<TreeEditView>::empty());
    assert(whole_edits.skip(1).skip(1) =~= Seq::<TreeEditView>::empty());
    assert(whole_edits.skip(1)[0] == whole_edits[1]);
    reveal_with_fuel(apply_edits, 3);
    if store[before.id] == patch.before_content && change.previous_path_bytes is None {
        assert(apply_edits(store, tree, outcome.edits) =~= apply_edits(store, tree, whole_edits));
    }
}

/// What passes as a hunk to discard can be discarded: it is a hunk of the
/// diff, or it names lines of one side of a hunk of the diff that can be cut
/// out of that hunk. So the test that admits a hunk and the splitting that
/// acts on it agree.
pub proof fn lemma_good_hunks_can_be_taken_out(diff_hunks: Seq<HunkHeader>, requested: HunkHeader)
    requires
        is_good(diff_hunks, requested),
    ensures
        exists|i: int|
            0 <= i < diff_hunks.len() && (requested == #[trigger] diff_hunks[i] || (tag_for(
                diff_hunks[i],
                requested,
            ) matches Some(tag) && holds(diff_hunks[i], tag))),
{
    let i = choose|i: int|
        0 <= i < diff_hunks.len() && (#[trigger] diff_hunks[i]).spec_contains(requested);
    let hunk = diff_hunks[i];
    if requested != hunk {
        assert(tag_for(hunk, requested) matches Some(tag) && holds(hunk, tag));
    }
}

/// Filtering twice by the same test is filtering once.
proof fn lemma_filter_twice(hunks: Seq<HunkHeader>, test: spec_fn(HunkHeader) -> bool)
    ensures
        hunks.filter(test).filter(test) == hunks.filter(test),
    decreases hunks.len(),
{
    reveal(Seq::filter);
    if hunks.len() > 0 {
        lemma_filter_twice(hunks.drop_last(), test);
        if test(hunks.last()) {
            hunks.drop_last().filter(test).lemma_filter_push(hunks.last(), test);
        }
    }
}

/// Requested hunks that name no part of any hunk of the diff come back, these and
/// no others, and have no part in what is discarded: the edits are those of
/// the same change without them.
pub proof fn lemma_unmatched_hunks_come_back_alone(
    change: DiffSpecView,
    before: TreeEntry,
    after: TreeEntry,
    patch: PatchView,
)
    ensures
        match hunk_discard(change, before, after, patch) {
            Ok(outcome) => {
                let good = good_hunks(patch.hunks, change.hunk_headers);
                let bad = bad_hunks(patch.hunks, change.hunk_headers);
                &&& hunk_discard(with_hunks(change, good), before, after, patch) matches Ok(clean)
                &&& clean.edits == outcome.edits
                &&& clean.undiscardable.len() == 0
                &&& bad.len() == 0 ==> outcome.undiscardable.len() == 0
                &&& bad.len() > 0 ==> outcome.undiscardable == seq![with_hunks(change, bad)]
                &&& forall|i: int|
                    0 <= i < bad.len() ==> !is_good(patch.hunks, #[trigger] bad[i])
                &&& forall|i: int|
                    0 <= i < change.hunk_headers.len() && !is_good(
                        patch.hunks,
                        change.hunk_headers[i],
                    ) ==> bad.contains(#[trigger] change.hunk_headers[i])
            },
            Err(e) => hunk_discard(
                with_hunks(change, good_hunks(patch.hunks, change.hunk_headers)),
                before,
                after,
                patch,
            ) == Err::<Outcome, DiscardError>(e),
        },
{
    let requested = change.hunk_headers;
    let is_in = |hunk: HunkHeader| is_good(patch.hunks, hunk);
    let is_out = |hunk: HunkHeader| !is_good(patch.hunks, hunk);
    let good = requested.filter(is_in);
    let bad = requested.filter(is_out);
    lemma_filter_twice(requested, is_in);
    assert(good_hunks(patch.hunks, good) == good);
    assert(bad_hunks(patch.hunks, good).len() == 0) by {
        let twice = good.filter(is_out);
        if twice.len() > 0 {
            good.lemma_filter_pred(is_out, 0);
            good.lemma_filter_contains_rev(is_out, twice[0]);
            let j = choose|j: int| 0 <= j < good.len() && good[j] == twice[0];
            requested.lemma_filter_pred(is_in, j);
        }
    }
    assert forall|i: int| 0 <= i < bad.len() implies !is_good(patch.hunks, #[trigger] bad[i]) by {
        requested.lemma_filter_pred(is_out, i);
    }
    assert forall|i: int|
        0 <= i < requested.len() && !is_good(patch.hunks, requested[i]) implies bad.contains(
        #[trigger] requested[i],
    ) by {
        requested.lemma_filter_contains(is_out, i);
    }
}

/// A batch of one change comes to what that change comes to.
pub proof fn lemma_discarding_one_change(observed: ObservedChangeView)
    ensures
        spec_discard_all(seq![observed]) == spec_discard_change(observed),
{
    let all = seq![observed];
    assert(all.skip(1) =~= Seq::<ObservedChangeView>::empty());
    match spec_discard_change(observed) {
        Ok(outcome) => {
            assert(outcome.edits + Seq::<TreeEditView>::empty() =~= outcome.edits);
            assert(outcome.undiscardable + Seq::<DiffSpecView>::empty()
                =~= outcome.undiscardable);
            reveal_with_fuel(spec_discard_all, 2);
        },
        Err(_) => {},
    }
}

/// Changes do not touch each other: what a batch comes to is what its first
/// part comes to, followed by what the rest comes to by itself.
pub proof fn lemma_changes_are_discarded_independently(
    first: Seq<ObservedChangeView>,
    rest: Seq<ObservedChangeView>,
)
    ensures
        spec_discard_all(first + rest) == match spec_discard_all(first) {
            Ok(outcome) => after_outcome(
                outcome.edits,
                outcome.undiscardable,
                spec_discard_all(rest),
            ),
            Err(e) => Err(e),
        },
    decreases first.len(),
{
    if first.len() == 0 {
        assert(first + rest =~= rest);
        match spec_discard_all(rest) {
            Ok(outcome) => {
                assert(Seq::<TreeEditView>::empty() + outcome.edits =~= outcome.edits);
                assert(Seq::<DiffSpecView>::empty() + outcome.undiscardable
                    =~= outcome.undiscardable);
            },
            Err(_) => {},
        }
    } else {
        let all = first + rest;
        assert(all[0] == first[0]);
        assert(all.skip(1) =~= first.skip(1) + rest);
        lemma_changes_are_discarded_independently(first.skip(1), rest);
        match spec_discard_change(first[0]) {
            Ok(head) => match spec_discard_all(first.skip(1)) {
                Ok(middle) => match spec_discard_all(rest) {
                    Ok(tail) => {
                        assert(head.edits + (middle.edits + tail.edits) =~= (head.edits
                            + middle.edits) + tail.edits);
                        assert(head.undiscardable + (middle.undiscardable + tail.undiscardable)
                            =~= (head.undiscardable + middle.undiscardable)
                            + tail.undiscardable);
                    },
                    Err(_) => {},
                },
                Err(_) => {},
            },
            Err(_) => {},
        }
    }
}

} // verus!
