//! The discard engine: which edits of a tree undo the changes that were asked
//! to be discarded, and which of those changes cannot be undone.
//!
//! The engine sees, for each change, what the tree before the change and the
//! tree after it hold at the paths of the change. It answers with edits to
//! make on the tree after the change. The changes it could not match come back
//! as they were.

use vstd::prelude::*;
use crate::hunk::HunkHeader;
use crate::bytes::{copy_bytes, same_bytes};
use crate::object::{EntryKind, ObjectId, TreeEntry};
use crate::patch::{apply_hunks, spec_apply_hunks, ApplyError};
use crate::removal::{new_hunks_after_removals, spec_new_hunks_after_removals};
use crate::subtract::SubtractError;

verus! {

/// One change to discard: a file, where it came from if it was renamed, and
/// the hunks to discard. With no hunks, the whole change to the file is meant.
#[derive(Debug, PartialEq, Eq)]
pub struct DiffSpec {
    /// The path the file had before, where it was renamed.
    pub previous_path_bytes: Option<Vec<u8>>,
    /// The path of the file.
    pub path_bytes: Vec<u8>,
    /// The hunks to discard; empty for the whole file.
    pub hunk_headers: Vec<HunkHeader>,
}

/// A `DiffSpec` as plain values.
pub struct DiffSpecView {
    pub previous_path_bytes: Option<Seq<u8>>,
    pub path_bytes: Seq<u8>,
    pub hunk_headers: Seq<HunkHeader>,
}

impl DiffSpecView {
    /// The path under which the tree before the change holds the file.
    pub open spec fn before_path(self) -> Seq<u8> {
        match self.previous_path_bytes {
            Some(path) => path,
            None => self.path_bytes,
        }
    }
}

impl View for DiffSpec {
    type V = DiffSpecView;

    open spec fn view(&self) -> DiffSpecView {
        DiffSpecView {
            previous_path_bytes: match self.previous_path_bytes {
                Some(path) => Some(path@),
                None => None,
            },
            path_bytes: self.path_bytes@,
            hunk_headers: self.hunk_headers@,
        }
    }
}

impl Clone for DiffSpec {
    fn clone(&self) -> (r: Self)
        ensures
            r@ == self@,
    {
        DiffSpec {
            previous_path_bytes: match &self.previous_path_bytes {
                Some(path) => Some(copy_bytes(path)),
                None => None,
            },
            path_bytes: copy_bytes(&self.path_bytes),
            hunk_headers: copy_hunks(&self.hunk_headers),
        }
    }
}

impl DiffSpec {
    /// The path under which the tree before the change holds the file: the
    /// previous path where there is one, else the path.
    pub fn before_path(&self) -> (r: &Vec<u8>)
        ensures
            r@ == self@.before_path(),
    {
        match &self.previous_path_bytes {
            Some(path) => path,
            None => &self.path_bytes,
        }
    }
}

/// One edit of a tree.
#[derive(Debug, PartialEq, Eq)]
pub enum TreeEdit {
    /// Take the entry at `path` out of the tree.
    Remove { path: Vec<u8> },
    /// Put at `path` an entry of `kind` that names the object `id`.
    Upsert { path: Vec<u8>, kind: EntryKind, id: ObjectId },
    /// Store `content` as a blob and put at `path` an entry of `kind` that
    /// names it.
    UpsertBlob { path: Vec<u8>, kind: EntryKind, content: Vec<u8> },
}

/// A `TreeEdit` as plain values.
pub enum TreeEditView {
    Remove { path: Seq<u8> },
    Upsert { path: Seq<u8>, kind: EntryKind, id: ObjectId },
    UpsertBlob { path: Seq<u8>, kind: EntryKind, content: Seq<u8> },
}

impl View for TreeEdit {
    type V = TreeEditView;

    open spec fn view(&self) -> TreeEditView {
        match self {
            TreeEdit::Remove { path } => TreeEditView::Remove { path: path@ },
            TreeEdit::Upsert { path, kind, id } => TreeEditView::Upsert {
                path: path@,
                kind: *kind,
                id: *id,
            },
            TreeEdit::UpsertBlob { path, kind, content } => TreeEditView::UpsertBlob {
                path: path@,
                kind: *kind,
                content: content@,
            },
        }
    }
}

/// The two versions of a file and the hunks that the diff engine found
/// between them.
#[derive(Debug, PartialEq, Eq)]
pub struct Patch {
    /// The bytes of the file in the tree before the change.
    pub before_content: Vec<u8>,
    /// The bytes of the file in the tree after the change.
    pub after_content: Vec<u8>,
    /// The hunks of the diff from the one to the other, in the order of the
    /// file.
    pub hunks: Vec<HunkHeader>,
}

/// A `Patch` as plain values.
pub struct PatchView {
    pub before_content: Seq<u8>,
    pub after_content: Seq<u8>,
    pub hunks: Seq<HunkHeader>,
}

impl View for Patch {
    type V = PatchView;

    open spec fn view(&self) -> PatchView {
        PatchView {
            before_content: self.before_content@,
            after_content: self.after_content@,
            hunks: self.hunks@,
        }
    }
}

/// A change to discard together with what the two trees hold for it.
#[derive(Debug, PartialEq, Eq)]
pub struct ObservedChange {
    /// The change to discard.
    pub change: DiffSpec,
    /// The entry of the tree before the change, at the previous path of the
    /// change where it has one, else at its path.
    pub before_entry: Option<TreeEntry>,
    /// The entry of the tree after the change, at the path of the change.
    pub after_entry: Option<TreeEntry>,
    /// The diff between the two entries. It is looked at only where
    /// `needs_patch` holds; `None` says that there is no textual diff.
    pub patch: Option<Patch>,
}

/// An `ObservedChange` as plain values.
pub struct ObservedChangeView {
    pub change: DiffSpecView,
    pub before_entry: Option<TreeEntry>,
    pub after_entry: Option<TreeEntry>,
    pub patch: Option<PatchView>,
}

impl View for ObservedChange {
    type V = ObservedChangeView;

    open spec fn view(&self) -> ObservedChangeView {
        ObservedChangeView {
            change: self.change@,
            before_entry: self.before_entry,
            after_entry: self.after_entry,
            patch: match self.patch {
                Some(patch) => Some(patch@),
                None => None,
            },
        }
    }
}

/// Why the changes could not be discarded.
#[derive(Clone, Copy, Debug, PartialEq, Eq, Structural)]
pub enum DiscardError {
    /// Hunks were given for a file that one of the two trees lacks.
    HunksOnAdditionOrDeletion,
    /// Hunks were given for a file of which there is no textual diff.
    ExpectedPatch,
    /// A hunk could not be cut as asked.
    Subtract(SubtractError),
    /// The hunks that stay could not be applied.
    Apply(ApplyError),
}

impl DiscardError {
    /// The error in words.
    pub fn message(&self) -> (r: &'static str)
        ensures
            r@ == match *self {
                DiscardError::HunksOnAdditionOrDeletion =>
                    "Deletions or additions aren't well-defined for hunk-based operations - use the whole-file mode instead"@,
                DiscardError::ExpectedPatch => "expected a patch"@,
                DiscardError::Subtract(SubtractError::RangeOverflow { .. }) =>
                    "a hunk ends past the last line number"@,
                DiscardError::Subtract(SubtractError::NotContained { .. }) =>
                    "provided hunk slices must always be within their old and new hunk respectively"@,
                DiscardError::Apply(ApplyError::OldOutOfOrder { .. }) =>
                    "hunks must be in order from top to bottom of the file"@,
                DiscardError::Apply(ApplyError::NewOutOfOrder { .. }) =>
                    "hunks for new lines must be in order"@,
            },
    {
        match self {
            DiscardError::HunksOnAdditionOrDeletion =>
                "Deletions or additions aren't well-defined for hunk-based operations - use the whole-file mode instead",
            DiscardError::ExpectedPatch => "expected a patch",
            DiscardError::Subtract(SubtractError::RangeOverflow { .. }) =>
                "a hunk ends past the last line number",
            DiscardError::Subtract(SubtractError::NotContained { .. }) =>
                "provided hunk slices must always be within their old and new hunk respectively",
            DiscardError::Apply(ApplyError::OldOutOfOrder { .. }) =>
                "hunks must be in order from top to bottom of the file",
            DiscardError::Apply(ApplyError::NewOutOfOrder { .. }) =>
                "hunks for new lines must be in order",
        }
    }
}

/// What discarding one change, or several, comes to.
pub struct Outcome {
    /// The edits to make on the tree after the change, in order.
    pub edits: Seq<TreeEditView>,
    /// The changes, or parts of changes, that could not be discarded.
    pub undiscardable: Seq<DiffSpecView>,
}

/// The edits as plain values.
pub open spec fn edit_views(edits: Seq<TreeEdit>) -> Seq<TreeEditView> {
    edits.map_values(|edit: TreeEdit| edit@)
}

/// The changes as plain values.
pub open spec fn change_views(specs: Seq<DiffSpec>) -> Seq<DiffSpecView> {
    specs.map_values(|spec: DiffSpec| spec@)
}

/// The observed changes as plain values.
pub open spec fn observed_views(changes: Seq<ObservedChange>) -> Seq<ObservedChangeView> {
    changes.map_values(|change: ObservedChange| change@)
}

/// `hunk` names a part of a hunk of the diff, so it can be discarded.
pub open spec fn is_good(diff_hunks: Seq<HunkHeader>, hunk: HunkHeader) -> bool {
    exists|i: int| 0 <= i < diff_hunks.len() && (#[trigger] diff_hunks[i]).spec_contains(hunk)
}

/// The requested hunks that name a part of a hunk of the diff, in their
/// order.
pub open spec fn good_hunks(diff_hunks: Seq<HunkHeader>, requested: Seq<HunkHeader>) -> Seq<
    HunkHeader,
> {
    requested.filter(|hunk: HunkHeader| is_good(diff_hunks, hunk))
}

/// The requested hunks that name no part of any hunk of the diff, in their
/// order.
pub open spec fn bad_hunks(diff_hunks: Seq<HunkHeader>, requested: Seq<HunkHeader>) -> Seq<
    HunkHeader,
> {
    requested.filter(|hunk: HunkHeader| !is_good(diff_hunks, hunk))
}

/// The edits that bring a file back to what the tree before the change held:
/// the path goes; where the tree before held the file, its entry comes back
/// under the path it had there.
pub open spec fn revert_edits(before_entry: Option<TreeEntry>, change: DiffSpecView) -> Seq<
    TreeEditView,
> {
    match before_entry {
        Some(before) => seq![
            TreeEditView::Remove { path: change.path_bytes },
            TreeEditView::Upsert { path: change.before_path(), kind: before.kind, id: before.id },
        ],
        None => seq![TreeEditView::Remove { path: change.path_bytes }],
    }
}

/// What is left to say of the hunks of `change` that name no part of any
/// hunk of the diff: nothing where there is none, else the change with just these.
pub open spec fn rejected(change: DiffSpecView, diff_hunks: Seq<HunkHeader>) -> Seq<DiffSpecView> {
    let bad = bad_hunks(diff_hunks, change.hunk_headers);
    if bad.len() == 0 {
        Seq::empty()
    } else {
        seq![
            DiffSpecView {
                previous_path_bytes: change.previous_path_bytes,
                path_bytes: change.path_bytes,
                hunk_headers: bad,
            },
        ]
    }
}

/// Discarding hunks of a file that both trees hold.
///
/// The requested hunks that name a part of a hunk of the diff are taken out
/// of the diff; what stays of the diff is applied to the content before the change.
/// The file gets that content, and the kind of the entry before the change
/// where the content is what it was before, else the kind of the entry after.
/// The requested hunks that name no part of any hunk of the diff come back.
pub open spec fn hunk_discard(
    change: DiffSpecView,
    before: TreeEntry,
    after: TreeEntry,
    patch: PatchView,
) -> Result<Outcome, DiscardError> {
    match spec_new_hunks_after_removals(
        patch.hunks,
        good_hunks(patch.hunks, change.hunk_headers),
    ) {
        Err(e) => Err(DiscardError::Subtract(e)),
        Ok(kept) => match spec_apply_hunks(patch.before_content, patch.after_content, kept) {
            Err(e) => Err(DiscardError::Apply(e)),
            Ok(content) => Ok(
                Outcome {
                    edits: seq![
                        TreeEditView::UpsertBlob {
                            path: change.path_bytes,
                            kind: if content == patch.before_content {
                                before.kind
                            } else {
                                after.kind
                            },
                            content,
                        },
                    ],
                    undiscardable: rejected(change, patch.hunks),
                },
            ),
        },
    }
}

/// The diff between the two entries is needed to discard the change: hunks
/// are given, and both trees hold the file, the tree after as a regular file.
pub open spec fn spec_needs_patch(
    change: DiffSpecView,
    before_entry: Option<TreeEntry>,
    after_entry: Option<TreeEntry>,
) -> bool {
    &&& change.hunk_headers.len() > 0
    &&& before_entry is Some
    &&& after_entry matches Some(after)
    &&& after.kind.spec_is_blob()
}

/// What discarding one change comes to.
pub open spec fn spec_discard_change(observed: ObservedChangeView) -> Result<Outcome, DiscardError> {
    let change = observed.change;
    match observed.after_entry {
        None => match observed.before_entry {
            None => Ok(Outcome { edits: Seq::empty(), undiscardable: seq![change] }),
            Some(before) => if change.hunk_headers.len() == 0 {
                Ok(
                    Outcome {
                        edits: seq![
                            TreeEditView::Upsert {
                                path: change.path_bytes,
                                kind: before.kind,
                                id: before.id,
                            },
                        ],
                        undiscardable: Seq::empty(),
                    },
                )
            } else {
                Err(DiscardError::HunksOnAdditionOrDeletion)
            },
        },
        Some(after) => if after.kind.spec_is_blob() && change.hunk_headers.len() > 0 {
            match observed.before_entry {
                None => Err(DiscardError::HunksOnAdditionOrDeletion),
                Some(before) => match observed.patch {
                    None => Err(DiscardError::ExpectedPatch),
                    Some(patch) => hunk_discard(change, before, after, patch),
                },
            }
        } else {
            Ok(
                Outcome {
                    edits: revert_edits(observed.before_entry, change),
                    undiscardable: Seq::empty(),
                },
            )
        },
    }
}

/// What discarding the changes one after the other comes to: the edits of
/// each, in order, and all that could not be discarded, in order; or the
/// error of the first change that fails.
pub open spec fn spec_discard_all(changes: Seq<ObservedChangeView>) -> Result<Outcome, DiscardError>
    decreases changes.len(),
{
    if changes.len() == 0 {
        Ok(Outcome { edits: Seq::empty(), undiscardable: Seq::empty() })
    } else {
        match spec_discard_change(changes[0]) {
            Err(e) => Err(e),
            Ok(first) => match spec_discard_all(changes.skip(1)) {
                Err(e) => Err(e),
                Ok(rest) => Ok(
                    Outcome {
                        edits: first.edits + rest.edits,
                        undiscardable: first.undiscardable + rest.undiscardable,
                    },
                ),
            },
        }
    }
}

/// A copy of `hunks`.
pub fn copy_hunks(hunks: &Vec<HunkHeader>) -> (r: Vec<HunkHeader>)
    ensures
        r@ == hunks@,
{
    let mut out: Vec<HunkHeader> = Vec::new();
    let mut i: usize = 0;
    while i < hunks.len()
        invariant
            i <= hunks.len(),
            out@ == hunks@.take(i as int),
        decreases hunks.len() - i,
    {
        out.push(hunks[i]);
        assert(hunks@.take(i + 1) =~= hunks@.take(i as int).push(hunks@[i as int]));
        i += 1;
    }
    assert(hunks@.take(hunks@.len() as int) =~= hunks@);
    out
}

/// Whether the diff between the two entries is needed to discard `change`.
pub fn needs_patch(
    change: &DiffSpec,
    before_entry: &Option<TreeEntry>,
    after_entry: &Option<TreeEntry>,
) -> (r: bool)
    ensures
        r == spec_needs_patch(change@, *before_entry, *after_entry),
{
    match after_entry {
        Some(after) => change.hunk_headers.len() > 0 && before_entry.is_some()
            && after.kind.is_blob(),
        None => false,
    }
}

/// Adds to `edits` what brings the file of `change` back to what the tree
/// before the change held: the path is removed, and where `before_entry` is
/// there, it is put back under the path it had before.
pub fn revert_file_to_before_state(
    before_entry: &Option<TreeEntry>,
    edits: &mut Vec<TreeEdit>,
    change: &DiffSpec,
)
    ensures
        edit_views(final(edits)@) == edit_views(old(edits)@) + revert_edits(
            *before_entry,
            change@,
        ),
{
    edits.push(TreeEdit::Remove { path: copy_bytes(&change.path_bytes) });
    if let Some(before) = before_entry {
        edits.push(
            TreeEdit::Upsert {
                path: copy_bytes(change.before_path()),
                kind: before.kind,
                id: before.id,
            },
        );
    }
    assert(edit_views(edits@) =~= edit_views(old(edits)@) + revert_edits(*before_entry, change@));
}

/// Whether `hunk` names a part of one of `diff_hunks`.
fn lies_within_any(diff_hunks: &Vec<HunkHeader>, hunk: HunkHeader) -> (r: bool)
    ensures
        r == is_good(diff_hunks@, hunk),
{
    let mut i: usize = 0;
    while i < diff_hunks.len()
        invariant
            i <= diff_hunks.len(),
            forall|k: int| 0 <= k < i ==> !(#[trigger] diff_hunks@[k]).spec_contains(hunk),
        decreases diff_hunks.len() - i,
    {
        if diff_hunks[i].contains(hunk) {
            return true;
        }
        i += 1;
    }
    false
}

/// Parts the requested hunks into those that name a part of a hunk of the
/// diff and those that do not.
fn part_hunks(diff_hunks: &Vec<HunkHeader>, requested: &Vec<HunkHeader>) -> (r: (
    Vec<HunkHeader>,
    Vec<HunkHeader>,
))
    ensures
        r.0@ == good_hunks(diff_hunks@, requested@),
        r.1@ == bad_hunks(diff_hunks@, requested@),
{
    let mut good: Vec<HunkHeader> = Vec::new();
    let mut bad: Vec<HunkHeader> = Vec::new();
    let ghost is_in = |hunk: HunkHeader| is_good(diff_hunks@, hunk);
    let ghost is_out = |hunk: HunkHeader| !is_good(diff_hunks@, hunk);
    let mut i: usize = 0;
    while i < requested.len()
        invariant
            i <= requested.len(),
            is_in == |hunk: HunkHeader| is_good(diff_hunks@, hunk),
            is_out == |hunk: HunkHeader| !is_good(diff_hunks@, hunk),
            good@ == requested@.take(i as int).filter(is_in),
            bad@ == requested@.take(i as int).filter(is_out),
        decreases requested.len() - i,
    {
        let hunk = requested[i];
        proof {
            assert(requested@.take(i + 1) =~= requested@.take(i as int).push(hunk));
            requested@.take(i as int).lemma_filter_push(hunk, is_in);
            requested@.take(i as int).lemma_filter_push(hunk, is_out);
        }
        if lies_within_any(diff_hunks, hunk) {
            good.push(hunk);
        } else {
            bad.push(hunk);
        }
        i += 1;
    }
    assert(requested@.take(requested@.len() as int) =~= requested@);
    (good, bad)
}

/// Discards hunks of a file that both trees hold, the tree after the change
/// as a regular file.
///
/// The requested hunks that name a part of a hunk of `patch` are taken out of
/// the diff, and what stays of the diff is applied to the content before the
/// change. The result is the edit that gives the file this content, and what
/// could not be discarded: the change with just the hunks that name no part
/// of any hunk of the diff, if there are any. The file keeps the kind of `after`
/// unless its content is again what it was before; then it gets the kind of
/// `before`.
pub fn discard_hunks(change: &DiffSpec, before: &TreeEntry, after: &TreeEntry, patch: &Patch) -> (r:
    Result<(TreeEdit, Option<DiffSpec>), DiscardError>)
    ensures
        match r {
            Ok((edit, undiscardable)) => hunk_discard(change@, *before, *after, patch@) == Ok::<
                Outcome,
                DiscardError,
            >(
                Outcome {
                    edits: seq![edit@],
                    undiscardable: match undiscardable {
                        Some(spec) => seq![spec@],
                        None => Seq::empty(),
                    },
                },
            ),
            Err(e) => hunk_discard(change@, *before, *after, patch@) == Err::<
                Outcome,
                DiscardError,
            >(e),
        },
{
    let (good, bad) = part_hunks(&patch.hunks, &change.hunk_headers);
    let undiscardable = if bad.len() > 0 {
        Some(
            DiffSpec {
                previous_path_bytes: match &change.previous_path_bytes {
                    Some(path) => Some(copy_bytes(path)),
                    None => None,
                },
                path_bytes: copy_bytes(&change.path_bytes),
                hunk_headers: bad,
            },
        )
    } else {
        None
    };
    let kept = match new_hunks_after_removals(copy_hunks(&patch.hunks), good) {
        Ok(kept) => kept,
        Err(e) => {
            return Err(DiscardError::Subtract(e));
        },
    };
    let content = match apply_hunks(
        patch.before_content.as_slice(),
        patch.after_content.as_slice(),
        kept.as_slice(),
    ) {
        Ok(content) => content,
        Err(e) => {
            return Err(DiscardError::Apply(e));
        },
    };
    let kind = if same_bytes(&content, &patch.before_content) {
        before.kind
    } else {
        after.kind
    };
    let edit = TreeEdit::UpsertBlob { path: copy_bytes(&change.path_bytes), kind, content };
    Ok((edit, undiscardable))
}

/// Discards one change.
///
/// - Neither tree holds the file: nothing can be done, and the change comes
///   back as it is.
/// - Only the tree before holds it: with no hunks, its entry is put back at
///   the path of the change; with hunks, the call fails.
/// - The tree after holds it as a regular file, and hunks are given: the call
///   fails where the tree before lacks the file or there is no textual diff;
///   else the hunks are discarded as `discard_hunks` says.
/// - In every other case the file is brought back to what the tree before
///   held, as `revert_file_to_before_state` says, whatever the hunks.
pub fn discard_change(observed: &ObservedChange) -> (r: Result<
    (Vec<TreeEdit>, Vec<DiffSpec>),
    DiscardError,
>)
    ensures
        match r {
            Ok((edits, undiscardable)) => spec_discard_change(observed@) == Ok::<
                Outcome,
                DiscardError,
            >(
                Outcome {
                    edits: edit_views(edits@),
                    undiscardable: change_views(undiscardable@),
                },
            ),
            Err(e) => spec_discard_change(observed@) == Err::<Outcome, DiscardError>(e),
        },
{
    let change = &observed.change;
    let mut edits: Vec<TreeEdit> = Vec::new();
    let mut undiscardable: Vec<DiffSpec> = Vec::new();
    match &observed.after_entry {
        None => match &observed.before_entry {
            None => {
                undiscardable.push(change.clone());
                assert(change_views(undiscardable@) =~= seq![change@]);
                assert(edit_views(edits@) =~= Seq::empty());
            },
            Some(before) => {
                if change.hunk_headers.len() == 0 {
                    edits.push(
                        TreeEdit::Upsert {
                            path: copy_bytes(&change.path_bytes),
                            kind: before.kind,
                            id: before.id,
                        },
                    );
                    assert(edit_views(edits@) =~= seq![
                        TreeEditView::Upsert {
                            path: change@.path_bytes,
                            kind: before.kind,
                            id: before.id,
                        },
                    ]);
                    assert(change_views(undiscardable@) =~= Seq::empty());
                } else {
                    return Err(DiscardError::HunksOnAdditionOrDeletion);
                }
            },
        },
        Some(after) => {
            if after.kind.is_blob() && change.hunk_headers.len() > 0 {
                let before = match &observed.before_entry {
                    Some(before) => before,
                    None => {
                        return Err(DiscardError::HunksOnAdditionOrDeletion);
                    },
                };
                let patch = match &observed.patch {
                    Some(patch) => patch,
                    None => {
                        return Err(DiscardError::ExpectedPatch);
                    },
                };
                let (edit, rejected) = discard_hunks(change, before, after, patch)?;
                edits.push(edit);
                assert(edit_views(edits@) =~= seq![edit@]);
                match rejected {
                    Some(spec) => {
                        undiscardable.push(spec);
                        assert(change_views(undiscardable@) =~= seq![spec@]);
                    },
                    None => {
                        assert(change_views(undiscardable@) =~= Seq::empty());
                    },
                }
            } else {
                assert(edit_views(edits@) =~= Seq::empty());
                revert_file_to_before_state(&observed.before_entry, &mut edits, change);
                assert(edit_views(edits@) =~= revert_edits(observed.before_entry, change@));
                assert(change_views(undiscardable@) =~= Seq::empty());
            }
        },
    }
    Ok((edits, undiscardable))
}

/// Discards `changes_to_discard`, one after the other, and returns the edits
/// that undo them on the tree after the changes, with the changes that could
/// not be discarded.
///
/// Each change is handled as `discard_change` says, from what is observed of
/// it alone. The edits come in the order of the changes. A change that cannot
/// be matched is no error: it comes back in the second list, whole or with
/// the hunks that matched nothing. The first change that fails ends the call
/// with its error.
pub fn create_tree_without_diff(changes_to_discard: &[ObservedChange]) -> (r: Result<
    (Vec<TreeEdit>, Vec<DiffSpec>),
    DiscardError,
>)
    ensures
        match r {
            Ok((edits, undiscardable)) => spec_discard_all(observed_views(changes_to_discard@))
                == Ok::<Outcome, DiscardError>(
                Outcome {
                    edits: edit_views(edits@),
                    undiscardable: change_views(undiscardable@),
                },
            ),
            Err(e) => spec_discard_all(observed_views(changes_to_discard@)) == Err::<
                Outcome,
                DiscardError,
            >(e),
        },
{
    let ghost all = observed_views(changes_to_discard@);
    let mut edits: Vec<TreeEdit> = Vec::new();
    let mut dropped: Vec<DiffSpec> = Vec::new();
    let mut i: usize = 0;
    proof {
        assert(all.skip(0) =~= all);
        match spec_discard_all(all) {
            Ok(rest) => {
                assert(edit_views(edits@) + rest.edits =~= rest.edits);
                assert(change_views(dropped@) + rest.undiscardable =~= rest.undiscardable);
            },
            Err(_) => {},
        }
    }
    while i < changes_to_discard.len()
        invariant
            i <= changes_to_discard.len(),
            all == observed_views(changes_to_discard@),
            spec_discard_all(all) == after_outcome(
                edit_views(edits@),
                change_views(dropped@),
                spec_discard_all(all.skip(i as int)),
            ),
        decreases changes_to_discard.len() - i,
    {
        let ghost rest = all.skip(i as int);
        let ghost edits_before = edit_views(edits@);
        let ghost dropped_before = change_views(dropped@);
        proof {
            assert(rest[0] == changes_to_discard@[i as int]@);
            assert(rest.skip(1) =~= all.skip(i + 1));
        }
        let (mut more_edits, mut more_dropped) = discard_change(&changes_to_discard[i])?;
        let ghost first_edits = edit_views(more_edits@);
        let ghost first_dropped = change_views(more_dropped@);
        edits.append(&mut more_edits);
        dropped.append(&mut more_dropped);
        proof {
            assert(edit_views(edits@) =~= edits_before + first_edits);
            assert(change_views(dropped@) =~= dropped_before + first_dropped);
            match spec_discard_all(rest.skip(1)) {
                Ok(tail) => {
                    assert(edits_before + (first_edits + tail.edits) =~= edit_views(edits@)
                        + tail.edits);
                    assert(dropped_before + (first_dropped + tail.undiscardable) =~= change_views(
                        dropped@,
                    ) + tail.undiscardable);
                },
                Err(_) => {},
            }
        }
        i += 1;
    }
    proof {
        assert(edit_views(edits@) + Seq::<TreeEditView>::empty() =~= edit_views(edits@));
        assert(change_views(dropped@) + Seq::<DiffSpecView>::empty() =~= change_views(dropped@));
    }
    Ok((edits, dropped))
}

/// `rest` with `edits` and `undiscardable` put before what it holds.
pub open spec fn after_outcome(
    edits: Seq<TreeEditView>,
    undiscardable: Seq<DiffSpecView>,
    rest: Result<Outcome, DiscardError>,
) -> Result<Outcome, DiscardError> {
    match rest {
        Ok(rest) => Ok(
            Outcome {
                edits: edits + rest.edits,
                undiscardable: undiscardable + rest.undiscardable,
            },
        ),
        Err(e) => Err(e),
    }
}

} // verus!
