//! Bringing a working directory in line with a tree: what to do for each
//! change between the two, step by step.
//!
//! Nothing here touches a file. Each function takes what was seen of the
//! working directory and answers with what is to be done to it.

use vstd::prelude::*;
use vstd::string::StringSliceAdditionalSpecFns;
use crate::bytes::{append_bytes, append_hex, append_text, copy_bytes, hex, same_bytes};
use crate::object::{EntryKind, ObjectId};

verus! {

/// How a path of the working directory differs from the tree to reach.
#[derive(Debug, PartialEq, Eq)]
pub enum TreeStatus {
    /// The tree has the entry, the working directory has not.
    Addition,
    /// The working directory has the entry, the tree has not.
    Deletion,
    /// Both have the entry, and it differs.
    Modification,
    /// The tree has under the path what the working directory has under
    /// `previous_path`.
    Rename { previous_path: Vec<u8> },
}

/// A `TreeStatus` as plain values.
pub enum TreeStatusView {
    Addition,
    Deletion,
    Modification,
    Rename { previous_path: Seq<u8> },
}

impl View for TreeStatus {
    type V = TreeStatusView;

    open spec fn view(&self) -> TreeStatusView {
        match self {
            TreeStatus::Addition => TreeStatusView::Addition,
            TreeStatus::Deletion => TreeStatusView::Deletion,
            TreeStatus::Modification => TreeStatusView::Modification,
            TreeStatus::Rename { previous_path } => TreeStatusView::Rename {
                previous_path: previous_path@,
            },
        }
    }
}

/// One difference between the working directory and the tree to reach.
#[derive(Debug, PartialEq, Eq)]
pub struct TreeChange {
    /// The path in the tree to reach; for a deletion, in the working directory.
    pub path: Vec<u8>,
    pub status: TreeStatus,
}

/// Whether the entry to write is new to the working directory.
#[derive(Clone, Copy, Debug, PartialEq, Eq, Structural)]
pub enum WriteKind {
    Addition,
    Modification,
}

/// One thing to do to the working directory.
#[derive(Debug, PartialEq, Eq)]
pub enum WorktreeStep {
    /// Remove the file at `path`.
    RemoveFile { path: Vec<u8> },
    /// Write what the tree holds at `path` to the working directory.
    WriteEntry { path: Vec<u8>, write_kind: WriteKind },
}

/// A `WorktreeStep` as plain values.
pub enum WorktreeStepView {
    RemoveFile { path: Seq<u8> },
    WriteEntry { path: Seq<u8>, write_kind: WriteKind },
}

impl View for WorktreeStep {
    type V = WorktreeStepView;

    open spec fn view(&self) -> WorktreeStepView {
        match self {
            WorktreeStep::RemoveFile { path } => WorktreeStepView::RemoveFile { path: path@ },
            WorktreeStep::WriteEntry { path, write_kind } => WorktreeStepView::WriteEntry {
                path: path@,
                write_kind: *write_kind,
            },
        }
    }
}

/// The steps as plain values.
pub open spec fn step_views(steps: Seq<WorktreeStep>) -> Seq<WorktreeStepView> {
    steps.map_values(|step: WorktreeStep| step@)
}

/// What to do for one change.
///
/// - A deletion: the file goes.
/// - An addition: the entry is written, as an addition.
/// - A modification: the entry is written, as a modification.
/// - A rename: the file at the previous path goes, unless a directory stands
///   there, which is left alone with all it holds; then the entry is written
///   at the path, as an addition.
pub open spec fn spec_steps_for_change(
    path: Seq<u8>,
    status: TreeStatusView,
    previous_path_is_directory: bool,
) -> Seq<WorktreeStepView> {
    match status {
        TreeStatusView::Deletion => seq![WorktreeStepView::RemoveFile { path }],
        TreeStatusView::Addition => seq![
            WorktreeStepView::WriteEntry { path, write_kind: WriteKind::Addition },
        ],
        TreeStatusView::Modification => seq![
            WorktreeStepView::WriteEntry { path, write_kind: WriteKind::Modification },
        ],
        TreeStatusView::Rename { previous_path } => if previous_path_is_directory {
            seq![WorktreeStepView::WriteEntry { path, write_kind: WriteKind::Addition }]
        } else {
            seq![
                WorktreeStepView::RemoveFile { path: previous_path },
                WorktreeStepView::WriteEntry { path, write_kind: WriteKind::Addition },
            ]
        },
    }
}

/// Says what to do to the working directory for one change between it and the
/// tree to reach. `previous_path_is_directory` is looked at for a rename only:
/// it says whether a directory stands at the previous path right now.
pub fn steps_for_change(change: &TreeChange, previous_path_is_directory: bool) -> (steps: Vec<
    WorktreeStep,
>)
    ensures
        step_views(steps@) == spec_steps_for_change(
            change.path@,
            change.status@,
            previous_path_is_directory,
        ),
{
    let mut steps: Vec<WorktreeStep> = Vec::new();
    match &change.status {
        TreeStatus::Deletion => {
            steps.push(WorktreeStep::RemoveFile { path: copy_bytes(&change.path) });
        },
        TreeStatus::Addition => {
            steps.push(
                WorktreeStep::WriteEntry {
                    path: copy_bytes(&change.path),
                    write_kind: WriteKind::Addition,
                },
            );
        },
        TreeStatus::Modification => {
            steps.push(
                WorktreeStep::WriteEntry {
                    path: copy_bytes(&change.path),
                    write_kind: WriteKind::Modification,
                },
            );
        },
        TreeStatus::Rename { previous_path } => {
            if !previous_path_is_directory {
                steps.push(WorktreeStep::RemoveFile { path: copy_bytes(previous_path) });
            }
            steps.push(
                WorktreeStep::WriteEntry {
                    path: copy_bytes(&change.path),
                    write_kind: WriteKind::Addition,
                },
            );
        },
    }
    assert(step_views(steps@) =~= spec_steps_for_change(
        change.path@,
        change.status@,
        previous_path_is_directory,
    ));
    steps
}

/// How an entry of a tree gets into the working directory.
#[derive(Clone, Copy, Debug, PartialEq, Eq, Structural)]
pub enum EntryWrite {
    /// Write the bytes of the blob to a file, and set or clear its executable
    /// bits.
    File { executable: bool },
    /// Make a symbolic link to the target that the blob names.
    Symlink,
    /// Reset the repository that is there to the commit, and clean it.
    ResetSubmodule,
    /// Check the submodule out from its local clone, if there is one; else
    /// leave an empty directory in its place.
    RestoreSubmodule,
}

/// How an entry of `kind` gets into the working directory.
pub open spec fn spec_write_entry(kind: EntryKind, write_kind: WriteKind) -> EntryWrite {
    match kind {
        EntryKind::Blob => EntryWrite::File { executable: false },
        EntryKind::BlobExecutable => EntryWrite::File { executable: true },
        EntryKind::Link => EntryWrite::Symlink,
        _ => match write_kind {
            WriteKind::Modification => EntryWrite::ResetSubmodule,
            WriteKind::Addition => EntryWrite::RestoreSubmodule,
        },
    }
}

/// Says how an entry of `kind` gets into the working directory.
///
/// A regular file is written out, with its executable bits set or cleared by
/// its kind; a link becomes a symbolic link. A submodule that was there is
/// reset to its commit; one that was not there is restored. A change between
/// a working directory and a tree never names a directory, so `kind` is never
/// `Tree`.
pub fn write_entry(kind: EntryKind, write_kind: WriteKind) -> (r: EntryWrite)
    requires
        kind != EntryKind::Tree,
    ensures
        r == spec_write_entry(kind, write_kind),
{
    match kind {
        EntryKind::Blob => EntryWrite::File { executable: false },
        EntryKind::BlobExecutable => EntryWrite::File { executable: true },
        EntryKind::Link => EntryWrite::Symlink,
        _ => match write_kind {
            WriteKind::Modification => EntryWrite::ResetSubmodule,
            WriteKind::Addition => EntryWrite::RestoreSubmodule,
        },
    }
}

/// The permission bits of a file that is, or is not, to be executable: the
/// three executable bits are set, or cleared, and the other bits stay.
pub fn file_mode(mode: u32, executable: bool) -> (r: u32)
    ensures
        r == if executable {
            mode | 0o111
        } else {
            mode & !0o111u32
        },
{
    if executable {
        mode | 0o111
    } else {
        mode & !0o111u32
    }
}

/// What stands at a path of the file system.
#[derive(Clone, Copy, Debug, PartialEq, Eq, Structural)]
pub enum PathState {
    /// Nothing.
    Missing,
    /// Something that is no directory.
    File,
    /// A directory.
    Directory,
}

/// One thing to do before an entry can be written to its place.
#[derive(Clone, Copy, Debug, PartialEq, Eq, Structural)]
pub enum PrepareStep {
    /// Remove the file that stands where the parent directory belongs.
    RemoveParentFile,
    /// Create the parent directory, with the directories above it.
    CreateParentDirs,
    /// Remove the directory that stands in the place of the entry, with all
    /// it holds.
    RemoveDestinationDir,
    /// Remove the file that stands in the place of the entry.
    RemoveDestinationFile,
}

/// The place to write to has no parent directory.
#[derive(Clone, Copy, Debug, PartialEq, Eq, Structural)]
pub struct NoParentDirectory;

impl NoParentDirectory {
    /// The error in words.
    pub fn message(&self) -> (r: &'static str)
        ensures
            r@ == "paths will always have a parent"@,
    {
        "paths will always have a parent"
    }
}

/// What to do before an entry can be written to its place.
pub open spec fn spec_prepare_path(parent: Option<PathState>, destination: PathState) -> Result<
    Seq<PrepareStep>,
    NoParentDirectory,
> {
    match parent {
        None => Err(NoParentDirectory),
        Some(PathState::Missing) => Ok(seq![PrepareStep::CreateParentDirs]),
        Some(PathState::File) => Ok(
            seq![PrepareStep::RemoveParentFile, PrepareStep::CreateParentDirs],
        ),
        Some(PathState::Directory) => match destination {
            PathState::Missing => Ok(Seq::empty()),
            PathState::File => Ok(seq![PrepareStep::RemoveDestinationFile]),
            PathState::Directory => Ok(seq![PrepareStep::RemoveDestinationDir]),
        },
    }
}

/// Says what to do before an entry can be written to its place, from what
/// stands at the parent of the place (`None`: the place has no parent) and at
/// the place itself.
///
/// The parent is made a directory: one that is missing is created, and a file
/// in its place is removed first. Below a parent that was just created
/// nothing stands, so `destination` counts only where the parent was a
/// directory already; what stands there is then removed, a directory with all
/// it holds.
pub fn prepare_path(parent: Option<PathState>, destination: PathState) -> (r: Result<
    Vec<PrepareStep>,
    NoParentDirectory,
>)
    ensures
        match r {
            Ok(steps) => spec_prepare_path(parent, destination) == Ok::<
                Seq<PrepareStep>,
                NoParentDirectory,
            >(steps@),
            Err(e) => spec_prepare_path(parent, destination) == Err::<
                Seq<PrepareStep>,
                NoParentDirectory,
            >(e),
        },
{
    let mut steps: Vec<PrepareStep> = Vec::new();
    match parent {
        None => {
            return Err(NoParentDirectory);
        },
        Some(PathState::Missing) => {
            steps.push(PrepareStep::CreateParentDirs);
        },
        Some(PathState::File) => {
            steps.push(PrepareStep::RemoveParentFile);
            steps.push(PrepareStep::CreateParentDirs);
        },
        Some(PathState::Directory) => match destination {
            PathState::Missing => {},
            PathState::File => {
                steps.push(PrepareStep::RemoveDestinationFile);
            },
            PathState::Directory => {
                steps.push(PrepareStep::RemoveDestinationDir);
            },
        },
    }
    assert(spec_prepare_path(parent, destination) matches Ok(expected) && steps@ =~= expected);
    Ok(steps)
}

/// What stands at the parent and at the place once a step is made. A step
/// that finds nothing to work on leaves things as they are.
pub open spec fn after_step(state: (PathState, PathState), step: PrepareStep) -> (
    PathState,
    PathState,
) {
    let (parent, destination) = state;
    match step {
        PrepareStep::RemoveParentFile => if parent == PathState::File {
            (PathState::Missing, PathState::Missing)
        } else {
            state
        },
        PrepareStep::CreateParentDirs => if parent == PathState::Missing {
            (PathState::Directory, PathState::Missing)
        } else {
            state
        },
        PrepareStep::RemoveDestinationDir => if destination == PathState::Directory {
            (parent, PathState::Missing)
        } else {
            state
        },
        PrepareStep::RemoveDestinationFile => if destination == PathState::File {
            (parent, PathState::Missing)
        } else {
            state
        },
    }
}

/// What stands at the parent and at the place once the steps are made, in
/// order.
pub open spec fn after_steps(state: (PathState, PathState), steps: Seq<PrepareStep>) -> (
    PathState,
    PathState,
)
    decreases steps.len(),
{
    if steps.len() == 0 {
        state
    } else {
        after_steps(after_step(state, steps[0]), steps.skip(1))
    }
}

/// Once a place is prepared, its parent is a directory and nothing stands at
/// the place. Below a parent that is no directory nothing can stand.
pub proof fn lemma_prepared_path_is_free(parent: PathState, destination: PathState)
    requires
        parent != PathState::Directory ==> destination == PathState::Missing,
    ensures
        spec_prepare_path(Some(parent), destination) matches Ok(steps) && after_steps(
            (parent, destination),
            steps,
        ) == (PathState::Directory, PathState::Missing),
{
    let steps = spec_prepare_path(Some(parent), destination)->Ok_0;
    reveal_with_fuel(after_steps, 3);
    if steps.len() == 2 {
        assert(steps.skip(1)[0] == steps[1]);
        assert(steps.skip(1).skip(1).len() == 0);
    } else if steps.len() == 1 {
        assert(steps.skip(1).len() == 0);
    }
}

/// What is known of a submodule that the repository is set up with.
#[derive(Debug, PartialEq, Eq)]
pub struct Submodule {
    /// Whether the submodule is active; `None` where that could not be told.
    pub active: Option<bool>,
    /// The path of the submodule in the working directory; `None` where it
    /// could not be told.
    pub path: Option<Vec<u8>>,
}

impl Submodule {
    /// The submodule is known to be active and to live at `relative_path`.
    pub open spec fn lives_at(self, relative_path: Seq<u8>) -> bool {
        &&& self.active == Some(true)
        &&& self.path matches Some(path)
        &&& path@ == relative_path
    }
}

/// Finds the submodule to restore at `relative_path`: the first one that is
/// known to be active and to live at that path.
pub fn select_submodule(submodules: &[Submodule], relative_path: &Vec<u8>) -> (r: Option<usize>)
    ensures
        match r {
            Some(at) => at < submodules@.len() && submodules@[at as int].lives_at(relative_path@)
                && forall|k: int|
                0 <= k < at ==> !(#[trigger] submodules@[k]).lives_at(relative_path@),
            None => forall|k: int|
                0 <= k < submodules@.len() ==> !(#[trigger] submodules@[k]).lives_at(
                    relative_path@,
                ),
        },
{
    let mut at: usize = 0;
    while at < submodules.len()
        invariant
            at <= submodules.len(),
            forall|k: int| 0 <= k < at ==> !(#[trigger] submodules@[k]).lives_at(relative_path@),
        decreases submodules.len() - at,
    {
        let submodule = &submodules[at];
        let active = match submodule.active {
            Some(active) => active,
            None => false,
        };
        let here = match &submodule.path {
            Some(path) => same_bytes(path, relative_path),
            None => false,
        };
        if active && here {
            return Some(at);
        }
        at += 1;
    }
    None
}

/// The command that resets a submodule to the commit `id` and cleans it.
pub fn reset_command(id: &ObjectId) -> (r: Vec<u8>)
    ensures
        r@ == "git reset --hard ".spec_bytes() + hex(id.bytes@) + " && git clean -fxd".spec_bytes(),
{
    let mut out: Vec<u8> = Vec::new();
    append_text(&mut out, "git reset --hard ");
    append_hex(&mut out, id.bytes.as_slice());
    append_text(&mut out, " && git clean -fxd");
    assert(out@ =~= "git reset --hard ".spec_bytes() + hex(id.bytes@)
        + " && git clean -fxd".spec_bytes());
    out
}

/// A submodule could not be reset.
#[derive(Debug, PartialEq, Eq)]
pub struct ResetFailed {
    /// The directory of the submodule.
    pub directory: Vec<u8>,
    /// The commit it was to be reset to.
    pub commit: ObjectId,
    /// What the command wrote to its error output.
    pub diagnostics: Vec<u8>,
}

impl ResetFailed {
    /// The error in words: the directory, the commit and what the command had
    /// to say.
    pub fn message(&self) -> (r: Vec<u8>)
        ensures
            r@ == "Could not reset submodule at '".spec_bytes() + self.directory@
                + "' to commit ".spec_bytes() + hex(self.commit.bytes@) + ": ".spec_bytes()
                + self.diagnostics@,
    {
        let mut out: Vec<u8> = Vec::new();
        append_text(&mut out, "Could not reset submodule at '");
        append_bytes(&mut out, self.directory.as_slice());
        append_text(&mut out, "' to commit ");
        append_hex(&mut out, self.commit.bytes.as_slice());
        append_text(&mut out, ": ");
        append_bytes(&mut out, self.diagnostics.as_slice());
        assert(out@ =~= "Could not reset submodule at '".spec_bytes() + self.directory@
            + "' to commit ".spec_bytes() + hex(self.commit.bytes@) + ": ".spec_bytes()
            + self.diagnostics@);
        out
    }
}

/// Judges how the reset of a submodule went: a command that did not end well
/// fails the reset, with what it wrote to its error output.
pub fn reset_outcome(succeeded: bool, directory: &Vec<u8>, commit: ObjectId, diagnostics: &Vec<u8>)
    -> (r: Result<(), ResetFailed>)
    ensures
        succeeded <==> r is Ok,
        r matches Err(e) ==> e.directory@ == directory@ && e.commit == commit && e.diagnostics@
            == diagnostics@,
{
    if succeeded {
        Ok(())
    } else {
        Err(
            ResetFailed {
                directory: copy_bytes(directory),
                commit,
                diagnostics: copy_bytes(diagnostics),
            },
        )
    }
}

/// The kind of an entry of an index.
#[derive(Clone, Copy, Debug, PartialEq, Eq, Structural)]
pub enum IndexEntryKind {
    Dir,
    File,
    FileExecutable,
    Symlink,
    Commit,
}

impl IndexEntryKind {
    /// A checkout of all files leaves the entry out: it is a directory or a
    /// submodule, which are not written like files.
    pub open spec fn spec_skips_worktree(self) -> bool {
        self == IndexEntryKind::Dir || self == IndexEntryKind::Commit
    }

    /// Whether a checkout of all files leaves the entry out.
    pub fn skips_worktree(&self) -> (r: bool)
        ensures
            r == self.spec_skips_worktree(),
    {
        match self {
            IndexEntryKind::Dir => true,
            IndexEntryKind::Commit => true,
            _ => false,
        }
    }
}

/// The content of a `.git` file that points to `relative_git_dir`.
pub open spec fn gitdir_line(relative_git_dir: Seq<u8>) -> Seq<u8> {
    "gitdir: ".spec_bytes() + relative_git_dir + seq![10u8]
}

/// Says, for each entry of an index that is to be checked out into a fresh
/// directory, whether the checkout leaves it out: it does so for directories
/// and submodules. With no entry in the index there is nothing to check out,
/// and the answer is `None`.
pub fn skip_worktree_marks(entries: &[IndexEntryKind]) -> (r: Option<Vec<bool>>)
    ensures
        entries@.len() == 0 <==> r is None,
        r matches Some(marks) ==> marks@ == entries@.map_values(
            |kind: IndexEntryKind| kind.spec_skips_worktree(),
        ),
{
    if entries.len() == 0 {
        return None;
    }
    let mut marks: Vec<bool> = Vec::new();
    let mut i: usize = 0;
    while i < entries.len()
        invariant
            i <= entries.len(),
            marks@ == entries@.take(i as int).map_values(
                |kind: IndexEntryKind| kind.spec_skips_worktree(),
            ),
        decreases entries.len() - i,
    {
        marks.push(entries[i].skips_worktree());
        proof {
            assert(entries@.take(i + 1) =~= entries@.take(i as int).push(entries@[i as int]));
            assert(marks@ =~= entries@.take(i + 1).map_values(
                |kind: IndexEntryKind| kind.spec_skips_worktree(),
            ));
        }
        i += 1;
    }
    assert(entries@.take(entries@.len() as int) =~= entries@);
    Some(marks)
}

/// The content of the `.git` file of a directory that a repository was
/// checked out into: `gitdir: `, then the path from the directory to where
/// the repository keeps its data, then a line feed.
pub fn gitdir_file(relative_git_dir: &[u8]) -> (r: Vec<u8>)
    ensures
        r@ == gitdir_line(relative_git_dir@),
{
    let mut out: Vec<u8> = Vec::new();
    append_text(&mut out, "gitdir: ");
    append_bytes(&mut out, relative_git_dir);
    out.push(10u8);
    assert(out@ =~= gitdir_line(relative_git_dir@));
    out
}

/// One change that `git status` reports.
#[derive(Debug, PartialEq, Eq)]
pub enum StatusItem {
    /// The working directory differs from the index at the path.
    IndexWorktree { rela_path: Vec<u8> },
    /// The index differs from the tree of `HEAD` at the path.
    TreeIndex { rela_path: Vec<u8> },
}

impl StatusItem {
    /// The item says that the index differs from the tree at `path`.
    pub open spec fn is_staged_at(self, path: Seq<u8>) -> bool {
        self matches StatusItem::TreeIndex { rela_path } && rela_path@ == path
    }

    /// The item says that the working directory differs from the index at
    /// `path`.
    pub open spec fn is_unstaged_at(self, path: Seq<u8>) -> bool {
        self matches StatusItem::IndexWorktree { rela_path } && rela_path@ == path
    }
}

/// The index is to be updated at `path`: some item says that the index
/// differs from the tree there, and none that the working directory differs
/// from the index there.
pub open spec fn is_to_update(items: Seq<StatusItem>, path: Seq<u8>) -> bool {
    &&& exists|i: int| 0 <= i < items.len() && (#[trigger] items[i]).is_staged_at(path)
    &&& forall|j: int| 0 <= j < items.len() ==> !(#[trigger] items[j]).is_unstaged_at(path)
}

/// The paths as plain values.
pub open spec fn path_views(paths: Seq<Vec<u8>>) -> Seq<Seq<u8>> {
    paths.map_values(|path: Vec<u8>| path@)
}

/// Whether `paths` holds `path`.
fn holds_path(paths: &Vec<Vec<u8>>, path: &Vec<u8>) -> (r: bool)
    ensures
        r == path_views(paths@).contains(path@),
{
    let mut i: usize = 0;
    while i < paths.len()
        invariant
            i <= paths.len(),
            forall|k: int| 0 <= k < i ==> path_views(paths@)[k] != path@,
        decreases paths.len() - i,
    {
        if same_bytes(&paths[i], path) {
            assert(path_views(paths@)[i as int] == path@);
            return true;
        }
        i += 1;
    }
    false
}

/// Returns the paths at which the index is to be updated: those at which
/// the index differs from the tree of `HEAD` while the working directory does
/// not differ from the index. Each path comes once.
pub fn index_entries_to_update(status_changes: &[StatusItem]) -> (paths: Vec<Vec<u8>>)
    ensures
        path_views(paths@).no_duplicates(),
        forall|path: Seq<u8>|
            path_views(paths@).contains(path) <==> is_to_update(status_changes@, path),
{
    let mut unstaged: Vec<Vec<u8>> = Vec::new();
    let mut i: usize = 0;
    while i < status_changes.len()
        invariant
            i <= status_changes.len(),
            forall|path: Seq<u8>|
                path_views(unstaged@).contains(path) <==> exists|j: int|
                    0 <= j < i && (#[trigger] status_changes@[j]).is_unstaged_at(path),
        decreases status_changes.len() - i,
    {
        let ghost before = path_views(unstaged@);
        if let StatusItem::IndexWorktree { rela_path } = &status_changes[i] {
            unstaged.push(copy_bytes(rela_path));
            proof {
                let after = path_views(unstaged@);
                assert(after =~= before.push(rela_path@));
                assert forall|path: Seq<u8>| after.contains(path) <==> exists|j: int|
                    0 <= j < i + 1 && (#[trigger] status_changes@[j]).is_unstaged_at(path) by {
                    if after.contains(path) {
                        let k = choose|k: int| 0 <= k < after.len() && after[k] == path;
                        if k < before.len() {
                            assert(before[k] == path);
                            assert(before.contains(path));
                        } else {
                            assert(status_changes@[i as int].is_unstaged_at(path));
                        }
                    }
                    if exists|j: int|
                        0 <= j < i + 1 && (#[trigger] status_changes@[j]).is_unstaged_at(path) {
                        let j = choose|j: int|
                            0 <= j < i + 1 && (#[trigger] status_changes@[j]).is_unstaged_at(path);
                        if j < i {
                            assert(before.contains(path));
                            let k = choose|k: int| 0 <= k < before.len() && before[k] == path;
                            assert(after[k] == path);
                        } else {
                            assert(after[after.len() - 1] == path);
                        }
                    }
                }
            }
        } else {
            proof {
                assert forall|path: Seq<u8>| before.contains(path) <==> exists|j: int|
                    0 <= j < i + 1 && (#[trigger] status_changes@[j]).is_unstaged_at(path) by {
                    if exists|j: int|
                        0 <= j < i + 1 && (#[trigger] status_changes@[j]).is_unstaged_at(path) {
                        let j = choose|j: int|
                            0 <= j < i + 1 && (#[trigger] status_changes@[j]).is_unstaged_at(path);
                        assert(j < i);
                    }
                }
            }
        }
        i += 1;
    }

    let mut paths: Vec<Vec<u8>> = Vec::new();
    let mut n: usize = 0;
    while n < status_changes.len()
        invariant
            n <= status_changes.len(),
            forall|path: Seq<u8>|
                path_views(unstaged@).contains(path) <==> exists|j: int|
                    0 <= j < status_changes@.len() && (#[trigger] status_changes@[j]).is_unstaged_at(
                        path,
                    ),
            path_views(paths@).no_duplicates(),
            forall|path: Seq<u8>|
                path_views(paths@).contains(path) <==> (exists|j: int|
                    0 <= j < n && (#[trigger] status_changes@[j]).is_staged_at(path))
                    && !path_views(unstaged@).contains(path),
        decreases status_changes.len() - n,
    {
        let ghost before = path_views(paths@);
        let mut pushed = false;
        if let StatusItem::TreeIndex { rela_path } = &status_changes[n] {
            if !holds_path(&unstaged, rela_path) && !holds_path(&paths, rela_path) {
                paths.push(copy_bytes(rela_path));
                pushed = true;
            }
        }
        proof {
            let after = path_views(paths@);
            if pushed {
                let added = status_changes@[n as int]->TreeIndex_rela_path@;
                assert(after =~= before.push(added));
                assert(after.no_duplicates()) by {
                    assert forall|a: int, b: int|
                        0 <= a < after.len() && 0 <= b < after.len() && a != b implies after[a]
                        != after[b] by {
                        if a == after.len() - 1 {
                            assert(before[b] == after[b]);
                            assert(before.contains(after[b]));
                        } else if b == after.len() - 1 {
                            assert(before[a] == after[a]);
                            assert(before.contains(after[a]));
                        } else {
                            assert(before[a] == after[a] && before[b] == after[b]);
                        }
                    }
                }
            } else {
                assert(after =~= before);
            }
            assert forall|path: Seq<u8>| after.contains(path) <==> (exists|j: int|
                0 <= j < n + 1 && (#[trigger] status_changes@[j]).is_staged_at(path))
                && !path_views(unstaged@).contains(path) by {
                if after.contains(path) {
                    let k = choose|k: int| 0 <= k < after.len() && after[k] == path;
                    if k < before.len() {
                        assert(before[k] == path);
                        assert(before.contains(path));
                        let j = choose|j: int|
                            0 <= j < n && (#[trigger] status_changes@[j]).is_staged_at(path);
                        assert(0 <= j < n + 1);
                    } else {
                        assert(status_changes@[n as int].is_staged_at(path));
                    }
                }
                if (exists|j: int|
                    0 <= j < n + 1 && (#[trigger] status_changes@[j]).is_staged_at(path))
                    && !path_views(unstaged@).contains(path) {
                    let j = choose|j: int|
                        0 <= j < n + 1 && (#[trigger] status_changes@[j]).is_staged_at(path);
                    if j < n {
                        assert(before.contains(path));
                        let k = choose|k: int| 0 <= k < before.len() && before[k] == path;
                        assert(after[k] == path);
                    } else if pushed {
                        assert(after[after.len() - 1] == path);
                    } else {
                        assert(before.contains(path));
                    }
                }
            }
        }
        n += 1;
    }
    proof {
        assert forall|path: Seq<u8>|
            path_views(paths@).contains(path) <==> is_to_update(status_changes@, path) by {
            if path_views(paths@).contains(path) {
                let j = choose|j: int|
                    0 <= j < status_changes@.len() && (#[trigger] status_changes@[j]).is_staged_at(
                        path,
                    );
            }
            if is_to_update(status_changes@, path) {
                let j = choose|j: int|
                    0 <= j < status_changes@.len() && (#[trigger] status_changes@[j]).is_staged_at(
                        path,
                    );
            }
        }
    }
    paths
}

} // verus!
