use tree_manipulation::object::{EntryKind, ObjectId};
use tree_manipulation::worktree::{
    file_mode, gitdir_file, index_entries_to_update, prepare_path, reset_command, reset_outcome,
    select_submodule, skip_worktree_marks, steps_for_change, write_entry, EntryWrite,
    IndexEntryKind, NoParentDirectory, PathState, PrepareStep, StatusItem, Submodule, TreeChange,
    TreeStatus, WorktreeStep, WriteKind,
};

fn change(path: &str, status: TreeStatus) -> TreeChange {
    TreeChange { path: path.as_bytes().to_vec(), status }
}

#[test]
fn a_deletion_removes_the_file() {
    assert_eq!(
        steps_for_change(&change("gone", TreeStatus::Deletion), false),
        vec![WorktreeStep::RemoveFile { path: b"gone".to_vec() }]
    );
}

#[test]
fn an_addition_writes_the_entry_as_an_addition() {
    assert_eq!(
        steps_for_change(&change("new", TreeStatus::Addition), false),
        vec![WorktreeStep::WriteEntry { path: b"new".to_vec(), write_kind: WriteKind::Addition }]
    );
}

#[test]
fn a_modification_writes_the_entry_as_a_modification() {
    assert_eq!(
        steps_for_change(&change("changed", TreeStatus::Modification), true),
        vec![WorktreeStep::WriteEntry {
            path: b"changed".to_vec(),
            write_kind: WriteKind::Modification
        }]
    );
}

#[test]
fn a_rename_removes_the_previous_file_and_writes_the_entry() {
    let rename = change("to", TreeStatus::Rename { previous_path: b"from".to_vec() });
    assert_eq!(
        steps_for_change(&rename, false),
        vec![
            WorktreeStep::RemoveFile { path: b"from".to_vec() },
            WorktreeStep::WriteEntry { path: b"to".to_vec(), write_kind: WriteKind::Addition },
        ]
    );
}

#[test]
fn a_rename_leaves_a_directory_at_the_previous_path_alone() {
    let rename = change("to", TreeStatus::Rename { previous_path: b"from".to_vec() });
    assert_eq!(
        steps_for_change(&rename, true),
        vec![WorktreeStep::WriteEntry { path: b"to".to_vec(), write_kind: WriteKind::Addition }]
    );
}

#[test]
fn entries_are_written_by_their_kind() {
    for write_kind in [WriteKind::Addition, WriteKind::Modification] {
        assert_eq!(write_entry(EntryKind::Blob, write_kind), EntryWrite::File { executable: false });
        assert_eq!(
            write_entry(EntryKind::BlobExecutable, write_kind),
            EntryWrite::File { executable: true }
        );
        assert_eq!(write_entry(EntryKind::Link, write_kind), EntryWrite::Symlink);
    }
    assert_eq!(write_entry(EntryKind::Commit, WriteKind::Modification), EntryWrite::ResetSubmodule);
    assert_eq!(write_entry(EntryKind::Commit, WriteKind::Addition), EntryWrite::RestoreSubmodule);
}

#[test]
fn executable_bits_are_set_or_cleared() {
    assert_eq!(file_mode(0o644, true), 0o755);
    assert_eq!(file_mode(0o755, false), 0o644);
    assert_eq!(file_mode(0o600, true), 0o711);
    assert_eq!(file_mode(0o100755, false), 0o100644);
    assert_eq!(file_mode(0o644, false), 0o644);
    assert_eq!(file_mode(0, true), 0o111);
    assert_eq!(file_mode(u32::MAX, false), u32::MAX - 0o111);
}

#[test]
fn a_missing_parent_is_created() {
    for destination in [PathState::Missing, PathState::File, PathState::Directory] {
        assert_eq!(
            prepare_path(Some(PathState::Missing), destination),
            Ok(vec![PrepareStep::CreateParentDirs])
        );
    }
}

#[test]
fn a_file_in_place_of_the_parent_is_replaced() {
    assert_eq!(
        prepare_path(Some(PathState::File), PathState::Missing),
        Ok(vec![PrepareStep::RemoveParentFile, PrepareStep::CreateParentDirs])
    );
}

#[test]
fn what_stands_at_the_destination_is_removed() {
    assert_eq!(prepare_path(Some(PathState::Directory), PathState::Missing), Ok(vec![]));
    assert_eq!(
        prepare_path(Some(PathState::Directory), PathState::File),
        Ok(vec![PrepareStep::RemoveDestinationFile])
    );
    assert_eq!(
        prepare_path(Some(PathState::Directory), PathState::Directory),
        Ok(vec![PrepareStep::RemoveDestinationDir])
    );
}

#[test]
fn a_path_without_parent_cannot_be_prepared() {
    assert_eq!(prepare_path(None, PathState::Missing), Err(NoParentDirectory));
    assert_eq!(NoParentDirectory.message(), "paths will always have a parent");
}

fn submodule(active: Option<bool>, path: Option<&str>) -> Submodule {
    Submodule { active, path: path.map(|p| p.as_bytes().to_vec()) }
}

#[test]
fn the_first_active_submodule_at_the_path_is_selected() {
    let submodules = [
        submodule(Some(false), Some("sm")),
        submodule(None, Some("sm")),
        submodule(Some(true), Some("other")),
        submodule(Some(true), None),
        submodule(Some(true), Some("sm")),
        submodule(Some(true), Some("sm")),
    ];
    assert_eq!(select_submodule(&submodules, &b"sm".to_vec()), Some(4));
    assert_eq!(select_submodule(&submodules, &b"other".to_vec()), Some(2));
}

#[test]
fn no_submodule_is_selected_if_none_lives_at_the_path() {
    let submodules = [submodule(Some(false), Some("sm")), submodule(Some(true), Some("other"))];
    assert_eq!(select_submodule(&submodules, &b"sm".to_vec()), None);
    assert_eq!(select_submodule(&[], &b"sm".to_vec()), None);
}

#[test]
fn the_reset_command_names_the_commit() {
    let id = ObjectId {
        bytes: [
            0x00, 0x01, 0x09, 0x0a, 0x0f, 0x10, 0x7f, 0x80, 0x9a, 0xab, 0xbc, 0xcd, 0xde, 0xef,
            0xf0, 0xff, 0x12, 0x34, 0x56, 0x78,
        ],
    };
    assert_eq!(
        String::from_utf8(reset_command(&id)).unwrap(),
        "git reset --hard 0001090a0f107f809aabbccddeeff0ff12345678 && git clean -fxd"
    );
    assert_eq!(
        String::from_utf8(id.to_hex()).unwrap(),
        "0001090a0f107f809aabbccddeeff0ff12345678"
    );
}

#[test]
fn a_reset_that_ended_well_is_fine() {
    let id = ObjectId { bytes: [1; 20] };
    assert_eq!(reset_outcome(true, &b"sm".to_vec(), id, &b"warning".to_vec()), Ok(()));
}

#[test]
fn a_reset_that_failed_carries_what_the_command_said() {
    let id = ObjectId { bytes: [0xab; 20] };
    let error = reset_outcome(false, &b"/wd/sm".to_vec(), id, &b"fatal: bad object".to_vec())
        .unwrap_err();
    assert_eq!(error.directory, b"/wd/sm".to_vec());
    assert_eq!(error.commit, id);
    assert_eq!(error.diagnostics, b"fatal: bad object".to_vec());
    assert_eq!(
        String::from_utf8(error.message()).unwrap(),
        format!(
            "Could not reset submodule at '/wd/sm' to commit {}: fatal: bad object",
            "ab".repeat(20)
        )
    );
}

#[test]
fn directories_and_submodules_are_left_out_of_a_checkout() {
    assert!(IndexEntryKind::Dir.skips_worktree());
    assert!(IndexEntryKind::Commit.skips_worktree());
    assert!(!IndexEntryKind::File.skips_worktree());
    assert!(!IndexEntryKind::FileExecutable.skips_worktree());
    assert!(!IndexEntryKind::Symlink.skips_worktree());
}

#[test]
fn an_empty_index_needs_no_checkout() {
    assert_eq!(skip_worktree_marks(&[]), None);
}

#[test]
fn a_checkout_leaves_out_directories_and_submodules() {
    let entries = [
        IndexEntryKind::File,
        IndexEntryKind::Commit,
        IndexEntryKind::Symlink,
        IndexEntryKind::Dir,
        IndexEntryKind::FileExecutable,
    ];
    assert_eq!(skip_worktree_marks(&entries), Some(vec![false, true, false, true, false]));
    assert_eq!(skip_worktree_marks(&entries[..1]), Some(vec![false]));
}

#[test]
fn the_gitdir_file_points_back_to_the_repository() {
    assert_eq!(gitdir_file(b"../.git/modules/sm"), b"gitdir: ../.git/modules/sm\n".to_vec());
    assert_eq!(gitdir_file(b""), b"gitdir: \n".to_vec());
}

fn staged(path: &str) -> StatusItem {
    StatusItem::TreeIndex { rela_path: path.as_bytes().to_vec() }
}

fn unstaged(path: &str) -> StatusItem {
    StatusItem::IndexWorktree { rela_path: path.as_bytes().to_vec() }
}

#[test]
fn staged_paths_without_unstaged_changes_are_to_update() {
    let items = [staged("a"), unstaged("b"), staged("b"), staged("c"), unstaged("d")];
    assert_eq!(index_entries_to_update(&items), vec![b"a".to_vec(), b"c".to_vec()]);
}

#[test]
fn an_unstaged_change_counts_wherever_it_stands() {
    let items = [staged("a"), staged("b"), unstaged("a")];
    assert_eq!(index_entries_to_update(&items), vec![b"b".to_vec()]);
}

#[test]
fn each_path_to_update_comes_once() {
    let items = [staged("b"), staged("a"), staged("b"), staged("a")];
    assert_eq!(index_entries_to_update(&items), vec![b"b".to_vec(), b"a".to_vec()]);
}

#[test]
fn nothing_staged_nothing_to_update() {
    assert_eq!(index_entries_to_update(&[]), Vec::<Vec<u8>>::new());
    assert_eq!(index_entries_to_update(&[unstaged("a")]), Vec::<Vec<u8>>::new());
}
