use tree_manipulation::object::ObjectId;
use tree_manipulation::rebase::{
    rebase_mapping_with_overrides, replace_pick_with_commit, CommitMapping, RebaseOutput,
    RebaseStep, StepNotFound,
};

fn id(n: u8) -> ObjectId {
    ObjectId { bytes: [n; 20] }
}

fn pick(n: u8) -> RebaseStep {
    RebaseStep::Pick { commit_id: id(n), new_message: None }
}

fn output(entries: &[(u8, u8)]) -> RebaseOutput {
    RebaseOutput {
        commit_mapping: entries.iter().map(|(old, new)| (Some(id(0)), id(*old), id(*new))).collect(),
    }
}

#[test]
fn mapping_holds_the_commits_that_changed() {
    let mapping = rebase_mapping_with_overrides(&output(&[(1, 11), (2, 2), (3, 13)]), vec![]);
    assert_eq!(mapping.len(), 2);
    assert_eq!(mapping.get(&id(1)), Some(id(11)));
    assert_eq!(mapping.get(&id(2)), None);
    assert_eq!(mapping.get(&id(3)), Some(id(13)));
    assert_eq!(mapping.pairs(), vec![(id(1), id(11)), (id(3), id(13))]);
}

#[test]
fn overrides_take_precedence_over_the_report() {
    let mapping =
        rebase_mapping_with_overrides(&output(&[(1, 11), (2, 2)]), vec![(id(1), id(21)), (id(2), id(22))]);
    assert_eq!(mapping.get(&id(1)), Some(id(21)));
    assert_eq!(mapping.get(&id(2)), Some(id(22)));
    assert_eq!(mapping.len(), 2);
}

#[test]
fn an_override_to_itself_changes_nothing() {
    let mapping = rebase_mapping_with_overrides(&output(&[(1, 11)]), vec![(id(1), id(1)), (id(5), id(5))]);
    assert_eq!(mapping.get(&id(1)), Some(id(11)));
    assert_eq!(mapping.get(&id(5)), None);
    assert_eq!(mapping.len(), 1);
}

#[test]
fn the_last_entry_for_a_commit_stands() {
    let mapping = rebase_mapping_with_overrides(
        &output(&[(1, 11), (1, 12), (1, 1)]),
        vec![(id(2), id(21)), (id(2), id(22))],
    );
    assert_eq!(mapping.get(&id(1)), Some(id(12)));
    assert_eq!(mapping.get(&id(2)), Some(id(22)));
}

#[test]
fn the_mapping_never_maps_a_commit_to_itself() {
    let mapping = rebase_mapping_with_overrides(
        &output(&[(1, 1), (2, 3), (3, 3), (4, 2)]),
        vec![(id(7), id(7)), (id(3), id(2)), (id(2), id(2))],
    );
    for (old, new) in mapping.pairs() {
        assert_ne!(old, new);
    }
    assert_eq!(mapping.pairs(), vec![(id(2), id(3)), (id(4), id(2)), (id(3), id(2))]);
}

#[test]
fn an_empty_report_without_overrides_gives_an_empty_mapping() {
    let mapping = rebase_mapping_with_overrides(&output(&[]), vec![]);
    assert!(mapping.is_empty());
    assert_eq!(mapping.len(), 0);
    assert!(CommitMapping::new().is_empty());
}

#[test]
fn recording_a_change_replaces_what_was_recorded() {
    let mapping = CommitMapping::new().record(id(1), id(2)).record(id(3), id(4)).record(id(1), id(5));
    assert_eq!(mapping.get(&id(1)), Some(id(5)));
    assert_eq!(mapping.get(&id(3)), Some(id(4)));
    assert_eq!(mapping.len(), 2);
    assert!(!mapping.is_empty());
}

#[test]
fn recording_a_commit_that_became_itself_changes_nothing() {
    let mapping = CommitMapping::new().record(id(1), id(2)).record(id(1), id(1)).record(id(3), id(3));
    assert_eq!(mapping.pairs(), vec![(id(1), id(2))]);
}

#[test]
fn replace_pick_changes_every_pick_of_the_commit() {
    let mut steps = vec![
        pick(1),
        RebaseStep::Pick { commit_id: id(2), new_message: Some(b"reworded".to_vec()) },
        RebaseStep::SquashIntoPreceding { commit_id: id(2), new_message: None },
        RebaseStep::Reference(b"refs/heads/main".to_vec()),
        pick(2),
    ];
    assert_eq!(replace_pick_with_commit(&mut steps, id(2), id(9)), Ok(()));
    assert_eq!(
        steps,
        vec![
            pick(1),
            RebaseStep::Pick { commit_id: id(9), new_message: Some(b"reworded".to_vec()) },
            RebaseStep::SquashIntoPreceding { commit_id: id(2), new_message: None },
            RebaseStep::Reference(b"refs/heads/main".to_vec()),
            pick(9),
        ]
    );
}

#[test]
fn replace_pick_fails_if_no_step_picks_the_commit() {
    let mut steps = vec![
        pick(1),
        RebaseStep::SquashIntoPreceding { commit_id: id(2), new_message: None },
        RebaseStep::Reference(b"refs/heads/main".to_vec()),
    ];
    let error = replace_pick_with_commit(&mut steps, id(2), id(9)).unwrap_err();
    assert_eq!(error, StepNotFound { target_commit_id: id(2), replacement_commit_id: id(9) });
    assert_eq!(
        steps,
        vec![
            pick(1),
            RebaseStep::SquashIntoPreceding { commit_id: id(2), new_message: None },
            RebaseStep::Reference(b"refs/heads/main".to_vec()),
        ]
    );
    assert_eq!(
        String::from_utf8(error.message()).unwrap(),
        format!("Failed to replace pick step {} with {}", "02".repeat(20), "09".repeat(20))
    );
}

#[test]
fn replace_pick_fails_on_no_steps() {
    let mut steps: Vec<RebaseStep> = vec![];
    assert!(replace_pick_with_commit(&mut steps, id(1), id(2)).is_err());
}

#[test]
fn replace_pick_with_the_same_commit_succeeds() {
    let mut steps = vec![pick(4)];
    assert_eq!(replace_pick_with_commit(&mut steps, id(4), id(4)), Ok(()));
    assert_eq!(steps, vec![pick(4)]);
}

#[test]
fn steps_name_their_commit() {
    assert_eq!(pick(3).commit_id(), Some(id(3)));
    assert_eq!(
        RebaseStep::SquashIntoPreceding { commit_id: id(4), new_message: None }.commit_id(),
        Some(id(4))
    );
    assert_eq!(RebaseStep::Reference(b"refs/heads/x".to_vec()).commit_id(), None);
}
