use tree_manipulation::object::ObjectId;
use tree_manipulation::source::{first_parent, ChangesSource, NoParent, TreeSource};

fn id(n: u8) -> ObjectId {
    ObjectId { bytes: [n; 20] }
}

#[test]
fn worktree_changes_lie_between_head_and_the_working_directory() {
    assert_eq!(ChangesSource::Worktree.before(), TreeSource::HeadOrEmpty);
    assert_eq!(ChangesSource::Worktree.after(), TreeSource::WorkingDirectory);
}

#[test]
fn commit_changes_lie_between_the_first_parent_and_the_commit() {
    let source = ChangesSource::Commit { id: id(5) };
    assert_eq!(source.before(), TreeSource::FirstParentOf { commit: id(5) });
    assert_eq!(source.after(), TreeSource::OfCommit { commit: id(5) });
}

#[test]
fn tree_changes_lie_between_the_two_trees() {
    let source = ChangesSource::Tree { after_id: id(2), before_id: id(1) };
    assert_eq!(source.before(), TreeSource::Tree { id: id(1) });
    assert_eq!(source.after(), TreeSource::Tree { id: id(2) });
}

#[test]
fn the_first_parent_is_the_first_of_the_parents() {
    assert_eq!(first_parent(&[id(3), id(4)]), Ok(id(3)));
    assert_eq!(first_parent(&[id(9)]), Ok(id(9)));
}

#[test]
fn a_root_commit_has_no_first_parent() {
    assert_eq!(first_parent(&[]), Err(NoParent));
    assert_eq!(NoParent.message(), "no parent");
}
