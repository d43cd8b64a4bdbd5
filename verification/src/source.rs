//! Where the changes to discard are taken from: which two trees stand for
//! the state before the changes and the state after them.

use vstd::prelude::*;
use crate::object::ObjectId;

verus! {

/// The pair of trees that the changes lie between.
#[derive(Clone, Copy, Debug, PartialEq, Eq)]
pub enum ChangesSource {
    /// The changes of the working directory against the tree of `HEAD`.
    Worktree,
    /// The changes that the commit made to its first parent.
    Commit { id: ObjectId },
    /// The changes from one given tree to another.
    Tree { after_id: ObjectId, before_id: ObjectId },
}

/// A tree to fetch, named by how to find it.
#[derive(Clone, Copy, Debug, PartialEq, Eq)]
pub enum TreeSource {
    /// The tree of `HEAD`, or the empty tree where there is no `HEAD` yet.
    HeadOrEmpty,
    /// A tree made of what the working directory holds now.
    WorkingDirectory,
    /// The tree of the first parent of the commit.
    FirstParentOf { commit: ObjectId },
    /// The tree of the commit.
    OfCommit { commit: ObjectId },
    /// The tree with this id.
    Tree { id: ObjectId },
}

/// There is no first parent: the commit has no parent at all.
#[derive(Clone, Copy, Debug, PartialEq, Eq, Structural)]
pub struct NoParent;

impl NoParent {
    /// The error in words.
    pub fn message(&self) -> (r: &'static str)
        ensures
            r@ == "no parent"@,
    {
        "no parent"
    }
}

impl ChangesSource {
    /// The tree that stands for the state before the changes.
    pub open spec fn spec_before(self) -> TreeSource {
        match self {
            ChangesSource::Worktree => TreeSource::HeadOrEmpty,
            ChangesSource::Commit { id } => TreeSource::FirstParentOf { commit: id },
            ChangesSource::Tree { before_id, .. } => TreeSource::Tree { id: before_id },
        }
    }

    /// The tree that stands for the state after the changes.
    pub open spec fn spec_after(self) -> TreeSource {
        match self {
            ChangesSource::Worktree => TreeSource::WorkingDirectory,
            ChangesSource::Commit { id } => TreeSource::OfCommit { commit: id },
            ChangesSource::Tree { after_id, .. } => TreeSource::Tree { id: after_id },
        }
    }

    /// The tree that stands for the state before the changes: the tree of
    /// `HEAD` for the working directory, the tree of the first parent for a
    /// commit, the first of the two trees for a pair.
    pub fn before(&self) -> (r: TreeSource)
        ensures
            r == self.spec_before(),
    {
        match self {
            ChangesSource::Worktree => TreeSource::HeadOrEmpty,
            ChangesSource::Commit { id } => TreeSource::FirstParentOf { commit: *id },
            ChangesSource::Tree { before_id, .. } => TreeSource::Tree { id: *before_id },
        }
    }

    /// The tree that stands for the state after the changes: what the working
    /// directory holds, the tree of the commit, the second of the two trees.
    pub fn after(&self) -> (r: TreeSource)
        ensures
            r == self.spec_after(),
    {
        match self {
            ChangesSource::Worktree => TreeSource::WorkingDirectory,
            ChangesSource::Commit { id } => TreeSource::OfCommit { commit: *id },
            ChangesSource::Tree { after_id, .. } => TreeSource::Tree { id: *after_id },
        }
    }
}

/// The first of the parents of a commit. A commit without parents has none:
/// the changes of such a commit cannot be told from a tree before it.
pub fn first_parent(parent_ids: &[ObjectId]) -> (r: Result<ObjectId, NoParent>)
    ensures
        r == if parent_ids@.len() == 0 {
            Err::<ObjectId, NoParent>(NoParent)
        } else {
            Ok::<ObjectId, NoParent>(parent_ids@[0])
        },
{
    if parent_ids.len() == 0 {
        Err(NoParent)
    } else {
        Ok(parent_ids[0])
    }
}

} // verus!
