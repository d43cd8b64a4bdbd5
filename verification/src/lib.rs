//! Selective discard of changes in a tree of versioned files, with what goes
//! along with it: bringing a working directory in line with a tree, and
//! keeping track of commits that a rebase rewrites.
//!
//! The library computes and decides; it reads no repository and touches no
//! file. It is handed what was looked up, as plain values, and answers with
//! what is to be done.
//!
//! - [`hunk`], [`subtract`], [`removal`], [`patch`]: line ranges and hunks;
//!   cutting lines out of a hunk; which hunks of a diff stay once some are
//!   discarded; building a file from the hunks that stay.
//! - [`cutting`]: what a cut does to the file that is built.
//! - [`discard`], [`source`], [`tree_model`]: the discard engine, the trees it
//!   works between, and what its edits do to a tree.
//! - [`worktree`]: the steps that bring a working directory in line with a
//!   tree.
//! - [`rebase`]: the map of rewritten commits, and retargeting a pick.
//! - [`object`], [`path`], [`bytes`]: object ids and entry kinds, paths of a
//!   tree, byte strings.

pub mod bytes;
pub mod cutting;
pub mod discard;
pub mod hunk;
pub mod object;
pub mod patch;
pub mod path;
pub mod rebase;
pub mod removal;
pub mod source;
pub mod subtract;
pub mod tree_model;
pub mod worktree;
