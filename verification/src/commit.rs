//! Commits as far as the shape of their graph is concerned.

use vstd::prelude::*;

verus! {

/// A commit and its parents. Commits are known by the numbers under which a
/// store keeps them: equal numbers stand for equal ids.
#[derive(Debug, PartialEq, Eq, Clone)]
pub struct Commit {
    /// The commit.
    pub id: u64,
    /// The parents of the commit.
    pub parent_ids: Vec<u64>,
}

/// The ids of a list of commits.
pub open spec fn commit_ids(commits: Seq<Commit>) -> Seq<u64> {
    commits.map_values(|commit: Commit| commit.id)
}

} // verus!
