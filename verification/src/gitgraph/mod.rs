//! Git graphs: branches as lanes, commits as circles, merges as curves.

pub mod edges;
pub mod laws;
pub mod scene;
pub mod svg;

use vstd::prelude::*;

use crate::advance::scene::Px;

verus! {

/// Which way commits flow.
#[derive(Debug, Clone, Copy, PartialEq, Eq, Structural)]
pub enum GitOrientation {
    LR,
    TB,
    BT,
}

#[derive(Debug, Clone, Copy, PartialEq, Eq, Structural)]
pub enum CommitKind {
    Normal,
    Reverse,
    Highlight,
}

#[derive(Debug)]
pub struct GitCommit {
    pub id: String,
    /// Position along the flow.
    pub seq: usize,
    /// The lane of its branch.
    pub branch: usize,
    pub tag: Option<String>,
    pub kind: CommitKind,
    /// The head that was merged in, for a merge.
    pub second_parent: Option<usize>,
}

#[derive(Debug)]
pub struct GitBranch {
    pub name: String,
    /// The lane of the branch.
    pub order: usize,
    /// The commit it forks from.
    pub parent_commit: Option<usize>,
}

#[derive(Debug)]
pub struct GitGraph {
    pub orientation: GitOrientation,
    pub branches: Vec<GitBranch>,
    pub commits: Vec<GitCommit>,
}

/// Whether forks and merges start at commits of the graph.
pub open spec fn parents_exist(d: GitGraph) -> bool {
    &&& forall|i: int|
        0 <= i < d.branches@.len() ==> ((#[trigger] d.branches@[i]).parent_commit matches Some(p)
            ==> p < d.commits@.len())
    &&& forall|i: int|
        0 <= i < d.commits@.len() ==> ((#[trigger] d.commits@[i]).second_parent matches Some(p)
            ==> p < d.commits@.len())
}

/// Canvas margin.
pub const PAD: Px = 1920000;

/// Room for the names of branches.
pub const BRANCH_LABEL_W: Px = 4480000;

/// Distance of commits along the flow.
pub const COMMIT_DX: Px = 5760000;

/// Distance of lanes.
pub const BRANCH_DY: Px = 4480000;

/// Radius of a commit.
pub const R: Px = 768000;

/// Whether parents exist.
pub fn check_parents(d: &GitGraph) -> (r: bool)
    ensures
        r == parents_exist(*d),
{
    let mut i: usize = 0;
    while i < d.branches.len()
        invariant
            i <= d.branches@.len(),
            forall|k: int|
                0 <= k < i ==> ((#[trigger] d.branches@[k]).parent_commit matches Some(p) ==> p
                    < d.commits@.len()),
        decreases d.branches@.len() - i,
    {
        if let Some(p) = d.branches[i].parent_commit {
            if p >= d.commits.len() {
                assert(!(d.branches@[i as int].parent_commit->Some_0 < d.commits@.len()));
                return false;
            }
        }
        i += 1;
    }
    let mut j: usize = 0;
    while j < d.commits.len()
        invariant
            j <= d.commits@.len(),
            forall|k: int|
                0 <= k < d.branches@.len() ==> ((#[trigger] d.branches@[k]).parent_commit
                    matches Some(p) ==> p < d.commits@.len()),
            forall|k: int|
                0 <= k < j ==> ((#[trigger] d.commits@[k]).second_parent matches Some(p) ==> p
                    < d.commits@.len()),
        decreases d.commits@.len() - j,
    {
        if let Some(p) = d.commits[j].second_parent {
            if p >= d.commits.len() {
                assert(!(d.commits@[j as int].second_parent->Some_0 < d.commits@.len()));
                return false;
            }
        }
        j += 1;
    }
    true
}

} // verus!
