//! Mindmaps: the root in the middle, branches around it. Every subtree owns
//! a wedge as wide as it has leaves, and every branch has a colour.

pub mod laws;
pub mod scene;
pub mod svg;
pub mod wedge;

use vstd::prelude::*;

use crate::model::{MindNode, Mindmap};

verus! {

/// Whether a node fits into a tree of `n` nodes as number `i`: its children
/// come after it, one after the other, and name it as their parent.
pub open spec fn node_fits(nodes: Seq<MindNode>, i: int) -> bool {
    let n = nodes[i];
    &&& forall|j: int|
        0 <= j < n.children@.len() ==> i < (#[trigger] n.children@[j]) < nodes.len()
            && nodes[n.children@[j] as int].parent == Some(i as usize)
    &&& forall|j: int, k: int|
        0 <= j < k < n.children@.len() ==> #[trigger] n.children@[j] < #[trigger] n.children@[k]
    &&& n.parent matches Some(p) ==> p < nodes.len()
}

/// Whether every parent is a node of the mindmap.
pub open spec fn rooted(d: Mindmap) -> bool {
    forall|i: int|
        0 <= i < d.nodes@.len() ==> ((#[trigger] d.nodes@[i]).parent matches Some(p) ==> p
            < d.nodes@.len())
}

/// Whether the nodes form a tree, every parent before its children.
pub open spec fn grown(d: Mindmap) -> bool {
    forall|i: int| 0 <= i < d.nodes@.len() ==> #[trigger] node_fits(d.nodes@, i)
}

fn check_node(nodes: &Vec<MindNode>, i: usize) -> (r: bool)
    requires
        i < nodes@.len(),
    ensures
        r == node_fits(nodes@, i as int),
{
    let n = &nodes[i];
    match n.parent {
        Some(p) => {
            if p >= nodes.len() {
                return false;
            }
        },
        None => {},
    }
    let mut j: usize = 0;
    while j < n.children.len()
        invariant
            j <= n.children@.len(),
            i < nodes@.len(),
            *n == nodes@[i as int],
            forall|a: int|
                0 <= a < j ==> i < (#[trigger] n.children@[a]) < nodes@.len()
                    && nodes@[n.children@[a] as int].parent == Some(i),
            forall|a: int, b: int|
                0 <= a < b < j ==> #[trigger] n.children@[a] < #[trigger] n.children@[b],
        decreases n.children@.len() - j,
    {
        let c: usize = n.children[j];
        if c <= i || c >= nodes.len() {
            return false;
        }
        if j > 0 && n.children[j - 1] >= c {
            return false;
        }
        match nodes[c].parent {
            Some(p) => {
                if p != i {
                    return false;
                }
            },
            None => {
                return false;
            },
        }
        j += 1;
    }
    true
}

/// Whether the nodes form a tree, every parent before its children.
pub fn check(d: &Mindmap) -> (r: bool)
    ensures
        r == grown(*d),
        r ==> rooted(*d),
{
    let mut i: usize = 0;
    while i < d.nodes.len()
        invariant
            i <= d.nodes@.len(),
            forall|k: int| 0 <= k < i ==> #[trigger] node_fits(d.nodes@, k),
        decreases d.nodes@.len() - i,
    {
        if !check_node(&d.nodes, i) {
            return false;
        }
        i += 1;
    }
    proof {
        assert forall|k: int| 0 <= k < d.nodes@.len() implies ((#[trigger] d.nodes@[k]).parent
            matches Some(p) ==> p < d.nodes@.len()) by {
            assert(node_fits(d.nodes@, k));
        }
    }
    true
}

} // verus!
