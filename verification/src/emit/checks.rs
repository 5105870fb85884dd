//! Which graphs mermaid text can represent.

use crate::model::{Graph, Subgraph};
use crate::text::str_eq;
use vstd::prelude::*;

verus! {

/// The direct members of the first `k` subgraphs, one after the other.
pub open spec fn members(subgraphs: Seq<Subgraph>, k: int) -> Seq<usize>
    decreases k,
{
    if k <= 0 {
        Seq::empty()
    } else {
        members(subgraphs, k - 1) + subgraphs[k - 1].nodes@
    }
}

/// Whether text can stand for the graph: no node shares its id with a
/// subgraph, edges and parents point into the graph, and no node is a direct
/// member twice.
pub open spec fn representable(g: Graph) -> bool {
    let all = members(g.subgraphs@, g.subgraphs@.len() as int);
    &&& forall|i: int, j: int|
        0 <= i < g.nodes@.len() && 0 <= j < g.subgraphs@.len() ==> (#[trigger] g.nodes@[i]).id@ != (
        #[trigger] g.subgraphs@[j]).id@
    &&& forall|i: int|
        0 <= i < g.edges@.len() ==> (#[trigger] g.edges@[i]).from < g.nodes@.len() && g.edges@[i].to
            < g.nodes@.len()
    &&& forall|i: int|
        0 <= i < g.subgraphs@.len() ==> ((#[trigger] g.subgraphs@[i]).parent matches Some(p) ==> p
            < g.subgraphs@.len())
    &&& forall|i: int| 0 <= i < all.len() ==> (#[trigger] all[i]) < g.nodes@.len()
    &&& all.no_duplicates()
}

fn id_is_subgraph(g: &Graph, id: &str) -> (r: bool)
    ensures
        r == exists|j: int|
            0 <= j < g.subgraphs@.len() && id@ == (#[trigger] g.subgraphs@[j]).id@,
{
    let mut j: usize = 0;
    while j < g.subgraphs.len()
        invariant
            j <= g.subgraphs@.len(),
            forall|q: int| 0 <= q < j ==> id@ != (#[trigger] g.subgraphs@[q]).id@,
        decreases g.subgraphs@.len() - j,
    {
        if str_eq(id, g.subgraphs[j].id.as_str()) {
            return true;
        }
        j += 1;
    }
    false
}

fn all_members(g: &Graph) -> (r: Vec<usize>)
    ensures
        r@ == members(g.subgraphs@, g.subgraphs@.len() as int),
{
    let mut all: Vec<usize> = Vec::new();
    let mut i: usize = 0;
    assert(all@ =~= members(g.subgraphs@, 0));
    while i < g.subgraphs.len()
        invariant
            i <= g.subgraphs@.len(),
            all@ == members(g.subgraphs@, i as int),
        decreases g.subgraphs@.len() - i,
    {
        let ghost before = all@;
        let nodes = &g.subgraphs[i].nodes;
        let mut j: usize = 0;
        assert(all@ =~= before + nodes@.take(0));
        while j < nodes.len()
            invariant
                j <= nodes@.len(),
                all@ == before + nodes@.take(j as int),
            decreases nodes@.len() - j,
        {
            all.push(nodes[j]);
            j += 1;
            assert(all@ =~= before + nodes@.take(j as int));
        }
        assert(nodes@.take(nodes@.len() as int) =~= nodes@);
        i += 1;
    }
    all
}

/// Whether the numbers are below `n` and distinct.
fn distinct_below(all: &Vec<usize>, n: usize) -> (r: bool)
    ensures
        r == ((forall|i: int| 0 <= i < all@.len() ==> (#[trigger] all@[i]) < n)
            && all@.no_duplicates()),
{
    let mut seen: Vec<bool> = Vec::new();
    while seen.len() < n
        invariant
            seen@.len() <= n,
            forall|v: int| 0 <= v < seen@.len() ==> !(#[trigger] seen@[v]),
        decreases n - seen@.len(),
    {
        seen.push(false);
    }
    let mut i: usize = 0;
    while i < all.len()
        invariant
            i <= all@.len(),
            seen@.len() == n,
            forall|q: int| 0 <= q < i ==> (#[trigger] all@[q]) < n,
            forall|q: int| 0 <= q < i ==> seen@[(#[trigger] all@[q]) as int],
            forall|v: int|
                0 <= v < n && #[trigger] seen@[v] ==> exists|q: int|
                    0 <= q < i && #[trigger] all@[q] == v,
            forall|p: int, q: int| 0 <= p < q < i ==> #[trigger] all@[p] != #[trigger] all@[q],
        decreases all@.len() - i,
    {
        let m: usize = all[i];
        if m >= n {
            assert(all@[i as int] >= n);
            return false;
        }
        if seen[m] {
            proof {
                let q = choose|q: int| 0 <= q < i && #[trigger] all@[q] == m;
                assert(all@[q] == all@[i as int]);
            }
            return false;
        }
        seen.set(m, true);
        i += 1;
        proof {
            assert forall|v: int| 0 <= v < n && #[trigger] seen@[v] implies exists|q: int|
                0 <= q < i && #[trigger] all@[q] == v by {
                if v == m {
                    assert(all@[i - 1] == v);
                }
            }
        }
    }
    true
}

/// Whether mermaid text can represent the graph.
pub fn check_preconditions(g: &Graph) -> (r: bool)
    ensures
        r == representable(*g),
{
    let n: usize = g.nodes.len();
    let count: usize = g.subgraphs.len();
    let mut i: usize = 0;
    while i < n
        invariant
            n == g.nodes@.len(),
            i <= n,
            forall|p: int, j: int|
                0 <= p < i && 0 <= j < g.subgraphs@.len() ==> (#[trigger] g.nodes@[p]).id@ != (
                #[trigger] g.subgraphs@[j]).id@,
        decreases n - i,
    {
        if id_is_subgraph(g, g.nodes[i].id.as_str()) {
            assert(g.nodes@[i as int].id@ == g.nodes@[i as int].id@);
            return false;
        }
        i += 1;
    }
    let mut i: usize = 0;
    while i < g.edges.len()
        invariant
            n == g.nodes@.len(),
            i <= g.edges@.len(),
            forall|p: int|
                0 <= p < i ==> (#[trigger] g.edges@[p]).from < n && g.edges@[p].to < n,
        decreases g.edges@.len() - i,
    {
        if g.edges[i].from >= n || g.edges[i].to >= n {
            assert(g.edges@[i as int].from >= n || g.edges@[i as int].to >= n);
            return false;
        }
        i += 1;
    }
    let mut i: usize = 0;
    while i < count
        invariant
            count == g.subgraphs@.len(),
            i <= count,
            forall|p: int|
                0 <= p < i ==> ((#[trigger] g.subgraphs@[p]).parent matches Some(q) ==> q < count),
        decreases count - i,
    {
        if let Some(p) = g.subgraphs[i].parent {
            if p >= count {
                assert(g.subgraphs@[i as int].parent == Some(p));
                return false;
            }
        }
        i += 1;
    }
    let all = all_members(g);
    distinct_below(&all, n)
}

} // verus!
