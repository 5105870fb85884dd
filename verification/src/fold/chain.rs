//! Graphs that are one linear run of nodes.

use crate::fold::FoldSkip;
use crate::model::{Edge, EdgeKind, Graph};
use crate::peel::indices;

use vstd::prelude::*;

verus! {

/// Whether an edge leads from one node to the next: self-loops and invisible
/// links do not.
pub open spec fn is_hop(e: Edge) -> bool {
    e.from != e.to && e.kind != EdgeKind::Invisible
}

/// The hops among the edges, in order.
pub open spec fn hops(edges: Seq<Edge>) -> Seq<(int, int)>
    decreases edges.len(),
{
    if edges.len() == 0 {
        Seq::empty()
    } else if is_hop(edges.last()) {
        hops(edges.drop_last()).push((edges.last().from as int, edges.last().to as int))
    } else {
        hops(edges.drop_last())
    }
}

/// Where the first hop from `v` leads.
pub open spec fn target(h: Seq<(int, int)>, v: int) -> Option<int>
    decreases h.len(),
{
    if h.len() == 0 {
        None
    } else {
        match target(h.drop_last(), v) {
            Some(t) => Some(t),
            None => if h.last().0 == v {
                Some(h.last().1)
            } else {
                None
            },
        }
    }
}

/// Where the first hop to `v` comes from.
pub open spec fn origin(h: Seq<(int, int)>, v: int) -> Option<int>
    decreases h.len(),
{
    if h.len() == 0 {
        None
    } else {
        match origin(h.drop_last(), v) {
            Some(t) => Some(t),
            None => if h.last().1 == v {
                Some(h.last().0)
            } else {
                None
            },
        }
    }
}

/// Whether all hops from a node lead to one node, and all hops to a node
/// come from one node.
pub open spec fn is_linear(h: Seq<(int, int)>) -> bool {
    forall|i: int, j: int|
        0 <= i < j < h.len() ==> ((#[trigger] h[i]).0 == (#[trigger] h[j]).0 <==> h[i].1 == h[j].1)
}

/// The nodes below `k` that no hop leads to.
pub open spec fn starts(h: Seq<(int, int)>, k: int) -> Seq<int>
    decreases k,
{
    if k <= 0 {
        Seq::empty()
    } else if origin(h, k - 1) is None {
        starts(h, k - 1).push(k - 1)
    } else {
        starts(h, k - 1)
    }
}

/// The nodes on the way from `v`, at most `room` hops long.
pub open spec fn way(h: Seq<(int, int)>, v: int, room: nat) -> Seq<int>
    decreases room,
{
    if room == 0 {
        seq![v]
    } else {
        match target(h, v) {
            Some(t) => seq![v] + way(h, t, (room - 1) as nat),
            None => seq![v],
        }
    }
}

/// The graph as one linear run of nodes, or the reason it is not one.
pub open spec fn run_of(g: Graph) -> Result<Seq<int>, FoldSkip> {
    let n = g.nodes@.len();
    let h = hops(g.edges@);
    let s = starts(h, n as int);
    if g.subgraphs@.len() > 0 || g.sub_edges@.len() > 0 {
        Err(FoldSkip::HasSubgraphs)
    } else if n < 2 {
        Err(FoldSkip::TooShort)
    } else if !is_linear(h) || s.len() == 0 {
        Err(FoldSkip::NotLinear)
    } else if s.len() > 1 {
        Err(FoldSkip::MultipleComponents)
    } else {
        let run = way(h, s[0], n);
        if run.len() > n {
            Err(FoldSkip::NotLinear)
        } else if run.len() < n {
            Err(FoldSkip::MultipleComponents)
        } else {
            Ok(run)
        }
    }
}

/// Whether every edge has its ends in the graph.
pub open spec fn edges_exist(g: Graph) -> bool {
    forall|i: int|
        0 <= i < g.edges@.len() ==> (#[trigger] g.edges@[i]).from < g.nodes@.len() && g.edges@[i].to
            < g.nodes@.len()
}

pub proof fn lemma_target(h: Seq<(int, int)>, v: int)
    ensures
        target(h, v) matches Some(t) ==> exists|i: int| 0 <= i < h.len() && #[trigger] h[i] == (v, t),
        target(h, v) is None ==> forall|i: int| 0 <= i < h.len() ==> (#[trigger] h[i]).0 != v,
        origin(h, v) matches Some(t) ==> exists|i: int| 0 <= i < h.len() && #[trigger] h[i] == (t, v),
        origin(h, v) is None ==> forall|i: int| 0 <= i < h.len() ==> (#[trigger] h[i]).1 != v,
    decreases h.len(),
{
    if h.len() > 0 {
        let r = h.drop_last();
        lemma_target(r, v);
        if let Some(t) = target(r, v) {
            let i = choose|i: int| 0 <= i < r.len() && #[trigger] r[i] == (v, t);
            assert(h[i] == (v, t));
        } else {
            assert(h[h.len() - 1] == h.last());
            assert forall|i: int| 0 <= i < h.len() && h.last().0 != v implies (#[trigger] h[i]).0
                != v by {
                if i < r.len() {
                    assert(r[i] == h[i]);
                }
            }
        }
        if let Some(t) = origin(r, v) {
            let i = choose|i: int| 0 <= i < r.len() && #[trigger] r[i] == (t, v);
            assert(h[i] == (t, v));
        } else {
            assert(h[h.len() - 1] == h.last());
            assert forall|i: int| 0 <= i < h.len() && h.last().1 != v implies (#[trigger] h[i]).1
                != v by {
                if i < r.len() {
                    assert(r[i] == h[i]);
                }
            }
        }
    }
}

/// The hops of a graph stay inside it.
pub proof fn lemma_hops_exist(edges: Seq<Edge>, n: int)
    requires
        forall|i: int|
            0 <= i < edges.len() ==> (#[trigger] edges[i]).from < n && edges[i].to < n,
    ensures
        forall|i: int|
            0 <= i < hops(edges).len() ==> 0 <= (#[trigger] hops(edges)[i]).0 < n && 0 <= hops(
                edges,
            )[i].1 < n,
    decreases edges.len(),
{
    if edges.len() > 0 {
        let r = edges.drop_last();
        assert forall|i: int| 0 <= i < r.len() implies (#[trigger] r[i]).from < n && r[i].to < n by {
            assert(r[i] == edges[i]);
        }
        lemma_hops_exist(r, n);
        assert(edges[edges.len() - 1] == edges.last());
        assert forall|i: int| 0 <= i < hops(edges).len() implies 0 <= (#[trigger] hops(edges)[i]).0
            < n && 0 <= hops(edges)[i].1 < n by {
            if i < hops(r).len() {
                assert(hops(edges)[i] == hops(r)[i]);
            }
        }
    }
}

proof fn lemma_hops_prefix(edges: Seq<Edge>, k: int)
    requires
        0 <= k <= edges.len(),
    ensures
        hops(edges.take(k)).len() <= hops(edges).len(),
        forall|i: int|
            0 <= i < hops(edges.take(k)).len() ==> hops(edges)[i] == #[trigger] hops(
                edges.take(k),
            )[i],
    decreases edges.len(),
{
    if k < edges.len() {
        lemma_hops_prefix(edges.drop_last(), k);
        assert(edges.drop_last().take(k) =~= edges.take(k));
    } else {
        assert(edges.take(k) =~= edges);
    }
}

/// One more hop keeps hops linear if it agrees with those before it.
proof fn lemma_linear_push(h: Seq<(int, int)>, a: int, b: int)
    requires
        is_linear(h),
    ensures
        is_linear(h.push((a, b))) <==> (match target(h, a) {
            Some(t) => t == b,
            None => true,
        }) && (match origin(h, b) {
            Some(t) => t == a,
            None => true,
        }),
{
    let g = h.push((a, b));
    let n = h.len() as int;
    lemma_target(h, a);
    lemma_target(h, b);
    if let Some(t) = target(h, a) {
        let i = choose|i: int| 0 <= i < h.len() && #[trigger] h[i] == (a, t);
        assert(g[i] == h[i] && g[n] == (a, b));
        if is_linear(g) {
            assert(t == b);
        }
    }
    if let Some(t) = origin(h, b) {
        let i = choose|i: int| 0 <= i < h.len() && #[trigger] h[i] == (t, b);
        assert(g[i] == h[i] && g[n] == (a, b));
        if is_linear(g) {
            assert(t == a);
        }
    }
    if (match target(h, a) {
        Some(t) => t == b,
        None => true,
    }) && (match origin(h, b) {
        Some(t) => t == a,
        None => true,
    }) {
        assert forall|i: int, j: int| 0 <= i < j < g.len() implies ((#[trigger] g[i]).0 == (
        #[trigger] g[j]).0 <==> g[i].1 == g[j].1) by {
            assert(g[i] == h[i]);
            if j < n {
                assert(g[j] == h[j]);
            } else {
                if h[i].0 == a {
                    let t = target(h, a)->Some_0;
                    let k = choose|k: int| 0 <= k < h.len() && #[trigger] h[k] == (a, t);
                    assert(h[i].0 == h[k].0);
                    assert(h[i].1 == h[k].1);
                }
                if h[i].1 == b {
                    let t = origin(h, b)->Some_0;
                    let k = choose|k: int| 0 <= k < h.len() && #[trigger] h[k] == (t, b);
                    assert(h[i].1 == h[k].1);
                    assert(h[i].0 == h[k].0);
                }
            }
        }
    }
}

proof fn lemma_linear_prefix(h: Seq<(int, int)>, g: Seq<(int, int)>)
    requires
        is_linear(h),
        g.len() <= h.len(),
        forall|i: int| 0 <= i < g.len() ==> h[i] == #[trigger] g[i],
    ensures
        is_linear(g),
{
    assert forall|i: int, j: int| 0 <= i < j < g.len() implies ((#[trigger] g[i]).0 == (
    #[trigger] g[j]).0 <==> g[i].1 == g[j].1) by {
        assert(h[i] == g[i] && h[j] == g[j]);
    }
}

/// The next and the previous node of each node.
struct Links {
    next: Vec<Option<usize>>,
    prev: Vec<Option<usize>>,
}

spec fn as_int(o: Option<usize>) -> Option<int> {
    match o {
        Some(v) => Some(v as int),
        None => None,
    }
}

impl Links {
    spec fn shows(self, h: Seq<(int, int)>, n: int) -> bool {
        &&& self.next@.len() == n
        &&& self.prev@.len() == n
        &&& forall|v: int| 0 <= v < n ==> as_int(#[trigger] self.next@[v]) == target(h, v)
        &&& forall|v: int| 0 <= v < n ==> as_int(#[trigger] self.prev@[v]) == origin(h, v)
    }
}

fn link(g: &Graph) -> (r: Option<Links>)
    requires
        edges_exist(*g),
    ensures
        match r {
            Some(l) => is_linear(hops(g.edges@)) && l.shows(
                hops(g.edges@),
                g.nodes@.len() as int,
            ),
            None => !is_linear(hops(g.edges@)),
        },
{
    let n: usize = g.nodes.len();
    let mut l = Links { next: Vec::new(), prev: Vec::new() };
    while l.next.len() < n
        invariant
            l.next@.len() <= n,
            l.prev@.len() == l.next@.len(),
            forall|v: int| 0 <= v < l.next@.len() ==> (#[trigger] l.next@[v]) is None,
            forall|v: int| 0 <= v < l.prev@.len() ==> (#[trigger] l.prev@[v]) is None,
        decreases n - l.next@.len(),
    {
        l.next.push(None);
        l.prev.push(None);
    }
    let mut k: usize = 0;
    assert(hops(g.edges@.take(0)) =~= Seq::empty());
    while k < g.edges.len()
        invariant
            n == g.nodes@.len(),
            edges_exist(*g),
            k <= g.edges@.len(),
            is_linear(hops(g.edges@.take(k as int))),
            l.shows(hops(g.edges@.take(k as int)), n as int),
        decreases g.edges@.len() - k,
    {
        let e = &g.edges[k];
        let ghost h = hops(g.edges@.take(k as int));
        let ghost more = hops(g.edges@.take(k + 1));
        assert(g.edges@.take(k + 1).drop_last() =~= g.edges@.take(k as int));
        assert(g.edges@.take(k + 1).last() == *e);
        assert(g.edges@[k as int].from < n && g.edges@[k as int].to < n);
        let invisible = match e.kind {
            EdgeKind::Invisible => true,
            _ => false,
        };
        if e.from == e.to || invisible {
            assert(more == h);
        } else {
            assert(more == h.push((e.from as int, e.to as int)));
            proof {
                lemma_linear_push(h, e.from as int, e.to as int);
                lemma_hops_prefix(g.edges@, k + 1);
                if is_linear(hops(g.edges@)) {
                    lemma_linear_prefix(hops(g.edges@), more);
                }
                assert(more.drop_last() =~= h);
                assert forall|v: int| target(more, v) == (match target(h, v) {
                    Some(t) => Some(t),
                    None => if v == e.from {
                        Some(e.to as int)
                    } else {
                        None
                    },
                }) by {}
                assert forall|v: int| origin(more, v) == (match origin(h, v) {
                    Some(t) => Some(t),
                    None => if v == e.to {
                        Some(e.from as int)
                    } else {
                        None
                    },
                }) by {}
            }
            match l.next[e.from] {
                Some(t) => {
                    if t != e.to {
                        return None;
                    }
                },
                None => {
                    l.next.set(e.from, Some(e.to));
                },
            }
            match l.prev[e.to] {
                Some(f) => {
                    if f != e.from {
                        return None;
                    }
                },
                None => {
                    l.prev.set(e.to, Some(e.from));
                },
            }
        }
        k += 1;
    }
    assert(g.edges@.take(g.edges@.len() as int) =~= g.edges@);
    Some(l)
}

/// The graph as one linear run of node indices, or the reason it is not one.
/// Self-loops and invisible links do not count against linearity.
pub fn chain_run(g: &Graph) -> (r: Result<Vec<usize>, FoldSkip>)
    requires
        edges_exist(*g),
    ensures
        match r {
            Ok(run) => run_of(*g) == Ok::<Seq<int>, FoldSkip>(indices(run@)),
            Err(why) => run_of(*g) == Err::<Seq<int>, FoldSkip>(why),
        },
{
    if g.subgraphs.len() > 0 || g.sub_edges.len() > 0 {
        return Err(FoldSkip::HasSubgraphs);
    }
    let n: usize = g.nodes.len();
    if n < 2 {
        return Err(FoldSkip::TooShort);
    }
    let ghost h = hops(g.edges@);
    let l = match link(g) {
        Some(l) => l,
        None => return Err(FoldSkip::NotLinear),
    };
    let mut first: Option<usize> = None;
    let mut count: usize = 0;
    let mut v: usize = 0;
    while v < n
        invariant
            v <= n,
            l.shows(h, n as int),
            count == starts(h, v as int).len(),
            count <= v,
            match first {
                Some(s) => count > 0 && starts(h, v as int)[0] == s && s < n,
                None => count == 0,
            },
        decreases n - v,
    {
        if l.prev[v].is_none() {
            if first.is_none() {
                first = Some(v);
            }
            count += 1;
        }
        v += 1;
    }
    let s: usize = match first {
        Some(s) => s,
        None => return Err(FoldSkip::NotLinear),
    };
    if count > 1 {
        return Err(FoldSkip::MultipleComponents);
    }
    proof {
        lemma_hops_exist(g.edges@, n as int);
    }
    let mut run: Vec<usize> = Vec::new();
    let mut at: usize = s;
    let ghost whole = way(h, s as int, n as nat);
    assert(whole =~= indices(run@) + whole);
    loop
        invariant_except_break
            at < n,
            whole == indices(run@) + way(h, at as int, (n - run@.len()) as nat),
        invariant
            l.shows(h, n as int),
            forall|i: int|
                0 <= i < h.len() ==> 0 <= (#[trigger] h[i]).0 < n && 0 <= h[i].1 < n,
            run@.len() <= n,
            whole == way(h, s as int, n as nat),
            h == hops(g.edges@),
            is_linear(h),
            n == g.nodes@.len(),
            n >= 2,
            g.subgraphs@.len() == 0,
            g.sub_edges@.len() == 0,
            starts(h, n as int).len() == 1,
            starts(h, n as int)[0] == s,
        ensures
            whole == indices(run@),
        decreases n + 1 - run@.len(),
    {
        let ghost before = run@;
        let ghost room = (n - before.len()) as nat;
        run.push(at);
        assert(indices(run@) =~= indices(before).push(at as int));
        proof {
            lemma_target(h, at as int);
        }
        assert(as_int(l.next@[at as int]) == target(h, at as int));
        if run.len() > n {
            assert(whole =~= indices(run@));
            return Err(FoldSkip::NotLinear);
        }
        match l.next[at] {
            Some(t) => {
                assert(target(h, at as int) == Some(t as int));
                assert(indices(run@) + way(h, t as int, (room - 1) as nat) =~= indices(before)
                    + way(h, at as int, room));
                at = t;
            },
            None => {
                assert(whole =~= indices(run@));
                break ;
            },
        }
    }
    if run.len() != n {
        return Err(FoldSkip::MultipleComponents);
    }
    Ok(run)
}

} // verus!
