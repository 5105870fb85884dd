//! Finding the edges that close cycles.
//!
//! A depth-first walk over the graph marks every edge that leads back to a
//! node the walk is still inside of. Without those edges the graph has no
//! cycle.

use vstd::prelude::*;

use crate::peel::{indices, pair_ints};

verus! {

/// Whether every edge connects two of `n` nodes.
pub open spec fn in_graph(ends: Seq<(int, int)>, n: int) -> bool {
    forall|i: int|
        0 <= i < ends.len() ==> 0 <= (#[trigger] ends[i]).0 < n && 0 <= ends[i].1 < n
}

/// The edges that leave `u`, among the first `k`, in order.
pub open spec fn leaving(ends: Seq<(int, int)>, u: int, k: int) -> Seq<int>
    decreases k,
{
    if k <= 0 {
        Seq::empty()
    } else if ends[k - 1].0 == u {
        leaving(ends, u, k - 1).push(k - 1)
    } else {
        leaving(ends, u, k - 1)
    }
}

/// All edges that leave `u`.
pub open spec fn outs(ends: Seq<(int, int)>, u: int) -> Seq<int> {
    leaving(ends, u, ends.len() as int)
}

/// How far the walk is with a node.
#[derive(Clone, Copy, PartialEq, Eq, Structural)]
pub enum Mark {
    /// Not reached.
    Fresh,
    /// Reached, and not yet left.
    Open,
    /// Left for good.
    Left,
}

/// A depth-first walk between two steps.
#[verifier::ext_equal]
pub struct Walk {
    pub marks: Seq<Mark>,
    /// The edges that were found to close a cycle.
    pub back: Seq<bool>,
    /// The nodes the walk is inside of, each with the number of its edges
    /// that were looked at.
    pub stack: Seq<(int, int)>,
    /// The first node that was not yet tried as a start.
    pub next: int,
    /// The nodes that were left, in order.
    pub left: Seq<int>,
}

/// The walk before its first step.
pub open spec fn start(n: nat, m: nat) -> Walk {
    Walk {
        marks: Seq::new(n, |i: int| Mark::Fresh),
        back: Seq::new(m, |i: int| false),
        stack: Seq::empty(),
        next: 0,
        left: Seq::empty(),
    }
}

/// The walk after it entered `v`.
pub open spec fn enter(w: Walk, v: int) -> Walk {
    Walk { marks: w.marks.update(v, Mark::Open), stack: w.stack.push((v, 0)), ..w }
}

/// The walk after it looked at edge `e`, the next one of the innermost
/// node: an edge to a node that the walk is inside of closes a cycle, a
/// fresh node is entered.
pub open spec fn look(ends: Seq<(int, int)>, w: Walk, e: int) -> Walk {
    let (u, seen) = w.stack.last();
    let v = ends[e].1;
    let w1 = Walk { stack: w.stack.update(w.stack.len() - 1, (u, seen + 1)), ..w };
    match w.marks[v] {
        Mark::Fresh => enter(w1, v),
        Mark::Open => Walk { back: w1.back.update(e, true), ..w1 },
        Mark::Left => w1,
    }
}

/// One step: look at the next edge of the innermost node, or leave that
/// node, or start from the next fresh node.
pub open spec fn step(ends: Seq<(int, int)>, w: Walk) -> Walk {
    if w.stack.len() > 0 {
        let (u, seen) = w.stack.last();
        if 0 <= seen < outs(ends, u).len() {
            look(ends, w, outs(ends, u)[seen])
        } else {
            Walk {
                marks: w.marks.update(u, Mark::Left),
                stack: w.stack.drop_last(),
                left: w.left.push(u),
                ..w
            }
        }
    } else if 0 <= w.next < w.marks.len() {
        let w1 = Walk { next: w.next + 1, ..w };
        if w.marks[w.next] == Mark::Fresh {
            enter(w1, w.next)
        } else {
            w1
        }
    } else {
        w
    }
}

/// The walk after `k` steps.
pub open spec fn walk(ends: Seq<(int, int)>, n: nat, k: nat) -> Walk
    decreases k,
{
    if k == 0 {
        start(n, ends.len())
    } else {
        step(ends, walk(ends, n, (k - 1) as nat))
    }
}

/// Whether there is nothing left to do.
pub open spec fn finished(w: Walk) -> bool {
    w.stack.len() == 0 && w.next >= w.marks.len()
}

/// Whether `back` marks the edges that the finished walk found to close
/// cycles.
pub open spec fn closes_cycles(ends: Seq<(int, int)>, n: nat, back: Seq<bool>) -> bool {
    exists|k: nat| finished(#[trigger] walk(ends, n, k)) && back == walk(ends, n, k).back
}

proof fn lemma_leaving(ends: Seq<(int, int)>, u: int, k: int)
    requires
        0 <= k <= ends.len(),
    ensures
        forall|i: int|
            0 <= i < leaving(ends, u, k).len() ==> 0 <= (#[trigger] leaving(ends, u, k)[i]) < k
                && ends[leaving(ends, u, k)[i]].0 == u,
        forall|e: int|
            0 <= e < k && (#[trigger] ends[e]).0 == u ==> leaving(ends, u, k).contains(e),
    decreases k,
{
    if k > 0 {
        lemma_leaving(ends, u, k - 1);
        let before = leaving(ends, u, k - 1);
        let all = leaving(ends, u, k);
        assert forall|i: int| 0 <= i < all.len() implies 0 <= (#[trigger] all[i]) < k
            && ends[all[i]].0 == u by {
            if i < before.len() {
                assert(all[i] == before[i]);
            }
        }
        assert forall|e: int| 0 <= e < k && (#[trigger] ends[e]).0 == u implies all.contains(e) by {
            if e < k - 1 {
                assert(before.contains(e));
                let i = choose|i: int| 0 <= i < before.len() && before[i] == e;
                assert(all[i] == e);
            } else {
                assert(all.last() == e);
                assert(all[all.len() - 1] == e);
            }
        }
    }
}

/// Whether edge `e` is settled as seen from a left node: it closes a cycle,
/// or its target was left too.
pub open spec fn settled(ends: Seq<(int, int)>, w: Walk, e: int) -> bool {
    w.back[e] || w.marks[ends[e].1] == Mark::Left
}

/// What holds between any two steps.
pub open spec fn sane(ends: Seq<(int, int)>, n: nat, w: Walk) -> bool {
    &&& w.marks.len() == n
    &&& w.back.len() == ends.len()
    &&& 0 <= w.next <= n
    // The open nodes are those on the stack, each once.
    &&& forall|i: int|
        0 <= i < w.stack.len() ==> 0 <= (#[trigger] w.stack[i]).0 < n && w.marks[w.stack[i].0]
            == Mark::Open && 0 <= w.stack[i].1 <= outs(ends, w.stack[i].0).len()
    &&& forall|i: int, j: int|
        0 <= i < j < w.stack.len() ==> (#[trigger] w.stack[i]).0 != (#[trigger] w.stack[j]).0
    &&& forall|v: int|
        0 <= v < n && #[trigger] w.marks[v] == Mark::Open ==> exists|i: int|
            0 <= i < w.stack.len() && (#[trigger] w.stack[i]).0 == v
    // The left nodes are those of the list.
    &&& forall|i: int|
        0 <= i < w.left.len() ==> 0 <= #[trigger] w.left[i] < n && w.marks[w.left[i]] == Mark::Left
    &&& forall|v: int|
        0 <= v < n && #[trigger] w.marks[v] == Mark::Left ==> w.left.contains(v)
    &&& w.left.no_duplicates()
    // Every node before the next start was reached.
    &&& forall|v: int| 0 <= v < w.next ==> #[trigger] w.marks[v] != Mark::Fresh
    // What an open node has looked at is settled, but for its open child.
    &&& forall|i: int, j: int|
        0 <= i < w.stack.len() && 0 <= j < (#[trigger] w.stack[i]).1 ==> settled(
            ends,
            w,
            #[trigger] outs(ends, w.stack[i].0)[j],
        ) || (i + 1 < w.stack.len() && w.stack[i + 1].0 == ends[outs(ends, w.stack[i].0)[j]].1)
    // Edges of left nodes that close no cycle lead to nodes left before.
    &&& forall|e: int, i: int|
        0 <= e < ends.len() && 0 <= i < w.left.len() && (#[trigger] ends[e]).0
            == #[trigger] w.left[i] && !w.back[e] ==> w.left.take(i).contains(ends[e].1)
}

proof fn lemma_leave(ends: Seq<(int, int)>, n: nat, w: Walk)
    requires
        in_graph(ends, n as int),
        sane(ends, n, w),
        w.stack.len() > 0,
        w.stack.last().1 == outs(ends, w.stack.last().0).len(),
    ensures
        sane(ends, n, step(ends, w)),
{
    let t = w.stack.len() - 1;
    let (u, seen) = w.stack.last();
    let x = step(ends, w);
    assert(w.stack[t] == (u, seen));
    assert forall|v: int| 0 <= v < n && #[trigger] x.marks[v] == Mark::Open implies exists|i: int|
        0 <= i < x.stack.len() && (#[trigger] x.stack[i]).0 == v by {
        assert(w.marks[v] == Mark::Open);
        let i = choose|i: int| 0 <= i < w.stack.len() && (#[trigger] w.stack[i]).0 == v;
        assert(x.stack[i].0 == v);
    }
    assert forall|i: int| 0 <= i < x.left.len() implies 0 <= #[trigger] x.left[i] < n
        && x.marks[x.left[i]] == Mark::Left by {
        if i < w.left.len() {
            assert(x.left[i] == w.left[i]);
        }
    }
    assert forall|v: int| 0 <= v < n && #[trigger] x.marks[v] == Mark::Left implies x.left.contains(
        v,
    ) by {
        if v == u {
            assert(x.left[w.left.len() as int] == u);
        } else {
            assert(w.marks[v] == Mark::Left);
            let i = choose|i: int| 0 <= i < w.left.len() && w.left[i] == v;
            assert(x.left[i] == v);
        }
    }
    assert(x.left.no_duplicates()) by {
        assert forall|i: int, j: int| 0 <= i < x.left.len() && 0 <= j < x.left.len() && i != j implies x.left[i]
            != x.left[j] by {
            if i < w.left.len() {
                assert(x.left[i] == w.left[i]);
            }
            if j < w.left.len() {
                assert(x.left[j] == w.left[j]);
            }
        }
    }
    assert forall|i: int, j: int|
        0 <= i < x.stack.len() && 0 <= j < (#[trigger] x.stack[i]).1 implies settled(
        ends,
        x,
        #[trigger] outs(ends, x.stack[i].0)[j],
    ) || (i + 1 < x.stack.len() && x.stack[i + 1].0 == ends[outs(ends, x.stack[i].0)[j]].1) by {
        assert(x.stack[i] == w.stack[i]);
        let e = outs(ends, w.stack[i].0)[j];
        lemma_leaving(ends, w.stack[i].0, ends.len() as int);
        assert(0 <= e < ends.len());
        if !settled(ends, w, e) {
            assert(w.stack[i + 1].0 == ends[e].1);
            if i + 1 < x.stack.len() {
                assert(x.stack[i + 1] == w.stack[i + 1]);
            }
        }
    }
    assert forall|e: int, i: int|
        0 <= e < ends.len() && 0 <= i < x.left.len() && (#[trigger] ends[e]).0
            == #[trigger] x.left[i] && !x.back[e] implies x.left.take(i).contains(ends[e].1) by {
        if i < w.left.len() {
            assert(x.left[i] == w.left[i]);
            assert(x.left.take(i) =~= w.left.take(i));
        } else {
            lemma_leaving(ends, u, ends.len() as int);
            assert(outs(ends, u).contains(e));
            let j = choose|j: int| 0 <= j < outs(ends, u).len() && outs(ends, u)[j] == e;
            assert(settled(ends, w, outs(ends, w.stack[t].0)[j]));
            assert(w.marks[ends[e].1] == Mark::Left);
            assert(w.left.contains(ends[e].1));
            assert(x.left.take(i) =~= w.left);
        }
    }
}

proof fn lemma_look(ends: Seq<(int, int)>, n: nat, w: Walk)
    requires
        in_graph(ends, n as int),
        sane(ends, n, w),
        w.stack.len() > 0,
        w.stack.last().1 < outs(ends, w.stack.last().0).len(),
    ensures
        sane(ends, n, step(ends, w)),
{
    let t = w.stack.len() - 1;
    let (u, seen) = w.stack.last();
    assert(w.stack[t] == (u, seen));
    lemma_leaving(ends, u, ends.len() as int);
    let e = outs(ends, u)[seen];
    let v = ends[e].1;
    assert(0 <= e < ends.len() && 0 <= v < n);
    let x = step(ends, w);
    assert(x == look(ends, w, e));
    assert(forall|i: int| 0 <= i < t ==> #[trigger] x.stack[i] == w.stack[i]);
    assert(x.stack[t] == (u, seen + 1));
    assert forall|i: int| 0 <= i < x.stack.len() implies 0 <= (#[trigger] x.stack[i]).0 < n
        && x.marks[x.stack[i].0] == Mark::Open && 0 <= x.stack[i].1 <= outs(
        ends,
        x.stack[i].0,
    ).len() by {
        if i <= t {
            assert(w.marks[w.stack[i].0] == Mark::Open);
        }
    }
    assert forall|i: int, j: int| 0 <= i < j < x.stack.len() implies (#[trigger] x.stack[i]).0 != (
    #[trigger] x.stack[j]).0 by {
        if j <= t {
            assert(w.stack[i].0 != w.stack[j].0);
        } else {
            assert(w.marks[w.stack[i].0] == Mark::Open);
        }
    }
    assert forall|y: int| 0 <= y < n && #[trigger] x.marks[y] == Mark::Open implies exists|i: int|
        0 <= i < x.stack.len() && (#[trigger] x.stack[i]).0 == y by {
        if w.marks[y] == Mark::Open {
            let i = choose|i: int| 0 <= i < w.stack.len() && (#[trigger] w.stack[i]).0 == y;
            assert(x.stack[i].0 == y);
        } else {
            assert(x.stack[t + 1].0 == y);
        }
    }
    assert forall|y: int| 0 <= y < n && #[trigger] x.marks[y] == Mark::Left implies x.left.contains(
        y,
    ) by {
        assert(w.marks[y] == Mark::Left);
    }
    assert forall|i: int, j: int|
        0 <= i < x.stack.len() && 0 <= j < (#[trigger] x.stack[i]).1 implies settled(
        ends,
        x,
        #[trigger] outs(ends, x.stack[i].0)[j],
    ) || (i + 1 < x.stack.len() && x.stack[i + 1].0 == ends[outs(ends, x.stack[i].0)[j]].1) by {
        let f = outs(ends, x.stack[i].0)[j];
        if i <= t {
            lemma_leaving(ends, x.stack[i].0, ends.len() as int);
            assert(0 <= f < ends.len());
            assert(x.stack[i].0 == w.stack[i].0);
            if i == t && j == seen {
                assert(f == e);
            } else {
                assert(j < w.stack[i].1);
                assert(settled(ends, w, f) || (i + 1 < w.stack.len() && w.stack[i + 1].0
                    == ends[f].1));
                if i + 1 < w.stack.len() {
                    assert(x.stack[i + 1].0 == w.stack[i + 1].0);
                }
            }
        }
    }
}

proof fn lemma_begin(ends: Seq<(int, int)>, n: nat, w: Walk)
    requires
        in_graph(ends, n as int),
        sane(ends, n, w),
        w.stack.len() == 0,
    ensures
        sane(ends, n, step(ends, w)),
{
    let x = step(ends, w);
    if w.next < n {
        if w.marks[w.next] == Mark::Fresh {
            assert(x.stack[0] == (w.next, 0int));
            assert forall|y: int| 0 <= y < n && #[trigger] x.marks[y] == Mark::Open implies exists|
                i: int,
            |
                0 <= i < x.stack.len() && (#[trigger] x.stack[i]).0 == y by {
                if w.marks[y] == Mark::Open {
                    let i = choose|i: int| 0 <= i < w.stack.len() && (#[trigger] w.stack[i]).0 == y;
                    assert(false);
                }
                assert(x.stack[0].0 == y);
            }
            assert forall|y: int| 0 <= y < n && #[trigger] x.marks[y] == Mark::Left implies x.left.contains(
                y,
            ) by {
                assert(w.marks[y] == Mark::Left);
            }
            assert forall|y: int| 0 <= y < x.next implies #[trigger] x.marks[y] != Mark::Fresh by {
                if y < w.next {
                    assert(w.marks[y] != Mark::Fresh);
                }
            }
        }
    }
}

proof fn lemma_step_sane(ends: Seq<(int, int)>, n: nat, w: Walk)
    requires
        in_graph(ends, n as int),
        sane(ends, n, w),
    ensures
        sane(ends, n, step(ends, w)),
{
    if w.stack.len() > 0 {
        assert(w.stack[w.stack.len() - 1] == w.stack.last());
        if w.stack.last().1 < outs(ends, w.stack.last().0).len() {
            lemma_look(ends, n, w);
        } else {
            lemma_leave(ends, n, w);
        }
    } else {
        lemma_begin(ends, n, w);
    }
}

proof fn lemma_walk_sane(ends: Seq<(int, int)>, n: nat, k: nat)
    requires
        in_graph(ends, n as int),
    ensures
        sane(ends, n, walk(ends, n, k)),
    decreases k,
{
    if k > 0 {
        lemma_walk_sane(ends, n, (k - 1) as nat);
        lemma_step_sane(ends, n, walk(ends, n, (k - 1) as nat));
    }
}

/// Whether the unmarked edges lead downwards in rank: they form no cycle.
pub open spec fn downwards(ends: Seq<(int, int)>, back: Seq<bool>, rank: spec_fn(int) -> nat) -> bool {
    forall|e: int|
        0 <= e < ends.len() && !back[e] ==> rank((#[trigger] ends[e]).1) < rank(ends[e].0)
}

/// The place of `v` in a list.
pub open spec fn place(s: Seq<int>, v: int) -> nat {
    s.index_of(v) as nat
}

/// Without the marked edges the graph has no cycle: every other edge leads
/// to a node that the walk left earlier.
pub proof fn law_back_edges_break_cycles(ends: Seq<(int, int)>, n: nat, back: Seq<bool>) -> (rank:
    spec_fn(int) -> nat)
    requires
        in_graph(ends, n as int),
        closes_cycles(ends, n, back),
    ensures
        downwards(ends, back, rank),
        forall|v: int| 0 <= v < n ==> #[trigger] rank(v) < n,
{
    let k = choose|k: nat| finished(#[trigger] walk(ends, n, k)) && back == walk(ends, n, k).back;
    let w = walk(ends, n, k);
    lemma_walk_sane(ends, n, k);
    let rank = |v: int| place(w.left, v);
    assert forall|v: int| 0 <= v < n implies w.left.contains(v) by {
        assert(w.marks[v] != Mark::Fresh);
        if w.marks[v] == Mark::Open {
            let i = choose|i: int| 0 <= i < w.stack.len() && (#[trigger] w.stack[i]).0 == v;
            assert(false);
        }
        assert(w.marks[v] == Mark::Left);
    }
    w.left.unique_seq_to_set();
    let all = vstd::set_lib::set_int_range(0, n as int);
    vstd::set_lib::lemma_int_range(0, n as int);
    assert(w.left.to_set().subset_of(all)) by {
        assert forall|u: int| w.left.to_set().contains(u) implies all.contains(u) by {
            let i = choose|i: int| 0 <= i < w.left.len() && w.left[i] == u;
            assert(0 <= w.left[i] < n);
        }
    }
    vstd::set_lib::lemma_len_subset(w.left.to_set(), all);
    assert forall|v: int| 0 <= v < n implies #[trigger] rank(v) < n by {
        assert(w.left.contains(v));
    }
    assert forall|e: int| 0 <= e < ends.len() && !back[e] implies rank((#[trigger] ends[e]).1)
        < rank(ends[e].0) by {
        let (u, v) = ends[e];
        assert(w.left.contains(u) && w.left.contains(v));
        let i = w.left.index_of(u);
        assert(w.left[i] == u);
        assert(w.left.take(i).contains(v));
        let j = choose|j: int| 0 <= j < i && w.left.take(i)[j] == v;
        assert(w.left[j] == v);
        let jj = w.left.index_of(v);
        assert(w.left[jj] == v);
        assert(jj == j);
    }
    rank
}

/// An edge from a node to itself is always marked.
pub proof fn law_loops_are_back_edges(ends: Seq<(int, int)>, n: nat, back: Seq<bool>, e: int)
    requires
        in_graph(ends, n as int),
        closes_cycles(ends, n, back),
        0 <= e < ends.len(),
        ends[e].0 == ends[e].1,
    ensures
        back[e],
{
    let rank = law_back_edges_break_cycles(ends, n, back);
    if !back[e] {
        assert(rank(ends[e].1) < rank(ends[e].0));
    }
}

/// Whether every edge leads to a node of higher rank: the graph has no
/// cycle.
pub open spec fn upwards(ends: Seq<(int, int)>, rank: spec_fn(int) -> int) -> bool {
    forall|e: int| 0 <= e < ends.len() ==> rank((#[trigger] ends[e]).0) < rank(ends[e].1)
}

proof fn lemma_stack_rises(ends: Seq<(int, int)>, n: nat, k: nat, rank: spec_fn(int) -> int)
    requires
        in_graph(ends, n as int),
        upwards(ends, rank),
    ensures
        forall|i: int, j: int|
            0 <= i < j < walk(ends, n, k).stack.len() ==> rank(
                (#[trigger] walk(ends, n, k).stack[i]).0,
            ) < rank((#[trigger] walk(ends, n, k).stack[j]).0),
        forall|e: int| 0 <= e < ends.len() ==> !#[trigger] walk(ends, n, k).back[e],
    decreases k,
{
    if k > 0 {
        let w = walk(ends, n, (k - 1) as nat);
        lemma_walk_sane(ends, n, (k - 1) as nat);
        lemma_stack_rises(ends, n, (k - 1) as nat, rank);
        if w.stack.len() > 0 {
            let t = w.stack.len() - 1;
            let (u, seen) = w.stack[t];
            if 0 <= seen < outs(ends, u).len() {
                lemma_leaving(ends, u, ends.len() as int);
                let e = outs(ends, u)[seen];
                let v = ends[e].1;
                assert(ends[e].0 == u);
                assert(rank(u) < rank(v));
                if w.marks[v] == Mark::Open {
                    let i = choose|i: int| 0 <= i < w.stack.len() && (#[trigger] w.stack[i]).0 == v;
                    assert(i < t || i == t);
                    assert(false);
                }
            }
        }
    }
}

/// In a graph without cycles no edge is marked.
pub proof fn law_acyclic_graphs_have_no_back_edges(
    ends: Seq<(int, int)>,
    n: nat,
    back: Seq<bool>,
    rank: spec_fn(int) -> int,
)
    requires
        in_graph(ends, n as int),
        closes_cycles(ends, n, back),
        upwards(ends, rank),
    ensures
        back =~= Seq::new(ends.len(), |e: int| false),
{
    let k = choose|k: nat| finished(#[trigger] walk(ends, n, k)) && back == walk(ends, n, k).back;
    lemma_walk_sane(ends, n, k);
    lemma_stack_rises(ends, n, k, rank);
}

/// Every edge is marked or not.
pub proof fn lemma_marks_per_edge(ends: Seq<(int, int)>, n: nat, back: Seq<bool>)
    requires
        in_graph(ends, n as int),
        closes_cycles(ends, n, back),
    ensures
        back.len() == ends.len(),
{
    let k = choose|k: nat| finished(#[trigger] walk(ends, n, k)) && back == walk(ends, n, k).back;
    lemma_walk_sane(ends, n, k);
}

/// How many of the first `k` nodes are fresh.
spec fn fresh(marks: Seq<Mark>, k: int) -> nat
    decreases k,
{
    if k <= 0 {
        0
    } else {
        fresh(marks, k - 1) + if marks[k - 1] == Mark::Fresh {
            1nat
        } else {
            0nat
        }
    }
}

proof fn lemma_fresh(marks: Seq<Mark>, v: int, m: Mark, k: int)
    requires
        0 <= k <= marks.len(),
        0 <= v < marks.len(),
        m != Mark::Fresh,
    ensures
        fresh(marks.update(v, m), k) == fresh(marks, k) - if v < k && marks[v] == Mark::Fresh {
            1int
        } else {
            0int
        },
    decreases k,
{
    if k > 0 {
        lemma_fresh(marks, v, m, k - 1);
    }
}

fn out_lists(ends: &Vec<(usize, usize)>, n: usize) -> (r: Vec<Vec<usize>>)
    requires
        in_graph(pair_ints(ends@), n as int),
    ensures
        r@.len() == n,
        forall|u: int|
            0 <= u < n ==> indices((#[trigger] r@[u])@) == outs(pair_ints(ends@), u),
{
    let ghost all = pair_ints(ends@);
    let mut r: Vec<Vec<usize>> = Vec::new();
    let mut i: usize = 0;
    while i < n
        invariant
            i <= n,
            r@.len() == i,
            forall|u: int| 0 <= u < i ==> (#[trigger] r@[u])@.len() == 0,
        decreases n - i,
    {
        r.push(Vec::new());
        i += 1;
    }
    assert forall|u: int| 0 <= u < n implies indices((#[trigger] r@[u])@) == leaving(
        all,
        u,
        0,
    ) by {
        assert(indices(r@[u]@) =~= Seq::empty());
    }
    let mut k: usize = 0;
    while k < ends.len()
        invariant
            k <= ends@.len(),
            all == pair_ints(ends@),
            in_graph(all, n as int),
            r@.len() == n,
            forall|u: int|
                0 <= u < n ==> indices((#[trigger] r@[u])@) == leaving(all, u, k as int),
        decreases ends@.len() - k,
    {
        let u = ends[k].0;
        assert(all[k as int] == (ends@[k as int].0 as int, ends@[k as int].1 as int));
        let ghost before = r@;
        r[u].push(k);
        assert(indices(r@[u as int]@) =~= indices(before[u as int]@).push(k as int));
        k += 1;
    }
    r
}

/// Mark the edges that close cycles.
pub fn back_edges(ends: &Vec<(usize, usize)>, n: usize) -> (r: Vec<bool>)
    requires
        in_graph(pair_ints(ends@), n as int),
    ensures
        closes_cycles(pair_ints(ends@), n as nat, r@),
        r@.len() == ends@.len(),
{
    let ghost all = pair_ints(ends@);
    let out = out_lists(ends, n);
    let mut marks: Vec<Mark> = Vec::new();
    let mut back: Vec<bool> = Vec::new();
    let mut stack: Vec<(usize, usize)> = Vec::new();
    let mut next: usize = 0;
    let ghost mut left: Seq<int> = Seq::empty();
    let ghost mut k: nat = 0;
    while marks.len() < n
        invariant
            marks@.len() <= n,
            forall|i: int| 0 <= i < marks@.len() ==> #[trigger] marks@[i] == Mark::Fresh,
        decreases n - marks@.len(),
    {
        marks.push(Mark::Fresh);
    }
    while back.len() < ends.len()
        invariant
            back@.len() <= ends@.len(),
            forall|i: int| 0 <= i < back@.len() ==> !#[trigger] back@[i],
        decreases ends@.len() - back@.len(),
    {
        back.push(false);
    }
    proof {
        assert(walk(all, n as nat, 0) =~= Walk {
            marks: marks@,
            back: back@,
            stack: pair_ints(stack@),
            next: 0,
            left,
        });
    }
    while stack.len() > 0 || next < n
        invariant
            all == pair_ints(ends@),
            in_graph(all, n as int),
            out@.len() == n,
            forall|u: int| 0 <= u < n ==> indices((#[trigger] out@[u])@) == outs(all, u),
            next <= n,
            walk(all, n as nat, k) == (Walk {
                marks: marks@,
                back: back@,
                stack: pair_ints(stack@),
                next: next as int,
                left,
            }),
        decreases
                fresh(marks@, n as int),
                stack@.len(),
                if stack@.len() > 0 {
                    outs(all, stack@.last().0 as int).len() - stack@.last().1
                } else {
                    0
                },
                n - next,
    {
        let ghost w = walk(all, n as nat, k);
        proof {
            lemma_walk_sane(all, n as nat, k);
        }
        let t: usize = stack.len();
        if t > 0 {
            let (u, seen) = stack[t - 1];
            assert(w.stack[t - 1] == (u as int, seen as int));
            assert(indices(out@[u as int]@) == outs(all, u as int));
            if seen < out[u].len() {
                let e = out[u][seen];
                proof {
                    lemma_leaving(all, u as int, all.len() as int);
                    assert(outs(all, u as int)[seen as int] == e as int);
                    assert(all[e as int] == (ends@[e as int].0 as int, ends@[e as int].1 as int));
                }
                let v = ends[e].1;
                let ghost before = stack@;
                stack[t - 1] = (u, seen + 1);
                assert(pair_ints(stack@) =~= pair_ints(before).update(
                    t - 1,
                    (u as int, seen as int + 1),
                ));
                match marks[v] {
                    Mark::Fresh => {
                        proof {
                            lemma_fresh(marks@, v as int, Mark::Open, n as int);
                        }
                        marks[v] = Mark::Open;
                        let ghost mid = stack@;
                        stack.push((v, 0));
                        assert(pair_ints(stack@) =~= pair_ints(mid).push((v as int, 0int)));
                    },
                    Mark::Open => {
                        back[e] = true;
                    },
                    Mark::Left => {},
                }
            } else {
                proof {
                    lemma_fresh(marks@, u as int, Mark::Left, n as int);
                    left = left.push(u as int);
                }
                marks[u] = Mark::Left;
                let ghost before = stack@;
                let _ = stack.pop();
                assert(pair_ints(stack@) =~= pair_ints(before).drop_last());
            }
        } else {
            if marks[next] == Mark::Fresh {
                proof {
                    lemma_fresh(marks@, next as int, Mark::Open, n as int);
                }
                marks[next] = Mark::Open;
                let ghost before = stack@;
                stack.push((next, 0));
                assert(pair_ints(stack@) =~= pair_ints(before).push((next as int, 0int)));
            }
            next += 1;
        }
        proof {
            assert(walk(all, n as nat, k + 1) == step(all, w));
            assert(step(all, w) =~= Walk {
                marks: marks@,
                back: back@,
                stack: pair_ints(stack@),
                next: next as int,
                left,
            });
            k = k + 1;
        }
    }
    proof {
        lemma_walk_sane(all, n as nat, k);
        assert(finished(walk(all, n as nat, k)));
    }
    back
}

} // verus!
