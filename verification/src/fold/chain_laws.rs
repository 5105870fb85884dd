//! What holds of the run of a graph.

use crate::fold::chain::{edges_exist, hops, is_linear, lemma_hops_exist, lemma_target, origin, run_of, starts, target, way};
use crate::model::Graph;
use crate::peel_laws::{arrangement, lemma_covers};
use vstd::prelude::*;

verus! {

/// Whether position `i` of `run` and the next hold `a` and `b`.
pub open spec fn comes_at(run: Seq<int>, i: int, a: int, b: int) -> bool {
    0 <= i < run.len() - 1 && run[i] == a && run[i + 1] == b
}

/// Whether a hop leads from some position of `run` to the next.
pub open spec fn lies_on(run: Seq<int>, hop: (int, int)) -> bool {
    exists|i: int| #[trigger] comes_at(run, i, hop.0, hop.1)
}

/// Whether a hop leads from position `i` of `run` to the next.
pub open spec fn hop_at(h: Seq<(int, int)>, run: Seq<int>, i: int) -> bool {
    h.contains((run[i], run[i + 1]))
}

/// Whether `run` lists every node of a graph with `n` nodes once, and the
/// hops are those from each node to the next.
pub open spec fn is_run(h: Seq<(int, int)>, n: int, run: Seq<int>) -> bool {
    &&& arrangement(run, n)
    &&& forall|i: int| 0 <= i < n - 1 ==> #[trigger] hop_at(h, run, i)
    &&& forall|k: int| 0 <= k < h.len() ==> lies_on(run, #[trigger] h[k])
}

spec fn follows(h: Seq<(int, int)>, w: Seq<int>, i: int) -> bool {
    target(h, w[i]) == Some(w[i + 1])
}

proof fn lemma_way(h: Seq<(int, int)>, v: int, room: nat)
    ensures
        0 < way(h, v, room).len() <= room + 1,
        way(h, v, room)[0] == v,
        forall|i: int|
            0 <= i < way(h, v, room).len() - 1 ==> #[trigger] follows(h, way(h, v, room), i),
        way(h, v, room).len() <= room ==> target(h, way(h, v, room).last()) is None,
    decreases room,
{
    if room > 0 {
        if let Some(t) = target(h, v) {
            let r = (room - 1) as nat;
            lemma_way(h, t, r);
            let w = way(h, v, room);
            let u = way(h, t, r);
            assert(w == seq![v] + u);
            assert forall|i: int| 0 <= i < w.len() - 1 implies #[trigger] follows(h, w, i) by {
                if i > 0 {
                    assert(follows(h, u, i - 1));
                    assert(w[i] == u[i - 1]);
                    assert(w[i + 1] == u[i]);
                }
            }
        }
    }
}

/// Along a way from a node that nothing leads to, no node comes twice.
proof fn lemma_no_return(h: Seq<(int, int)>, w: Seq<int>, i: int, j: int)
    requires
        is_linear(h),
        w.len() > 0,
        origin(h, w[0]) is None,
        forall|k: int| 0 <= k < w.len() - 1 ==> #[trigger] follows(h, w, k),
        0 <= i < j < w.len(),
    ensures
        w[i] != w[j],
    decreases i,
{
    if w[i] == w[j] {
        assert(follows(h, w, j - 1));
        lemma_target(h, w[j - 1]);
        let q = choose|q: int| 0 <= q < h.len() && #[trigger] h[q] == (w[j - 1], w[j]);
        if i == 0 {
            lemma_target(h, w[0]);
            assert(h[q].1 == w[0]);
        } else {
            assert(follows(h, w, i - 1));
            lemma_target(h, w[i - 1]);
            let p = choose|p: int| 0 <= p < h.len() && #[trigger] h[p] == (w[i - 1], w[i]);
            assert(h[p].1 == h[q].1);
            if p != q {
                assert(h[p].0 == h[q].0);
            }
            lemma_no_return(h, w, i - 1, j - 1);
        }
    }
}

proof fn lemma_starts(h: Seq<(int, int)>, k: int)
    ensures
        forall|i: int|
            0 <= i < starts(h, k).len() ==> 0 <= #[trigger] starts(h, k)[i] < k && origin(
                h,
                starts(h, k)[i],
            ) is None,
        forall|v: int|
            0 <= v < k && origin(h, v) is None ==> #[trigger] starts(h, k).contains(v),
    decreases k,
{
    if k > 0 {
        lemma_starts(h, k - 1);
        let before = starts(h, k - 1);
        assert forall|v: int| 0 <= v < k && origin(h, v) is None implies #[trigger] starts(
            h,
            k,
        ).contains(v) by {
            if v < k - 1 {
                assert(before.contains(v));
                let i = choose|i: int| 0 <= i < before.len() && before[i] == v;
                assert(starts(h, k)[i] == v);
            } else {
                assert(starts(h, k).last() == v);
                assert(starts(h, k)[before.len() as int] == v);
            }
        }
    }
}

/// A way through `n` nodes from the one node that nothing leads to is a run.
proof fn lemma_way_is_run(h: Seq<(int, int)>, n: int, run: Seq<int>)
    requires
        is_linear(h),
        forall|i: int| 0 <= i < h.len() ==> 0 <= (#[trigger] h[i]).0 < n && 0 <= h[i].1 < n,
        run.len() == n,
        n > 0,
        0 <= run[0] < n,
        origin(h, run[0]) is None,
        forall|i: int| 0 <= i < n - 1 ==> #[trigger] follows(h, run, i),
        target(h, run[n - 1]) is None,
    ensures
        is_run(h, n, run),
{
    assert(run.no_duplicates()) by {
        assert forall|i: int, j: int|
            0 <= i < run.len() && 0 <= j < run.len() && i != j implies run[i] != run[j] by {
            if i < j {
                lemma_no_return(h, run, i, j);
            } else {
                lemma_no_return(h, run, j, i);
            }
        }
    }
    assert forall|i: int| 0 <= i < n - 1 implies #[trigger] hop_at(h, run, i) by {
        assert(follows(h, run, i));
        lemma_target(h, run[i]);
    }
    assert forall|i: int| 0 <= i < run.len() implies 0 <= #[trigger] run[i] < n by {
        if i > 0 {
            assert(hop_at(h, run, i - 1));
            let q = choose|q: int| 0 <= q < h.len() && h[q] == (run[i - 1], run[i]);
            assert(0 <= h[q].1 < n);
        }
    }
    assert(arrangement(run, n));
    lemma_covers(run, n);
    assert forall|k: int| 0 <= k < h.len() implies lies_on(run, #[trigger] h[k]) by {
        let a = h[k].0;
        assert(run.contains(a));
        let i = choose|i: int| 0 <= i < run.len() && run[i] == a;
        lemma_target(h, a);
        if i < n - 1 {
            assert(follows(h, run, i));
            let q = choose|q: int| 0 <= q < h.len() && #[trigger] h[q] == (a, run[i + 1]);
            if q != k {
                assert(h[q].0 == h[k].0);
                assert(h[q].1 == h[k].1);
            }
            assert(comes_at(run, i, h[k].0, h[k].1));
        }
    }
}

/// A run that is found lists every node once, in the order of the hops, and
/// the graph has no other hops.
pub proof fn law_run_follows_the_edges(g: Graph)
    requires
        edges_exist(g),
    ensures
        run_of(g) matches Ok(run) ==> is_run(hops(g.edges@), g.nodes@.len() as int, run),
{
    if let Ok(run) = run_of(g) {
        let n = g.nodes@.len() as int;
        let h = hops(g.edges@);
        lemma_hops_exist(g.edges@, n);
        lemma_starts(h, n);
        lemma_way(h, starts(h, n)[0], n as nat);
        assert(run.last() == run[n - 1]);
        lemma_way_is_run(h, n, run);
    }
}

proof fn lemma_run_is_linear(h: Seq<(int, int)>, n: int, run: Seq<int>)
    requires
        is_run(h, n, run),
    ensures
        is_linear(h),
{
    assert forall|a: int, b: int| 0 <= a < b < h.len() implies ((#[trigger] h[a]).0 == (
    #[trigger] h[b]).0 <==> h[a].1 == h[b].1) by {
        assert(lies_on(run, h[a]) && lies_on(run, h[b]));
        let i = choose|i: int| #[trigger] comes_at(run, i, h[a].0, h[a].1);
        let j = choose|j: int| #[trigger] comes_at(run, j, h[b].0, h[b].1);
        assert(i == j || (run[i] != run[j] && run[i + 1] != run[j + 1]));
    }
}

/// Only the first node of a run has nothing leading to it.
proof fn lemma_first_of_run(h: Seq<(int, int)>, n: int, run: Seq<int>, v: int)
    requires
        is_run(h, n, run),
        0 <= v < n,
    ensures
        origin(h, v) is None <==> v == run[0],
{
    lemma_covers(run, n);
    lemma_target(h, v);
    assert(run.contains(v));
    let i = choose|i: int| 0 <= i < run.len() && run[i] == v;
    if i > 0 {
        assert(hop_at(h, run, i - 1));
        let q = choose|q: int| 0 <= q < h.len() && h[q] == (run[i - 1], run[i]);
        assert(h[q].1 == v);
    } else if origin(h, v) is Some {
        let t = origin(h, v)->Some_0;
        let q = choose|q: int| 0 <= q < h.len() && #[trigger] h[q] == (t, v);
        let j = choose|j: int| #[trigger] comes_at(run, j, h[q].0, h[q].1);
        assert(run[j + 1] == run[0]);
    }
}

/// A graph of at least two nodes without subgraphs whose hops make one run
/// is found to be that run.
pub proof fn law_run_is_found(g: Graph, run: Seq<int>)
    requires
        edges_exist(g),
        g.subgraphs@.len() == 0,
        g.sub_edges@.len() == 0,
        g.nodes@.len() >= 2,
        is_run(hops(g.edges@), g.nodes@.len() as int, run),
    ensures
        run_of(g) == Ok::<Seq<int>, crate::fold::FoldSkip>(run),
{
    let n = g.nodes@.len() as int;
    let h = hops(g.edges@);
    lemma_run_is_linear(h, n, run);
    assert forall|v: int| 0 <= v < n implies (#[trigger] origin(h, v) is None <==> v == run[0]) by {
        lemma_first_of_run(h, n, run, v);
    }
    lemma_one_start(h, n, run[0]);
    lemma_follow(h, run, n, 0);
    assert(run.skip(0) =~= run);
}

proof fn lemma_one_start(h: Seq<(int, int)>, k: int, s: int)
    requires
        0 <= k,
        0 <= s,
        forall|v: int| 0 <= v < k ==> (#[trigger] origin(h, v) is None <==> v == s),
    ensures
        starts(h, k) == (if s < k {
            seq![s]
        } else {
            Seq::empty()
        }),
    decreases k,
{
    if k > 0 {
        lemma_one_start(h, k - 1, s);
        assert(origin(h, k - 1) is None <==> k - 1 == s);
        assert(starts(h, k) =~= (if s < k {
            seq![s]
        } else {
            Seq::empty()
        }));
    }
}

proof fn lemma_follow(h: Seq<(int, int)>, run: Seq<int>, n: int, i: int)
    requires
        is_run(h, n, run),
        0 <= i < n,
    ensures
        way(h, run[i], (n - i) as nat) == run.skip(i),
    decreases n - i,
{
    lemma_target(h, run[i]);
    if let Some(t) = target(h, run[i]) {
        let q = choose|q: int| 0 <= q < h.len() && #[trigger] h[q] == (run[i], t);
        let j = choose|j: int| #[trigger] comes_at(run, j, h[q].0, h[q].1);
        assert(j == i);
        lemma_follow(h, run, n, i + 1);
        assert(seq![run[i]] + run.skip(i + 1) =~= run.skip(i));
    } else {
        if i + 1 < n {
            assert(hop_at(h, run, i));
            let q = choose|q: int| 0 <= q < h.len() && h[q] == (run[i], run[i + 1]);
            assert(h[q].0 == run[i]);
        }
        assert(seq![run[i]] =~= run.skip(i));
    }
}

} // verus!
