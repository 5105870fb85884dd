//! Assigning layers: every edge that closes no cycle leads to a later
//! layer, and no node lies deeper than its longest way down requires.

use vstd::prelude::*;

use crate::layout::cycles::{closes_cycles, in_graph, law_back_edges_break_cycles};
use crate::peel::{indices, pair_ints, peel_all};
use crate::peel_laws::{lemma_covers, lemma_peel, lemma_peel_all, ordered, partial};

verus! {

/// The edges that are not marked, among the first `k`.
pub open spec fn kept(ends: Seq<(int, int)>, back: Seq<bool>, k: int) -> Seq<(int, int)>
    decreases k,
{
    if k <= 0 {
        Seq::empty()
    } else if back[k - 1] {
        kept(ends, back, k - 1)
    } else {
        kept(ends, back, k - 1).push(ends[k - 1])
    }
}

/// Whether `layer` is the longest-path layering over the given links: each
/// link leads at least one layer down, and each node below the first layer
/// has a link from the layer just above.
pub open spec fn layered(links: Seq<(int, int)>, layer: Seq<int>) -> bool {
    &&& forall|i: int|
        0 <= i < links.len() ==> layer[(#[trigger] links[i]).1] >= layer[links[i].0] + 1
    &&& forall|v: int|
        0 <= v < layer.len() ==> #[trigger] layer[v] == 0 || exists|i: int|
            0 <= i < links.len() && (#[trigger] links[i]).1 == v && layer[v] == layer[links[i].0]
                + 1
}

/// Whether the links lead upwards in rank.
pub open spec fn ranked(links: Seq<(int, int)>, rank: spec_fn(int) -> nat) -> bool {
    forall|i: int| 0 <= i < links.len() ==> rank((#[trigger] links[i]).0) < rank(links[i].1)
}

proof fn lemma_layer_le(
    links: Seq<(int, int)>,
    n: int,
    a: Seq<int>,
    b: Seq<int>,
    rank: spec_fn(int) -> nat,
    v: int,
)
    requires
        in_graph(links, n),
        ranked(links, rank),
        a.len() == n,
        b.len() == n,
        layered(links, a),
        layered(links, b),
        0 <= v < n,
        forall|u: int| 0 <= u < n ==> 0 <= #[trigger] b[u],
    ensures
        a[v] <= b[v],
    decreases rank(v),
{
    if a[v] != 0 {
        let i = choose|i: int|
            0 <= i < links.len() && (#[trigger] links[i]).1 == v && a[v] == a[links[i].0] + 1;
        assert(rank(links[i].0) < rank(links[i].1));
        lemma_layer_le(links, n, a, b, rank, links[i].0);
    }
}

/// There is only one longest-path layering of a graph without cycles.
pub proof fn law_layers_are_unique(
    links: Seq<(int, int)>,
    n: int,
    a: Seq<int>,
    b: Seq<int>,
    rank: spec_fn(int) -> nat,
)
    requires
        in_graph(links, n),
        ranked(links, rank),
        a.len() == n,
        b.len() == n,
        layered(links, a),
        layered(links, b),
        forall|u: int| 0 <= u < n ==> 0 <= #[trigger] a[u],
        forall|u: int| 0 <= u < n ==> 0 <= #[trigger] b[u],
    ensures
        a == b,
{
    assert forall|v: int| 0 <= v < n implies a[v] == b[v] by {
        lemma_layer_le(links, n, a, b, rank, v);
        lemma_layer_le(links, n, b, a, rank, v);
    }
    assert(a =~= b);
}

proof fn lemma_kept(ends: Seq<(int, int)>, back: Seq<bool>, n: int, k: int)
    requires
        in_graph(ends, n),
        0 <= k <= ends.len(),
    ensures
        in_graph(kept(ends, back, k), n),
        forall|i: int|
            0 <= i < kept(ends, back, k).len() ==> exists|e: int|
                0 <= e < k && !back[e] && #[trigger] ends[e] == #[trigger] kept(ends, back, k)[i],
    decreases k,
{
    if k > 0 {
        lemma_kept(ends, back, n, k - 1);
        let before = kept(ends, back, k - 1);
        let all = kept(ends, back, k);
        assert forall|i: int| 0 <= i < all.len() implies exists|e: int|
            0 <= e < k && !back[e] && #[trigger] ends[e] == #[trigger] all[i] by {
            if i < before.len() {
                assert(all[i] == before[i]);
                let e = choose|e: int|
                    0 <= e < k - 1 && !back[e] && #[trigger] ends[e] == before[i];
                assert(ends[e] == all[i]);
            } else {
                assert(ends[k - 1] == all[i]);
            }
        }
        assert forall|i: int| 0 <= i < all.len() implies 0 <= (#[trigger] all[i]).0 < n && 0
            <= all[i].1 < n by {
            let e = choose|e: int| 0 <= e < k && !back[e] && #[trigger] ends[e] == all[i];
            assert(0 <= ends[e].0 < n);
        }
    }
}

/// What is kept leads upwards in the rank that counts from the other end.
proof fn lemma_kept_ranked(ends: Seq<(int, int)>, back: Seq<bool>, n: nat) -> (rank: spec_fn(
    int,
) -> nat)
    requires
        in_graph(ends, n as int),
        closes_cycles(ends, n, back),
    ensures
        ranked(kept(ends, back, ends.len() as int), rank),
{
    let down = law_back_edges_break_cycles(ends, n, back);
    let rank = |v: int| (n - down(v)) as nat;
    let l = kept(ends, back, ends.len() as int);
    lemma_kept(ends, back, n as int, ends.len() as int);
    assert forall|i: int| 0 <= i < l.len() implies rank((#[trigger] l[i]).0) < rank(l[i].1) by {
        let e = choose|e: int| 0 <= e < ends.len() && !back[e] && #[trigger] ends[e] == l[i];
        assert(down(ends[e].1) < down(ends[e].0));
        assert(down(ends[e].0) < n);
    }
    rank
}

fn kept_links(ends: &Vec<(usize, usize)>, back: &Vec<bool>) -> (r: Vec<(usize, usize)>)
    requires
        back@.len() == ends@.len(),
    ensures
        pair_ints(r@) == kept(pair_ints(ends@), back@, ends@.len() as int),
{
    let ghost all = pair_ints(ends@);
    let mut r: Vec<(usize, usize)> = Vec::new();
    let mut k: usize = 0;
    assert(pair_ints(r@) =~= Seq::empty());
    while k < ends.len()
        invariant
            k <= ends@.len(),
            back@.len() == ends@.len(),
            all == pair_ints(ends@),
            pair_ints(r@) == kept(all, back@, k as int),
        decreases ends@.len() - k,
    {
        if !back[k] {
            let ghost before = r@;
            r.push(ends[k]);
            assert(pair_ints(r@) =~= pair_ints(before).push(all[k as int]));
        }
        k += 1;
    }
    r
}

/// What holds while the first `i` nodes of `order`, and the first `k` links
/// of the next one, were taken into account.
#[verifier::opaque]
spec fn settling(
    links: Seq<(int, int)>,
    order: Seq<int>,
    layer: Seq<int>,
    i: int,
    k: int,
) -> bool {
    &&& forall|j: int|
        0 <= j < links.len() && accounted(links, order, i, k, j) ==> layer[(
        #[trigger] links[j]).1] >= layer[links[j].0] + 1
    &&& forall|v: int|
        0 <= v < layer.len() ==> #[trigger] layer[v] == 0 || exists|j: int|
            0 <= j < links.len() && accounted(links, order, i, k, j) && (#[trigger] links[j]).1 == v
                && layer[v] == layer[links[j].0] + 1
}

spec fn accounted(links: Seq<(int, int)>, order: Seq<int>, i: int, k: int, j: int) -> bool {
    order.take(i).contains(links[j].0) || (i < order.len() && links[j].0 == order[i] && j < k)
}

/// Taking link `k` of node `order[i]` into account.
proof fn lemma_settling(
    links: Seq<(int, int)>,
    order: Seq<int>,
    layer: Seq<int>,
    i: int,
    k: int,
    next: Seq<int>,
)
    requires
        in_graph(links, layer.len() as int),
        ordered(links, order),
        order.no_duplicates(),
        0 <= i < order.len(),
        0 <= k < links.len(),
        settling(links, order, layer, i, k),
        links[k].0 == order[i],
        next == if layer[order[i]] + 1 > layer[links[k].1] {
            layer.update(links[k].1, layer[order[i]] + 1)
        } else {
            layer
        },
    ensures
        settling(links, order, next, i, k + 1),
{
    reveal(settling);
    let u = order[i];
    let v = links[k].1;
    assert(next.len() == layer.len());
    // `v` comes later than everything accounted for.
    assert forall|q: int| 0 <= q <= i implies order[q] != v by {
        if order[q] == v {
            assert(links[k].1 == order[q]);
            assert(order.take(q).contains(u));
            let p = choose|p: int| 0 <= p < q && order.take(q)[p] == u;
            assert(order[p] == u);
        }
    }
    assert forall|j: int| 0 <= j < links.len() && accounted(links, order, i, k + 1, j) implies next[(
    #[trigger] links[j]).1] >= next[links[j].0] + 1 by {
        let a = links[j].0;
        assert(a != v) by {
            if order.take(i).contains(a) {
                let p = choose|p: int| 0 <= p < i && order.take(i)[p] == a;
                assert(order[p] == a);
            }
        }
        if accounted(links, order, i, k, j) {
            assert(layer[links[j].1] >= layer[a] + 1);
        } else {
            assert(j == k);
        }
    }
    assert forall|w: int| 0 <= w < next.len() implies #[trigger] next[w] == 0 || exists|j: int|
        0 <= j < links.len() && accounted(links, order, i, k + 1, j) && (#[trigger] links[j]).1 == w
            && next[w] == next[links[j].0] + 1 by {
        if w == v && layer[u] + 1 > layer[v] {
            assert(links[k].1 == w && accounted(links, order, i, k + 1, k));
        } else if layer[w] != 0 {
            let j = choose|j: int|
                0 <= j < links.len() && accounted(links, order, i, k, j) && (#[trigger] links[j]).1
                    == w && layer[w] == layer[links[j].0] + 1;
            let a = links[j].0;
            assert(a != v) by {
                if order.take(i).contains(a) {
                    let p = choose|p: int| 0 <= p < i && order.take(i)[p] == a;
                    assert(order[p] == a);
                }
            }
            assert(accounted(links, order, i, k + 1, j));
        }
    }
}

/// A link that does not leave `order[i]` changes nothing.
proof fn lemma_settling_other(
    links: Seq<(int, int)>,
    order: Seq<int>,
    layer: Seq<int>,
    i: int,
    k: int,
)
    requires
        0 <= i < order.len(),
        0 <= k < links.len(),
        settling(links, order, layer, i, k),
        links[k].0 != order[i],
    ensures
        settling(links, order, layer, i, k + 1),
{
    reveal(settling);
    assert(forall|j: int|
        0 <= j < links.len() ==> (accounted(links, order, i, k + 1, j) <==> accounted(
            links,
            order,
            i,
            k,
            j,
        )));
}

proof fn lemma_settling_next(links: Seq<(int, int)>, order: Seq<int>, layer: Seq<int>, i: int)
    requires
        0 <= i < order.len(),
        settling(links, order, layer, i, links.len() as int),
    ensures
        settling(links, order, layer, i + 1, 0),
{
    reveal(settling);
    assert forall|j: int| 0 <= j < links.len() implies (accounted(links, order, i + 1, 0, j)
        <==> accounted(links, order, i, links.len() as int, j)) by {
        let a = links[j].0;
        let h = order.take(i);
        let t = order.take(i + 1);
        if h.contains(a) {
            let p = choose|p: int| 0 <= p < h.len() && h[p] == a;
            assert(t[p] == a);
        }
        if a == order[i] {
            assert(t[i] == a);
        }
        if t.contains(a) && a != order[i] {
            let p = choose|p: int| 0 <= p < t.len() && t[p] == a;
            assert(h[p] == a);
        }
    }
}

/// The longest-path layering of a graph without its back edges.
pub fn assign_layers(ends: &Vec<(usize, usize)>, back: &Vec<bool>, n: usize) -> (r: Vec<usize>)
    requires
        in_graph(pair_ints(ends@), n as int),
        closes_cycles(pair_ints(ends@), n as nat, back@),
        back@.len() == ends@.len(),
    ensures
        r@.len() == n,
        layered(kept(pair_ints(ends@), back@, ends@.len() as int), indices(r@)),
        forall|v: int| 0 <= v < n ==> (#[trigger] r@[v]) < n,
{
    let links = kept_links(ends, back);
    let ghost l = pair_ints(links@);
    proof {
        lemma_kept(pair_ints(ends@), back@, n as int, ends@.len() as int);
        let rank = lemma_kept_ranked(pair_ints(ends@), back@, n as nat);
        lemma_peel(l, n as int, Seq::empty(), n as nat);
        assert(forall|i: int|
            0 <= i < l.len() ==> 0 <= (#[trigger] l[i]).0 < n && rank(l[i].0) < rank(l[i].1));
        lemma_peel_all(l, n as int, Seq::empty(), n as nat, rank);
        assert forall|i: int| 0 <= i < links@.len() implies (#[trigger] links@[i]).1 < n
            && links@[i].0 < n by {
            assert(l[i] == (links@[i].0 as int, links@[i].1 as int));
        }
    }
    let p = peel_all(&links, n);
    let order = p.done;
    let ghost o = indices(order@);
    let mut layer: Vec<usize> = Vec::new();
    while layer.len() < n
        invariant
            layer@.len() <= n,
            forall|v: int| 0 <= v < layer@.len() ==> #[trigger] layer@[v] == 0,
        decreases n - layer@.len(),
    {
        layer.push(0);
    }
    let mut i: usize = 0;
    assert(settling(l, o, indices(layer@), 0, 0)) by {
        reveal(settling);
        assert(o.take(0) =~= Seq::empty());
    }
    while i < order.len()
        invariant
            i <= order@.len(),
            o == indices(order@),
            o.len() == n,
            l == pair_ints(links@),
            in_graph(l, n as int),
            ordered(l, o),
            partial(o, n as int),
            layer@.len() == n,
            settling(l, o, indices(layer@), i as int, 0),
            forall|v: int| 0 <= v < n ==> #[trigger] layer@[v] <= i && (i < n || layer@[v] < n
                || n == 0),
            forall|j: int|
                0 <= j < links@.len() ==> (#[trigger] links@[j]).0 < n && links@[j].1 < n,
        decreases order@.len() - i,
    {
        let u = order[i];
        assert(o[i as int] == u as int);
        let mut k: usize = 0;
        while k < links.len()
            invariant
                i < order@.len(),
                k <= links@.len(),
                o == indices(order@),
                o.len() == n,
                u as int == o[i as int],
                u < n,
                l == pair_ints(links@),
                in_graph(l, n as int),
                ordered(l, o),
                partial(o, n as int),
                layer@.len() == n,
                settling(l, o, indices(layer@), i as int, k as int),
                layer@[u as int] <= i,
                forall|v: int| 0 <= v < n ==> #[trigger] layer@[v] <= i + 1,
                i + 1 == n ==> forall|v: int| 0 <= v < n ==> #[trigger] layer@[v] < n,
                forall|j: int|
                    0 <= j < links@.len() ==> (#[trigger] links@[j]).0 < n && links@[j].1 < n,
            decreases links@.len() - k,
        {
            let (a, v) = links[k];
            assert(l[k as int] == (a as int, v as int));
            let ghost before = indices(layer@);
            if a == u {
                let down: usize = layer[u] + 1;
                proof {
                    // The last node of the order has no link.
                    if i + 1 == n {
                        lemma_last_has_no_link(l, o, n as int, k as int);
                    }
                    lemma_no_loop(l, o, i as int, k as int);
                }
                if down > layer[v] {
                    layer[v] = down;
                }
                assert(indices(layer@) =~= if before[u as int] + 1 > before[v as int] {
                    before.update(v as int, before[u as int] + 1)
                } else {
                    before
                });
                proof {
                    lemma_settling(l, o, before, i as int, k as int, indices(layer@));
                }
            } else {
                proof {
                    lemma_settling_other(l, o, before, i as int, k as int);
                }
            }
            k += 1;
        }
        proof {
            lemma_settling_next(l, o, indices(layer@), i as int);
        }
        i += 1;
    }
    proof {
        lemma_covers(o, n as int);
        reveal(settling);
        assert(o.take(o.len() as int) =~= o);
        assert(layered(l, indices(layer@)));
        if n > 0 {
            assert(forall|v: int| 0 <= v < n ==> (#[trigger] layer@[v]) < n);
        }
    }
    layer
}

/// A node of an order does not link to itself.
proof fn lemma_no_loop(l: Seq<(int, int)>, o: Seq<int>, i: int, k: int)
    requires
        ordered(l, o),
        o.no_duplicates(),
        0 <= i < o.len(),
        0 <= k < l.len(),
        l[k].0 == o[i],
    ensures
        l[k].1 != o[i],
{
    if l[k].1 == o[i] {
        assert(o.take(i).contains(o[i]));
        let q = choose|q: int| 0 <= q < i && o.take(i)[q] == o[i];
        assert(o[q] == o[i]);
    }
}

/// Nothing is left for the last node of an order to link to.
proof fn lemma_last_has_no_link(l: Seq<(int, int)>, o: Seq<int>, n: int, k: int)
    requires
        in_graph(l, n),
        ordered(l, o),
        partial(o, n),
        o.len() == n,
        0 <= k < l.len(),
    ensures
        l[k].0 != o[n - 1],
{
    lemma_covers(o, n);
    let v = l[k].1;
    assert(o.contains(v));
    let q = choose|q: int| 0 <= q < o.len() && o[q] == v;
    assert(l[k].1 == o[q]);
    assert(o.take(q).contains(l[k].0));
    let p = choose|p: int| 0 <= p < q && o.take(q)[p] == l[k].0;
    assert(o[p] == l[k].0 && p < n - 1);
}

} // verus!
