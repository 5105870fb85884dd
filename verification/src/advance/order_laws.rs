//! What holds of the order of a lane's nodes.

use vstd::prelude::*;

use crate::advance::order::{
    earlier, lane_order, last_named, links, local, local_ids, pull, pulled, put_in, sorted,
    topological, Pull,
};
use crate::advance::{AdvanceOrder, DiagramView};
use crate::peel::{completed, peel};
use crate::peel_laws::{
    arrangement, lemma_completed, lemma_completed_full, lemma_count, lemma_covers, lemma_peel,
    lemma_peel_all, ordered,
};

verus! {

proof fn lemma_topological(lane: Seq<usize>, d: DiagramView)
    ensures
        arrangement(topological(lane, d), lane.len() as int),
{
    let l = links(lane, d, d.edges.len() as int);
    let n = lane.len() as int;
    let p = peel(l, n, Seq::empty(), lane.len());
    lemma_peel(l, n, Seq::empty(), lane.len());
    lemma_completed(l, p, n, 0);
    lemma_count(completed(p, n, 0), n);
}

pub open spec fn firsts(s: Seq<(int, Pull)>) -> Seq<int> {
    s.map_values(|p: (int, Pull)| p.0)
}

proof fn lemma_put_in(s: Seq<(int, Pull)>, x: (int, Pull))
    ensures
        put_in(s, x).len() == s.len() + 1,
        firsts(put_in(s, x)).to_multiset() == firsts(s).to_multiset().insert(x.0),
    decreases s.len(),
{
    broadcast use vstd::seq_lib::group_to_multiset_ensures;

    if s.len() == 0 || !earlier(x.1, s.last().1) {
        assert(firsts(s.push(x)) =~= firsts(s).push(x.0));
    } else {
        let h = s.drop_last();
        lemma_put_in(h, x);
        assert(firsts(put_in(h, x).push(s.last())) =~= firsts(put_in(h, x)).push(s.last().0));
        assert(firsts(s) =~= firsts(h).push(s.last().0));
        assert(firsts(put_in(s, x)).to_multiset() =~= firsts(s).to_multiset().insert(x.0));
    }
}

proof fn lemma_sorted(s: Seq<(int, Pull)>)
    ensures
        sorted(s).len() == s.len(),
        firsts(sorted(s)).to_multiset() == firsts(s).to_multiset(),
    decreases s.len(),
{
    broadcast use vstd::seq_lib::group_to_multiset_ensures;

    if s.len() > 0 {
        let h = s.drop_last();
        lemma_sorted(h);
        lemma_put_in(sorted(h), s.last());
        assert(firsts(s) =~= firsts(h).push(s.last().0));
    }
}

proof fn lemma_same_items(a: Seq<int>, b: Seq<int>, n: int)
    requires
        arrangement(a, n),
        a.to_multiset() == b.to_multiset(),
        a.len() == b.len(),
    ensures
        arrangement(b, n),
{
    broadcast use vstd::seq_lib::group_to_multiset_ensures;

    a.lemma_multiset_has_no_duplicates();
    assert(forall|x: int| b.to_multiset().contains(x) ==> b.to_multiset().count(x) == 1);
    b.lemma_multiset_has_no_duplicates_conv();
    assert forall|i: int| 0 <= i < b.len() implies 0 <= #[trigger] b[i] < n by {
        assert(b.to_multiset().count(b[i]) > 0);
        assert(a.to_multiset().count(b[i]) > 0);
        assert(a.contains(b[i]));
        let k = choose|k: int| 0 <= k < a.len() && a[k] == b[i];
        assert(0 <= a[k] < n);
    }
}

/// The places of a lane in the order in which its nodes are stacked.
pub open spec fn places(lane: Seq<usize>, d: DiagramView) -> Seq<int> {
    firsts(sorted(pulled(lane, d)))
}

/// Ordering a lane loses no node and repeats none: the result is the lane
/// with its places arranged anew.
pub proof fn law_lane_order_is_an_arrangement(lane: Seq<usize>, d: DiagramView)
    ensures
        arrangement(places(lane, d), lane.len() as int),
        lane_order(lane, d, AdvanceOrder::Topology).len() == lane.len(),
        lane.len() > 1 ==> forall|i: int|
            0 <= i < lane.len() ==> #[trigger] lane_order(lane, d, AdvanceOrder::Topology)[i]
                == lane[places(lane, d)[i]],
{
    lemma_topological(lane, d);
    let s = pulled(lane, d);
    lemma_sorted(s);
    assert(firsts(s) =~= topological(lane, d));
    lemma_same_items(firsts(s), firsts(sorted(s)), lane.len() as int);
}

/// Where no cycle links the nodes of a lane, the first order puts every
/// node behind all that link to it.
pub proof fn law_acyclic_lane_is_topological(
    lane: Seq<usize>,
    d: DiagramView,
    rank: spec_fn(int) -> nat,
)
    requires
        forall|i: int|
            0 <= i < links(lane, d, d.edges.len() as int).len() ==> rank(
                (#[trigger] links(lane, d, d.edges.len() as int)[i]).0,
            ) < rank(links(lane, d, d.edges.len() as int)[i].1),
    ensures
        ordered(links(lane, d, d.edges.len() as int), topological(lane, d)),
{
    let l = links(lane, d, d.edges.len() as int);
    let n = lane.len() as int;
    let p = peel(l, n, Seq::empty(), lane.len());
    lemma_links_range(lane, d, d.edges.len() as int);
    lemma_peel(l, n, Seq::empty(), lane.len());
    lemma_peel_all(l, n, Seq::empty(), lane.len(), rank);
    lemma_covers(p, n);
    lemma_completed_full(p, n, 0);
}

/// Whether no edge leads out of a lane or into it.
pub open spec fn closed_lane(lane: Seq<usize>, d: DiagramView) -> bool {
    forall|k: int|
        0 <= k < d.edges.len() ==> (local(lane, d.nodes, (#[trigger] d.edges[k]).from) is Some)
            == (local(lane, d.nodes, d.edges[k].to) is Some)
}

proof fn lemma_no_pull(lane: Seq<usize>, d: DiagramView, u: int, k: int)
    requires
        closed_lane(lane, d),
        0 <= u < lane.len(),
        0 <= k <= d.edges.len(),
    ensures
        pull(lane, d, d.nodes[lane[u] as int].id, k).count == 0,
    decreases k,
{
    if k > 0 {
        lemma_no_pull(lane, d, u, k - 1);
        let ids = local_ids(lane, d.nodes);
        let id = d.nodes[lane[u] as int].id;
        assert(ids[u] == id);
        lemma_last_found(ids, id, u, lane.len() as int);
        assert(local(lane, d.nodes, id) is Some);
        let e = d.edges[k - 1];
        assert((local(lane, d.nodes, e.from) is Some) == (local(lane, d.nodes, e.to) is Some));
    }
}

proof fn lemma_last_found(names: Seq<Seq<char>>, name: Seq<char>, i: int, k: int)
    requires
        0 <= i < k,
        names[i] == name,
    ensures
        last_named(names, name, k) is Some,
    decreases k,
{
    if i < k - 1 && names[k - 1] != name {
        lemma_last_found(names, name, i, k - 1);
    }
}

proof fn lemma_sorted_still(s: Seq<(int, Pull)>)
    requires
        forall|i: int| 0 <= i < s.len() ==> (#[trigger] s[i]).1.count == 0,
    ensures
        sorted(s) == s,
    decreases s.len(),
{
    if s.len() > 0 {
        let h = s.drop_last();
        assert forall|i: int| 0 <= i < h.len() implies (#[trigger] h[i]).1.count == 0 by {
            assert(h[i] == s[i]);
        }
        lemma_sorted_still(h);
        assert(s[s.len() - 1].1.count == 0);
        assert(put_in(h, s.last()) == h.push(s.last()));
        assert(h.push(s.last()) =~= s);
    }
}

/// The nodes of a lane that no edge leaves are stacked in topological order:
/// where no cycle links them, every node stands behind all that link to it.
pub proof fn law_closed_lane_is_topological(
    lane: Seq<usize>,
    d: DiagramView,
    rank: spec_fn(int) -> nat,
)
    requires
        closed_lane(lane, d),
        forall|i: int|
            0 <= i < links(lane, d, d.edges.len() as int).len() ==> rank(
                (#[trigger] links(lane, d, d.edges.len() as int)[i]).0,
            ) < rank(links(lane, d, d.edges.len() as int)[i].1),
        lane.len() > 1,
    ensures
        ordered(links(lane, d, d.edges.len() as int), places(lane, d)),
        lane_order(lane, d, AdvanceOrder::Topology) == places(lane, d).map_values(
            |u: int| lane[u],
        ),
{
    lemma_topological(lane, d);
    let t = topological(lane, d);
    let s = pulled(lane, d);
    assert forall|i: int| 0 <= i < s.len() implies (#[trigger] s[i]).1.count == 0 by {
        assert(0 <= t[i] < lane.len());
        lemma_no_pull(lane, d, t[i], d.edges.len() as int);
    }
    lemma_sorted_still(s);
    assert(firsts(s) =~= t);
    law_acyclic_lane_is_topological(lane, d, rank);
    assert(lane_order(lane, d, AdvanceOrder::Topology) =~= places(lane, d).map_values(
        |u: int| lane[u],
    ));
}

proof fn lemma_last_named(names: Seq<Seq<char>>, name: Seq<char>, k: int)
    ensures
        last_named(names, name, k) matches Some(i) ==> 0 <= i < k,
    decreases k,
{
    if k > 0 && names[k - 1] != name {
        lemma_last_named(names, name, k - 1);
    }
}

proof fn lemma_links_range(lane: Seq<usize>, d: DiagramView, k: int)
    ensures
        forall|i: int|
            0 <= i < links(lane, d, k).len() ==> 0 <= (#[trigger] links(lane, d, k)[i]).0
                < lane.len(),
    decreases k,
{
    if k > 0 {
        lemma_links_range(lane, d, k - 1);
        let ids = local_ids(lane, d.nodes);
        lemma_last_named(ids, d.edges[k - 1].from, lane.len() as int);
        let before = links(lane, d, k - 1);
        let all = links(lane, d, k);
        assert forall|i: int| 0 <= i < all.len() implies 0 <= (#[trigger] all[i]).0 < lane.len() by {
            if i < before.len() {
                assert(all[i] == before[i]);
            }
        }
    }
}

/// The order of a lane lists nodes of the lane.
pub proof fn lemma_order_stays_in_lane(lane: Seq<usize>, d: DiagramView, order: AdvanceOrder)
    ensures
        forall|i: int|
            0 <= i < lane_order(lane, d, order).len() ==> lane.contains(
                #[trigger] lane_order(lane, d, order)[i],
            ),
{
    let o = lane_order(lane, d, order);
    law_lane_order_is_an_arrangement(lane, d);
    assert forall|i: int| 0 <= i < o.len() implies lane.contains(#[trigger] o[i]) by {
        if order == AdvanceOrder::Declaration || lane.len() <= 1 {
            assert(o[i] == lane[i]);
        } else {
            let j = places(lane, d)[i];
            assert(o[i] == lane[j]);
            assert(0 <= j < lane.len());
        }
    }
}

} // verus!
