//! The order of a lane's nodes: topological, then drawn towards the nodes
//! of other lanes they are connected with.

use vstd::prelude::*;

use crate::advance::ends::lane_node_ids;
use crate::advance::{
    lane_node_views, AdvanceConfig, AdvanceDiagram, AdvanceNode, AdvanceOrder, DiagramView,
    LaneNodeView,
};
use crate::fraction::less;
use crate::peel::{completed, indices, pair_ints, peel, peel_all};
use crate::text::str_eq;

verus! {

/// The last index of `name` among the first `k` names.
pub open spec fn last_named(names: Seq<Seq<char>>, name: Seq<char>, k: int) -> Option<int>
    decreases k,
{
    if k <= 0 {
        None
    } else if names[k - 1] == name {
        Some(k - 1)
    } else {
        last_named(names, name, k - 1)
    }
}

/// The ids of the nodes of a lane.
pub open spec fn local_ids(lane: Seq<usize>, nodes: Seq<LaneNodeView>) -> Seq<Seq<char>> {
    lane.map_values(|i: usize| nodes[i as int].id)
}

/// The place of `name` in the lane.
pub open spec fn local(lane: Seq<usize>, nodes: Seq<LaneNodeView>, name: Seq<char>) -> Option<int> {
    last_named(local_ids(lane, nodes), name, lane.len() as int)
}

/// The links between two different nodes of the lane, among the first `k`
/// edges.
pub open spec fn links(lane: Seq<usize>, d: DiagramView, k: int) -> Seq<(int, int)>
    decreases k,
{
    if k <= 0 {
        Seq::empty()
    } else {
        let before = links(lane, d, k - 1);
        match (local(lane, d.nodes, d.edges[k - 1].from), local(lane, d.nodes, d.edges[k - 1].to)) {
            (Some(u), Some(v)) if u != v => before.push((u, v)),
            _ => before,
        }
    }
}

/// The topological order of the lane; nodes on cycles come last.
pub open spec fn topological(lane: Seq<usize>, d: DiagramView) -> Seq<int> {
    let l = links(lane, d, d.edges.len() as int);
    let n = lane.len() as int;
    completed(peel(l, n, Seq::empty(), lane.len()), n, 0)
}

/// Where a node is drawn to: the sum of the indices of its neighbours in
/// other lanes, and their number.
pub struct Pull {
    pub sum: int,
    pub count: int,
}

/// The place of `name` among all nodes.
pub open spec fn global(nodes: Seq<LaneNodeView>, name: Seq<char>) -> Option<int> {
    last_named(lane_node_ids(nodes), name, nodes.len() as int)
}

/// What the first `k` edges draw the node `id` to.
pub open spec fn pull(lane: Seq<usize>, d: DiagramView, id: Seq<char>, k: int) -> Pull
    decreases k,
{
    if k <= 0 {
        Pull { sum: 0, count: 0 }
    } else {
        let p = pull(lane, d, id, k - 1);
        let e = d.edges[k - 1];
        if e.from == id && local(lane, d.nodes, e.to) is None {
            Pull { sum: p.sum + global(d.nodes, e.to)->Some_0, count: p.count + 1 }
        } else if e.to == id && local(lane, d.nodes, e.from) is None {
            Pull { sum: p.sum + global(d.nodes, e.from)->Some_0, count: p.count + 1 }
        } else {
            p
        }
    }
}

/// Whether `a` draws to an earlier place than `b`; a node without such
/// neighbours is drawn to the end.
pub open spec fn earlier(a: Pull, b: Pull) -> bool {
    a.count > 0 && (b.count == 0 || a.sum * b.count < b.sum * a.count)
}

/// `x` put into a sorted list, behind everything it is not earlier than.
pub open spec fn put_in(s: Seq<(int, Pull)>, x: (int, Pull)) -> Seq<(int, Pull)>
    decreases s.len(),
{
    if s.len() == 0 || !earlier(x.1, s.last().1) {
        s.push(x)
    } else {
        put_in(s.drop_last(), x).push(s.last())
    }
}

/// The list sorted by where its nodes are drawn to, equals in their order.
pub open spec fn sorted(s: Seq<(int, Pull)>) -> Seq<(int, Pull)>
    decreases s.len(),
{
    if s.len() == 0 {
        s
    } else {
        put_in(sorted(s.drop_last()), s.last())
    }
}

/// The nodes of the lane in topological order, each with its pull.
pub open spec fn pulled(lane: Seq<usize>, d: DiagramView) -> Seq<(int, Pull)> {
    topological(lane, d).map_values(
        |u: int|
            (u, pull(lane, d, d.nodes[lane[u] as int].id, d.edges.len() as int)),
    )
}

/// The order of the nodes of a lane.
pub open spec fn lane_order(lane: Seq<usize>, d: DiagramView, order: AdvanceOrder) -> Seq<usize> {
    if order == AdvanceOrder::Declaration || lane.len() <= 1 {
        lane
    } else {
        sorted(pulled(lane, d)).map_values(|p: (int, Pull)| lane[p.0])
    }
}

/// Whether the lane lists nodes of the diagram and every edge connects
/// nodes of it.
pub open spec fn connected(lane: Seq<usize>, d: DiagramView) -> bool {
    &&& forall|i: int| 0 <= i < lane.len() ==> (#[trigger] lane[i]) < d.nodes.len()
    &&& forall|i: int|
        0 <= i < d.edges.len() ==> global(d.nodes, (#[trigger] d.edges[i]).from) is Some && global(
            d.nodes,
            d.edges[i].to,
        ) is Some
}

proof fn lemma_last_named(names: Seq<Seq<char>>, name: Seq<char>, k: int)
    requires
        k <= names.len(),
    ensures
        last_named(names, name, k) matches Some(i) ==> 0 <= i < k && names[i] == name,
    decreases k,
{
    if k > 0 && names[k - 1] != name {
        lemma_last_named(names, name, k - 1);
    }
}

fn find_local(lane: &[usize], nodes: &Vec<AdvanceNode>, name: &str) -> (r: Option<usize>)
    requires
        forall|i: int| 0 <= i < lane@.len() ==> (#[trigger] lane@[i]) < nodes@.len(),
    ensures
        match local(lane@, lane_node_views(nodes@), name@) {
            Some(i) => r is Some && r->Some_0 == i && 0 <= i < lane@.len(),
            None => r is None,
        },
{
    let ghost ids = local_ids(lane@, lane_node_views(nodes@));
    let mut k: usize = lane.len();
    while k > 0
        invariant
            k <= lane@.len(),
            ids == local_ids(lane@, lane_node_views(nodes@)),
            forall|i: int| 0 <= i < lane@.len() ==> (#[trigger] lane@[i]) < nodes@.len(),
            last_named(ids, name@, lane@.len() as int) == last_named(ids, name@, k as int),
        decreases k,
    {
        let g = lane[k - 1];
        assert(ids[k - 1] == nodes@[g as int]@.id);
        if str_eq(nodes[g].id.as_str(), name) {
            return Some(k - 1);
        }
        k -= 1;
    }
    None
}

fn find_global(nodes: &Vec<AdvanceNode>, name: &str) -> (r: Option<usize>)
    ensures
        match global(lane_node_views(nodes@), name@) {
            Some(i) => r is Some && r->Some_0 == i && 0 <= i < nodes@.len(),
            None => r is None,
        },
{
    let ghost ids = lane_node_ids(lane_node_views(nodes@));
    let mut k: usize = nodes.len();
    while k > 0
        invariant
            k <= nodes@.len(),
            ids == lane_node_ids(lane_node_views(nodes@)),
            last_named(ids, name@, nodes@.len() as int) == last_named(ids, name@, k as int),
        decreases k,
    {
        assert(ids[k - 1] == nodes@[k - 1]@.id);
        if str_eq(nodes[k - 1].id.as_str(), name) {
            return Some(k - 1);
        }
        k -= 1;
    }
    None
}

fn collect_links(lane: &[usize], d: &AdvanceDiagram) -> (r: Vec<(usize, usize)>)
    requires
        connected(lane@, d@),
    ensures
        pair_ints(r@) == links(lane@, d@, d@.edges.len() as int),
        forall|i: int|
            0 <= i < r@.len() ==> (#[trigger] r@[i]).0 < lane@.len() && r@[i].1 < lane@.len(),
{
    let ghost dv = d@;
    let mut out: Vec<(usize, usize)> = Vec::new();
    let mut k: usize = 0;
    assert(pair_ints(out@) =~= Seq::empty());
    while k < d.edges.len()
        invariant
            k <= d.edges@.len(),
            dv == d@,
            connected(lane@, dv),
            pair_ints(out@) == links(lane@, dv, k as int),
            forall|i: int|
                0 <= i < out@.len() ==> (#[trigger] out@[i]).0 < lane@.len() && out@[i].1
                    < lane@.len(),
        decreases d.edges@.len() - k,
    {
        assert(dv.edges[k as int] == d.edges@[k as int]@);
        let e = &d.edges[k];
        let a = find_local(lane, &d.nodes, e.from.as_str());
        let b = find_local(lane, &d.nodes, e.to.as_str());
        if let Some(u) = a {
            if let Some(v) = b {
                if u != v {
                    let ghost before = out@;
                    out.push((u, v));
                    assert(pair_ints(out@) =~= pair_ints(before).push((u as int, v as int)));
                }
            }
        }
        k += 1;
    }
    out
}

fn topological_order(lane: &[usize], d: &AdvanceDiagram) -> (r: Vec<usize>)
    requires
        connected(lane@, d@),
    ensures
        indices(r@) == topological(lane@, d@),
        forall|i: int| 0 <= i < r@.len() ==> (#[trigger] r@[i]) < lane@.len(),
{
    let n: usize = lane.len();
    let links = collect_links(lane, d);
    let ghost l = pair_ints(links@);
    let mut p = peel_all(&links, n);
    let ghost start = indices(p.done@);
    let mut v: usize = 0;
    while v < n
        invariant
            v <= n,
            p.is_done@.len() == n,
            forall|i: int| 0 <= i < p.done@.len() ==> (#[trigger] p.done@[i]) < n,
            forall|w: int|
                v <= w < n ==> #[trigger] p.is_done@[w] == indices(p.done@).contains(w),
            completed(start, n as int, 0) == completed(indices(p.done@), n as int, v as int),
        decreases n - v,
    {
        assert(p.is_done@[v as int] == indices(p.done@).contains(v as int));
        if !p.is_done[v] {
            let ghost before = p.done@;
            p.done.push(v);
            assert(indices(p.done@) =~= indices(before).push(v as int));
            assert forall|w: int| v < w < n implies #[trigger] p.is_done@[w] == indices(
                p.done@,
            ).contains(w) by {
                let a = indices(before);
                let b = indices(p.done@);
                if a.contains(w) {
                    let i = choose|i: int| 0 <= i < a.len() && a[i] == w;
                    assert(b[i] == w);
                }
                if b.contains(w) {
                    let i = choose|i: int| 0 <= i < b.len() && b[i] == w;
                    assert(a[i] == w);
                }
            }
        }
        v += 1;
    }
    p.done
}

/// A [`Pull`] in machine numbers.
#[derive(Clone, Copy)]
struct Drawn {
    sum: u128,
    count: u64,
}

impl View for Drawn {
    type V = Pull;

    closed spec fn view(&self) -> Pull {
        Pull { sum: self.sum as int, count: self.count as int }
    }
}

fn measure_pull(lane: &[usize], d: &AdvanceDiagram, id: &str) -> (r: Drawn)
    requires
        connected(lane@, d@),
    ensures
        r@ == pull(lane@, d@, id@, d@.edges.len() as int),
        r.sum <= r.count * 0xffff_ffff_ffff_ffff,
{
    let ghost dv = d@;
    let mut sum: u128 = 0;
    let mut count: u64 = 0;
    let mut k: usize = 0;
    while k < d.edges.len()
        invariant
            k <= d.edges@.len(),
            dv == d@,
            connected(lane@, dv),
            count <= k,
            sum <= count * 0xffff_ffff_ffff_ffff,
            (Pull { sum: sum as int, count: count as int }) == pull(lane@, dv, id@, k as int),
        decreases d.edges@.len() - k,
    {
        let e = &d.edges[k];
        assert(dv.edges[k as int] == e@);
        let out = str_eq(e.from.as_str(), id) && find_local(
            lane,
            &d.nodes,
            e.to.as_str(),
        ).is_none();
        let into = str_eq(e.to.as_str(), id) && find_local(
            lane,
            &d.nodes,
            e.from.as_str(),
        ).is_none();
        if out || into {
            let other = if out {
                e.to.as_str()
            } else {
                e.from.as_str()
            };
            match find_global(&d.nodes, other) {
                Some(g) => {
                    sum = sum + g as u128;
                    count = count + 1;
                },
                None => {},
            }
        }
        k += 1;
    }
    Drawn { sum, count }
}

fn drawn_earlier(a: Drawn, b: Drawn) -> (r: bool)
    ensures
        r == earlier(a@, b@),
{
    if a.count == 0 {
        return false;
    }
    if b.count == 0 {
        return true;
    }
    less(a.sum, a.count, b.sum, b.count)
}

spec fn pull_views(s: Seq<(usize, Drawn)>) -> Seq<(int, Pull)> {
    s.map_values(|p: (usize, Drawn)| (p.0 as int, p.1@))
}

fn insert_sorted(s: &mut Vec<(usize, Drawn)>, x: (usize, Drawn))
    ensures
        pull_views(final(s)@) == put_in(pull_views(old(s)@), (x.0 as int, x.1@)),
        final(s)@.len() == old(s)@.len() + 1,
        forall|i: int|
            0 <= i < final(s)@.len() ==> #[trigger] final(s)@[i] == x || old(s)@.contains(
                final(s)@[i],
            ),
{
    let ghost all = pull_views(s@);
    let ghost item = (x.0 as int, x.1@);
    let mut p: usize = s.len();
    assert(all.take(p as int) =~= all);
    assert(all.skip(p as int) =~= Seq::empty());
    assert(put_in(all, item) =~= put_in(all.take(p as int), item) + all.skip(p as int));
    while p > 0 && drawn_earlier(x.1, s[p - 1].1)
        invariant
            p <= s@.len(),
            all == pull_views(s@),
            item == (x.0 as int, x.1@),
            put_in(all, item) == put_in(all.take(p as int), item) + all.skip(p as int),
        decreases p,
    {
        let ghost head = all.take(p as int);
        assert(head.last() == all[p - 1]);
        assert(head.drop_last() =~= all.take(p - 1));
        assert(put_in(head, item) == put_in(all.take(p - 1), item).push(all[p - 1]));
        assert(put_in(all.take(p - 1), item).push(all[p - 1]) + all.skip(p as int) =~= put_in(
            all.take(p - 1),
            item,
        ) + all.skip(p - 1));
        p -= 1;
    }
    let ghost head = all.take(p as int);
    if p > 0 {
        assert(head.last() == all[p - 1]);
    }
    assert(put_in(head, item) == head.push(item));
    let ghost before = s@;
    s.insert(p, x);
    assert(pull_views(s@) =~= head.push(item) + all.skip(p as int));
    assert forall|i: int| 0 <= i < s@.len() implies #[trigger] s@[i] == x || before.contains(
        s@[i],
    ) by {
        if i < p {
            assert(s@[i] == before[i]);
        } else if i > p {
            assert(s@[i] == before[i - 1]);
        }
    }
}

/// The order in which the nodes of a lane are stacked, as indices of
/// nodes.
pub fn order_lane_nodes(lane: &[usize], d: &AdvanceDiagram, cfg: &AdvanceConfig) -> (r: Vec<usize>)
    requires
        connected(lane@, d@),
    ensures
        r@ == lane_order(lane@, d@, cfg.order),
{
    if cfg.order == AdvanceOrder::Declaration || lane.len() <= 1 {
        let mut out: Vec<usize> = Vec::new();
        out.extend_from_slice(lane);
        assert(out@ =~= lane@);
        return out;
    }
    let order = topological_order(lane, d);
    let ghost want = pulled(lane@, d@);
    let mut s: Vec<(usize, Drawn)> = Vec::new();
    let mut i: usize = 0;
    assert(pull_views(s@) =~= Seq::empty());
    assert(want.take(0) =~= Seq::empty());
    while i < order.len()
        invariant
            i <= order@.len(),
            connected(lane@, d@),
            indices(order@) == topological(lane@, d@),
            want == pulled(lane@, d@),
            forall|k: int| 0 <= k < order@.len() ==> (#[trigger] order@[k]) < lane@.len(),
            forall|k: int| 0 <= k < s@.len() ==> (#[trigger] s@[k]).0 < lane@.len(),
            pull_views(s@) == sorted(want.take(i as int)),
        decreases order@.len() - i,
    {
        let u = order[i];
        let g = lane[u];
        assert(indices(order@)[i as int] == u as int);
        let w = measure_pull(lane, d, d.nodes[g].id.as_str());
        assert(want[i as int] == (u as int, w@));
        assert(want.take(i as int + 1).drop_last() =~= want.take(i as int));
        let ghost before = s@;
        insert_sorted(&mut s, (u, w));
        assert forall|k: int| 0 <= k < s@.len() implies (#[trigger] s@[k]).0 < lane@.len() by {
            if s@[k] != (u, w) {
                assert(before.contains(s@[k]));
                let j = choose|j: int| 0 <= j < before.len() && before[j] == s@[k];
                assert(before[j].0 < lane@.len());
            }
        }
        i += 1;
    }
    assert(want.take(want.len() as int) =~= want);
    let ghost all = sorted(want);
    let mut out: Vec<usize> = Vec::new();
    let mut k: usize = 0;
    while k < s.len()
        invariant
            k <= s@.len(),
            all == pull_views(s@),
            forall|j: int| 0 <= j < s@.len() ==> (#[trigger] s@[j]).0 < lane@.len(),
            out@ == all.map_values(|p: (int, Pull)| lane@[p.0]).take(k as int),
        decreases s@.len() - k,
    {
        let u = s[k].0;
        assert(all[k as int].0 == u);
        out.push(lane[u]);
        assert(out@ =~= all.map_values(|p: (int, Pull)| lane@[p.0]).take(k as int + 1));
        k += 1;
    }
    assert(out@ =~= all.map_values(|p: (int, Pull)| lane@[p.0]));
    out
}

} // verus!
