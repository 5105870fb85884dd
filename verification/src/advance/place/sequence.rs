//! The order in which the nodes of a diagram are emitted.

use vstd::prelude::*;

use crate::advance::ends::lane_node_ids;
use crate::advance::order::{connected, lane_order, order_lane_nodes};
use crate::advance::order_laws::{law_lane_order_is_an_arrangement, places};
use crate::advance::place::coverage::{in_tree, in_trees, lemma_global};
use crate::advance::place::emit::{
    inner_corner, lane_start, nodes_start, stacked, with_lane, with_lanes, with_nodes, Stage,
};
use crate::advance::place::lanes::{local, Basis, Dim};
use crate::advance::place::layout::{explicit_nodes, placeable};
use crate::advance::place::lengths::plus;
use crate::advance::route::edges::scene_ids;
use crate::advance::scene::{Px, SceneLaneView, SceneNodeView};
use crate::advance::{
    lane_node_views, lane_views, AdvanceDiagram, AdvanceDirection, AdvanceLane, AdvanceOrder,
    DiagramView, LaneNodeView, LaneView,
};
use crate::peel_laws::{arrangement, lemma_count, lemma_covers, partial};
use crate::text::str_eq;

verus! {

/// Whether no id occurs twice in a lane and the lanes inside it.
pub open spec fn tree_distinct(lane: LaneView) -> bool
    decreases lane, 0nat,
{
    !in_trees(lane.children, lane.id, lane.children.len()) && trees_distinct(
        lane.children,
        lane.children.len(),
    )
}

/// Whether no id occurs twice in the first `k` lanes and the lanes inside
/// them.
pub open spec fn trees_distinct(lanes: Seq<LaneView>, k: nat) -> bool
    decreases lanes, k,
{
    &&& k <= lanes.len()
    &&& k > 0 ==> {
        &&& tree_distinct(lanes[k - 1])
        &&& trees_distinct(lanes, (k - 1) as nat)
        &&& forall|id: Seq<char>| #[trigger]
            in_tree(lanes[k - 1], id) ==> !in_trees(lanes, id, (k - 1) as nat)
    }
}

/// The nodes of a lane in the order in which they are stacked.
pub open spec fn stack_of(d: DiagramView, lane: Seq<char>) -> Seq<usize> {
    lane_order(local(d.nodes, lane, d.nodes.len() as int), d, d.config.order)
}

/// The nodes of a lane and of the lanes inside it: those of the inner lanes
/// first.
pub open spec fn tree_sequence(d: DiagramView, lane: LaneView) -> Seq<usize>
    decreases lane, 0nat,
{
    trees_sequence(d, lane.children, lane.children.len()) + stack_of(d, lane.id)
}

/// The nodes of the first `k` lanes and of the lanes inside them.
pub open spec fn trees_sequence(d: DiagramView, lanes: Seq<LaneView>, k: nat) -> Seq<usize>
    decreases lanes, k,
{
    if k == 0 || k > lanes.len() {
        Seq::empty()
    } else {
        trees_sequence(d, lanes, (k - 1) as nat) + tree_sequence(d, lanes[k - 1])
    }
}

/// Whether there are nodes, and every node names its place.
pub open spec fn all_named(nodes: Seq<LaneNodeView>) -> bool {
    nodes.len() > 0 && forall|i: int|
        0 <= i < nodes.len() ==> (#[trigger] nodes[i]).x is Some && nodes[i].y is Some
}

/// The numbers of the nodes in the order in which a placed diagram lists
/// them: as declared where every node names its place, else lane by lane.
pub open spec fn emitted(d: DiagramView) -> Seq<usize> {
    if all_named(d.nodes) {
        Seq::new(d.nodes.len(), |i: int| i as usize)
    } else {
        trees_sequence(d, d.lanes, d.lanes.len())
    }
}

fn stack_nodes(d: &AdvanceDiagram, lane: &str, out: &mut Vec<usize>)
    requires
        placeable(d@),
    ensures
        final(out)@ == old(out)@ + stack_of(d@, lane@),
{
    let ghost nodes = d@.nodes;
    let mut list: Vec<usize> = Vec::new();
    let mut i: usize = 0;
    while i < d.nodes.len()
        invariant
            i <= d.nodes@.len(),
            nodes == lane_node_views(d.nodes@),
            list@ == local(nodes, lane@, i as int),
            forall|k: int| 0 <= k < list@.len() ==> (#[trigger] list@[k]) < i,
        decreases d.nodes@.len() - i,
    {
        assert(nodes[i as int] == d.nodes@[i as int]@);
        if str_eq(d.nodes[i].lane.as_str(), lane) {
            list.push(i);
        }
        i += 1;
    }
    proof {
        lemma_global(d@);
        assert(d@.nodes.len() == d.nodes@.len());
        assert(connected(list@, d@));
    }
    let order = order_lane_nodes(list.as_slice(), d, &d.config);
    out.extend_from_slice(order.as_slice());
    assert(order@ == stack_of(d@, lane@));
}

fn list_tree(d: &AdvanceDiagram, lane: &AdvanceLane, out: &mut Vec<usize>)
    requires
        placeable(d@),
    ensures
        final(out)@ == old(out)@ + tree_sequence(d@, lane@),
    decreases lane,
{
    let ghost before = out@;
    assert(lane_views(lane.children@).len() == lane.children@.len());
    list_trees(d, &lane.children, out);
    stack_nodes(d, lane.id.as_str(), out);
    assert(out@ =~= before + tree_sequence(d@, lane@));
}

fn list_trees(d: &AdvanceDiagram, lanes: &Vec<AdvanceLane>, out: &mut Vec<usize>)
    requires
        placeable(d@),
    ensures
        final(out)@ == old(out)@ + trees_sequence(d@, lane_views(lanes@), lanes@.len()),
    decreases lanes,
{
    let ghost lv = lane_views(lanes@);
    let ghost before = out@;
    let mut k: usize = 0;
    assert(out@ =~= before + trees_sequence(d@, lv, 0));
    while k < lanes.len()
        invariant
            k <= lanes@.len(),
            placeable(d@),
            lv == lane_views(lanes@),
            out@ == before + trees_sequence(d@, lv, k as nat),
        decreases lanes@.len() - k,
    {
        assert(lv[k as int] == lanes@[k as int]@);
        list_tree(d, &lanes[k], out);
        k += 1;
        assert(out@ =~= before + trees_sequence(d@, lv, k as nat));
    }
}

fn names_all(d: &AdvanceDiagram) -> (r: bool)
    ensures
        r == all_named(d@.nodes),
{
    let ghost nodes = d@.nodes;
    if d.nodes.len() == 0 {
        return false;
    }
    let mut i: usize = 0;
    while i < d.nodes.len()
        invariant
            i <= d.nodes@.len(),
            nodes == d@.nodes,
            nodes == lane_node_views(d.nodes@),
            forall|k: int| 0 <= k < i ==> (#[trigger] nodes[k]).x is Some && nodes[k].y is Some,
        decreases d.nodes@.len() - i,
    {
        assert(nodes[i as int] == d.nodes@[i as int]@);
        if d.nodes[i].x.is_none() || d.nodes[i].y.is_none() {
            return false;
        }
        i += 1;
    }
    true
}

/// List the nodes in the order in which the placed diagram lists them.
pub fn emission_order(d: &AdvanceDiagram) -> (r: Vec<usize>)
    requires
        placeable(d@),
    ensures
        r@ == emitted(d@),
{
    let mut r: Vec<usize> = Vec::new();
    if names_all(d) {
        let n: usize = d.nodes.len();
        assert(d@.nodes.len() == n);
        let mut i: usize = 0;
        while i < n
            invariant
                i <= n,
                r@.len() == i,
                forall|k: int| 0 <= k < i ==> (#[trigger] r@[k]) == k,
            decreases n - i,
        {
            r.push(i);
            i += 1;
        }
        assert(r@ =~= emitted(d@));
        return r;
    }
    list_trees(d, &d.lanes, &mut r);
    assert(d@.lanes.len() == d.lanes@.len());
    assert(r@ =~= emitted(d@));
    r
}

/// Whether `s` lists exactly the nodes whose lane is among the wanted, each
/// once.
spec fn lists_once(d: DiagramView, s: Seq<usize>, wanted: spec_fn(Seq<char>) -> bool) -> bool {
    &&& s.no_duplicates()
    &&& forall|i: int|
        0 <= i < s.len() ==> (#[trigger] s[i]) < d.nodes.len() && wanted(d.nodes[s[i] as int].lane)
    &&& forall|i: int|
        0 <= i < d.nodes.len() && wanted((#[trigger] d.nodes[i]).lane) ==> s.contains(i as usize)
}

proof fn lemma_local(d: DiagramView, lane: Seq<char>, k: int)
    requires
        0 <= k <= d.nodes.len() <= usize::MAX,
    ensures
        local(d.nodes, lane, k).no_duplicates(),
        forall|i: int|
            0 <= i < local(d.nodes, lane, k).len() ==> (#[trigger] local(d.nodes, lane, k)[i]) < k
                && d.nodes[local(d.nodes, lane, k)[i] as int].lane == lane,
        forall|i: int|
            0 <= i < k && (#[trigger] d.nodes[i]).lane == lane ==> local(
                d.nodes,
                lane,
                k,
            ).contains(i as usize),
    decreases k,
{
    if k > 0 {
        lemma_local(d, lane, k - 1);
        let before = local(d.nodes, lane, k - 1);
        let all = local(d.nodes, lane, k);
        assert forall|i: int| 0 <= i < k && (#[trigger] d.nodes[i]).lane == lane implies all.contains(
            i as usize,
        ) by {
            if i < k - 1 {
                assert(before.contains(i as usize));
                let j = choose|j: int| 0 <= j < before.len() && before[j] == i as usize;
                assert(all[j] == i as usize);
            } else {
                assert(all.last() == i as usize);
            }
        }
        assert forall|i: int, j: int| 0 <= i < j < all.len() implies all[i] != all[j] by {
            if j < before.len() {
                assert(before[i] != before[j]);
            } else {
                assert(all[i] == before[i]);
                assert(before[i] < k - 1);
            }
        }
    }
}

proof fn lemma_stack(d: DiagramView, lane: Seq<char>)
    requires
        d.nodes.len() <= usize::MAX,
    ensures
        lists_once(d, stack_of(d, lane), |l: Seq<char>| l == lane),
{
    let list = local(d.nodes, lane, d.nodes.len() as int);
    let s = stack_of(d, lane);
    lemma_local(d, lane, d.nodes.len() as int);
    if !(d.config.order == AdvanceOrder::Declaration || list.len() <= 1) {
        law_lane_order_is_an_arrangement(list, d);
        let p = places(list, d);
        lemma_covers(p, list.len() as int);
        assert forall|i: int, j: int| 0 <= i < j < s.len() implies s[i] != s[j] by {
            assert(s[i] == list[p[i]] && s[j] == list[p[j]]);
            assert(p[i] != p[j]);
        }
        assert forall|i: int| 0 <= i < s.len() implies (#[trigger] s[i]) < d.nodes.len()
            && d.nodes[s[i] as int].lane == lane by {
            assert(s[i] == list[p[i]]);
        }
        assert forall|i: int|
            0 <= i < d.nodes.len() && (#[trigger] d.nodes[i]).lane == lane implies s.contains(
            i as usize,
        ) by {
            assert(list.contains(i as usize));
            let j = choose|j: int| 0 <= j < list.len() && list[j] == i as usize;
            assert(p.contains(j));
            let q = choose|q: int| 0 <= q < p.len() && p[q] == j;
            assert(s[q] == list[p[q]]);
        }
    }
}

/// The nodes of a lane, stacked or as declared, are nodes of the diagram in
/// that lane, and the same ones.
pub proof fn lemma_stack_members(d: DiagramView, lane: Seq<char>)
    requires
        d.nodes.len() <= usize::MAX,
    ensures
        forall|i: int|
            0 <= i < stack_of(d, lane).len() ==> (#[trigger] stack_of(d, lane)[i]) < d.nodes.len()
                && d.nodes[stack_of(d, lane)[i] as int].lane == lane && local(
                d.nodes,
                lane,
                d.nodes.len() as int,
            ).contains(stack_of(d, lane)[i]),
        forall|i: int|
            0 <= i < local(d.nodes, lane, d.nodes.len() as int).len() ==> (#[trigger] local(
                d.nodes,
                lane,
                d.nodes.len() as int,
            )[i]) < d.nodes.len(),
{
    lemma_stack(d, lane);
    lemma_local(d, lane, d.nodes.len() as int);
    let s = stack_of(d, lane);
    assert forall|i: int| 0 <= i < s.len() implies (#[trigger] s[i]) < d.nodes.len()
        && d.nodes[s[i] as int].lane == lane && local(d.nodes, lane, d.nodes.len() as int).contains(
        s[i],
    ) by {
        assert(d.nodes[s[i] as int].lane == lane);
        assert(local(d.nodes, lane, d.nodes.len() as int).contains(s[i] as int as usize));
    }
}

/// Stacking a lane only changes the order of its nodes.
pub proof fn lemma_stack_multiset(d: DiagramView, lane: Seq<char>)
    requires
        d.nodes.len() <= usize::MAX,
    ensures
        stack_of(d, lane).to_multiset() == local(
            d.nodes,
            lane,
            d.nodes.len() as int,
        ).to_multiset(),
{
    broadcast use vstd::seq_lib::group_to_multiset_ensures;

    let a = stack_of(d, lane);
    let b = local(d.nodes, lane, d.nodes.len() as int);
    lemma_stack(d, lane);
    lemma_stack_members(d, lane);
    lemma_local(d, lane, d.nodes.len() as int);
    a.lemma_multiset_has_no_duplicates();
    b.lemma_multiset_has_no_duplicates();
    assert forall|x: usize| a.to_multiset().count(x) == b.to_multiset().count(x) by {
        if a.contains(x) {
            let i = choose|i: int| 0 <= i < a.len() && a[i] == x;
            assert(b.contains(a[i]));
        }
        if b.contains(x) {
            let i = choose|i: int| 0 <= i < b.len() && b[i] == x;
            assert(d.nodes[b[i] as int].lane == lane);
            assert(a.contains(x as int as usize));
        }
    }
    assert(a.to_multiset() =~= b.to_multiset());
}

/// Two lists of nodes of different lanes list the nodes of all of them.
proof fn lemma_both(
    d: DiagramView,
    a: Seq<usize>,
    b: Seq<usize>,
    wa: spec_fn(Seq<char>) -> bool,
    wb: spec_fn(Seq<char>) -> bool,
    w: spec_fn(Seq<char>) -> bool,
)
    requires
        lists_once(d, a, wa),
        lists_once(d, b, wb),
        forall|l: Seq<char>| !(#[trigger] wa(l) && wb(l)),
        forall|l: Seq<char>| #[trigger] w(l) == (wa(l) || wb(l)),
    ensures
        lists_once(d, a + b, w),
{
    let s = a + b;
    assert forall|i: int, j: int| 0 <= i < j < s.len() implies s[i] != s[j] by {
        if j < a.len() {
            assert(a[i] != a[j]);
        } else if i >= a.len() {
            assert(b[i - a.len()] != b[j - a.len()]);
        } else {
            assert(s[i] == a[i] && s[j] == b[j - a.len()]);
            assert(wa(d.nodes[a[i] as int].lane));
            assert(wb(d.nodes[b[j - a.len()] as int].lane));
        }
    }
    assert forall|i: int| 0 <= i < s.len() implies (#[trigger] s[i]) < d.nodes.len() && w(
        d.nodes[s[i] as int].lane,
    ) by {
        if i < a.len() {
            assert(s[i] == a[i]);
        } else {
            assert(s[i] == b[i - a.len()]);
        }
    }
    assert forall|i: int| 0 <= i < d.nodes.len() && w((#[trigger] d.nodes[i]).lane) implies s.contains(
        i as usize,
    ) by {
        if wa(d.nodes[i].lane) {
            assert(a.contains(i as usize));
            let j = choose|j: int| 0 <= j < a.len() && a[j] == i as usize;
            assert(s[j] == i as usize);
        } else {
            assert(b.contains(i as usize));
            let j = choose|j: int| 0 <= j < b.len() && b[j] == i as usize;
            assert(s[a.len() + j] == i as usize);
        }
    }
}

proof fn lemma_tree(d: DiagramView, lane: LaneView)
    requires
        d.nodes.len() <= usize::MAX,
        tree_distinct(lane),
    ensures
        lists_once(d, tree_sequence(d, lane), |l: Seq<char>| in_tree(lane, l)),
    decreases lane, 0nat,
{
    let n = lane.children.len();
    lemma_trees(d, lane.children, n);
    lemma_stack(d, lane.id);
    lemma_both(
        d,
        trees_sequence(d, lane.children, n),
        stack_of(d, lane.id),
        |l: Seq<char>| in_trees(lane.children, l, n),
        |l: Seq<char>| l == lane.id,
        |l: Seq<char>| in_tree(lane, l),
    );
}

proof fn lemma_trees(d: DiagramView, lanes: Seq<LaneView>, k: nat)
    requires
        d.nodes.len() <= usize::MAX,
        trees_distinct(lanes, k),
    ensures
        lists_once(d, trees_sequence(d, lanes, k), |l: Seq<char>| in_trees(lanes, l, k)),
    decreases lanes, k,
{
    if k > 0 {
        let j = (k - 1) as nat;
        lemma_trees(d, lanes, j);
        lemma_tree(d, lanes[k - 1]);
        lemma_both(
            d,
            trees_sequence(d, lanes, j),
            tree_sequence(d, lanes[k - 1]),
            |l: Seq<char>| in_trees(lanes, l, j),
            |l: Seq<char>| in_tree(lanes[k - 1], l),
            |l: Seq<char>| in_trees(lanes, l, k),
        );
    }
}

/// A sequence of node numbers over whole numbers.
pub open spec fn numbers(s: Seq<usize>) -> Seq<int> {
    s.map_values(|i: usize| i as int)
}

/// A placed diagram lists every node once.
pub proof fn law_every_node_is_emitted_once(d: DiagramView)
    requires
        placeable(d),
        trees_distinct(d.lanes, d.lanes.len()),
        d.nodes.len() <= usize::MAX,
    ensures
        arrangement(numbers(emitted(d)), d.nodes.len() as int),
{
    let e = emitted(d);
    let s = numbers(e);
    let n = d.nodes.len() as int;
    if !all_named(d.nodes) {
        lemma_trees(d, d.lanes, d.lanes.len());
        assert forall|i: int, j: int| 0 <= i < j < s.len() implies s[i] != s[j] by {
            assert(e[i] != e[j]);
        }
        assert forall|i: int| 0 <= i < s.len() implies 0 <= #[trigger] s[i] < n by {
            assert(e[i] < d.nodes.len());
        }
        assert forall|u: int| 0 <= u < n implies #[trigger] s.contains(u) by {
            assert(in_trees(d.lanes, d.nodes[u].lane, d.lanes.len()));
            assert(e.contains(u as usize));
            let j = choose|j: int| 0 <= j < e.len() && e[j] == u as usize;
            assert(s[j] == u);
        }
        assert(partial(s, n));
        lemma_count(s, n);
    }
}

/// The ids of the listed nodes.
pub open spec fn ids_of(d: DiagramView, s: Seq<usize>) -> Seq<Seq<char>> {
    s.map_values(|i: usize| d.nodes[i as int].id)
}

proof fn lemma_ids_nodes(
    c: Basis,
    list: Seq<usize>,
    k: int,
    start: int,
    centre: int,
    nodes: Seq<SceneNodeView>,
)
    requires
        0 <= k <= list.len(),
    ensures
        scene_ids(with_nodes(c, list, k, start, centre, nodes)) == scene_ids(nodes) + ids_of(
            c.d,
            list.take(k),
        ),
    decreases k,
{
    if k > 0 {
        lemma_ids_nodes(c, list, k - 1, start, centre, nodes);
        let before = with_nodes(c, list, k - 1, start, centre, nodes);
        let after = with_nodes(c, list, k, start, centre, nodes);
        assert(after.drop_last() =~= before);
        assert(scene_ids(after) =~= scene_ids(before).push(c.d.nodes[list[k - 1] as int].id));
        assert(ids_of(c.d, list.take(k)) =~= ids_of(c.d, list.take(k - 1)).push(
            c.d.nodes[list[k - 1] as int].id,
        ));
        assert(scene_ids(after) =~= scene_ids(nodes) + ids_of(c.d, list.take(k)));
    } else {
        assert(ids_of(c.d, list.take(k)) =~= Seq::empty());
        assert(scene_ids(nodes) + ids_of(c.d, list.take(k)) =~= scene_ids(nodes));
    }
}

proof fn lemma_ids_lane(c: Basis, lane: LaneView, m: Dim, x: int, y: int, st: Stage)
    ensures
        scene_ids(with_lane(c, lane, m, x, y, st).nodes) == scene_ids(st.nodes) + ids_of(
            c.d,
            tree_sequence(c.d, lane),
        ),
    decreases lane, 0nat,
{
    let own = Stage {
        lanes: st.lanes.push(
            SceneLaneView {
                id: lane.id,
                title: lane.title,
                x: x as Px,
                y: y as Px,
                w: m.w as Px,
                h: m.h as Px,
            },
        ),
        nodes: st.nodes,
    };
    let (cx, cy) = inner_corner(c, x, y);
    let n = lane.children.len();
    let inner = with_lanes(c, lane.children, m.children, n, cx, cy, own);
    lemma_ids_lanes(c, lane.children, m.children, n, cx, cy, own);
    let list = stacked(c, lane.id);
    let centre = match c.d.direction {
        AdvanceDirection::Vertical => plus(x, m.w / 2),
        AdvanceDirection::Horizontal => plus(y, m.h / 2),
    };
    let start = nodes_start(c, m.children, x, y);
    lemma_ids_nodes(c, list, list.len() as int, start, centre, inner.nodes);
    assert(list.take(list.len() as int) =~= list);
    assert(list == stack_of(c.d, lane.id));
    assert(ids_of(c.d, tree_sequence(c.d, lane)) =~= ids_of(
        c.d,
        trees_sequence(c.d, lane.children, n),
    ) + ids_of(c.d, list));
    assert(scene_ids(with_lane(c, lane, m, x, y, st).nodes) =~= scene_ids(st.nodes) + ids_of(
        c.d,
        tree_sequence(c.d, lane),
    ));
}

proof fn lemma_ids_lanes(
    c: Basis,
    lanes: Seq<LaneView>,
    ms: Seq<Dim>,
    k: nat,
    x: int,
    y: int,
    st: Stage,
)
    requires
        k <= lanes.len(),
    ensures
        scene_ids(with_lanes(c, lanes, ms, k, x, y, st).nodes) == scene_ids(st.nodes) + ids_of(
            c.d,
            trees_sequence(c.d, lanes, k),
        ),
    decreases lanes, k,
{
    if k > 0 {
        let j = (k - 1) as nat;
        lemma_ids_lanes(c, lanes, ms, j, x, y, st);
        let before = with_lanes(c, lanes, ms, j, x, y, st);
        match c.d.direction {
            AdvanceDirection::Vertical => {
                lemma_ids_lane(c, lanes[k - 1], ms[k - 1], lane_start(c, ms, k - 1, x), y, before);
            },
            AdvanceDirection::Horizontal => {
                lemma_ids_lane(c, lanes[k - 1], ms[k - 1], x, lane_start(c, ms, k - 1, y), before);
            },
        }
        assert(ids_of(c.d, trees_sequence(c.d, lanes, k)) =~= ids_of(
            c.d,
            trees_sequence(c.d, lanes, j),
        ) + ids_of(c.d, tree_sequence(c.d, lanes[k - 1])));
        assert(scene_ids(with_lanes(c, lanes, ms, k, x, y, st).nodes) =~= scene_ids(st.nodes)
            + ids_of(c.d, trees_sequence(c.d, lanes, k)));
    } else {
        assert(ids_of(c.d, trees_sequence(c.d, lanes, k)) =~= Seq::empty());
        assert(scene_ids(st.nodes) + ids_of(c.d, trees_sequence(c.d, lanes, k)) =~= scene_ids(
            st.nodes,
        ));
    }
}

/// Placing lanes lists their nodes in the order of emission.
pub proof fn lemma_stage_ids(c: Basis, ms: Seq<Dim>, x: int, y: int)
    ensures
        scene_ids(
            with_lanes(
                c,
                c.d.lanes,
                ms,
                c.d.lanes.len(),
                x,
                y,
                Stage { lanes: Seq::empty(), nodes: Seq::empty() },
            ).nodes,
        ) == ids_of(c.d, trees_sequence(c.d, c.d.lanes, c.d.lanes.len())),
{
    let none = Stage { lanes: Seq::empty(), nodes: Seq::empty() };
    lemma_ids_lanes(c, c.d.lanes, ms, c.d.lanes.len(), x, y, none);
    assert(scene_ids(none.nodes) =~= Seq::empty());
    let t = ids_of(c.d, trees_sequence(c.d, c.d.lanes, c.d.lanes.len()));
    assert(scene_ids(none.nodes) + t =~= t);
}

/// Nodes in their own places are listed as declared.
pub proof fn lemma_own_ids(c: Basis, k: int)
    requires
        0 <= k <= c.d.nodes.len(),
    ensures
        scene_ids(explicit_nodes(c, k)) == lane_node_ids(c.d.nodes).take(k),
        explicit_nodes(c, k).len() == k,
    decreases k,
{
    if k > 0 {
        lemma_own_ids(c, k - 1);
        let before = explicit_nodes(c, k - 1);
        let after = explicit_nodes(c, k);
        assert(scene_ids(after) =~= scene_ids(before).push(c.d.nodes[k - 1].id));
        assert(lane_node_ids(c.d.nodes).take(k) =~= lane_node_ids(c.d.nodes).take(k - 1).push(
            c.d.nodes[k - 1].id,
        ));
    } else {
        assert(scene_ids(explicit_nodes(c, k)) =~= lane_node_ids(c.d.nodes).take(k));
    }
}

} // verus!
