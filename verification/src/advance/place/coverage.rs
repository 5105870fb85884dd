//! Every node of a diagram gets its place.

use vstd::prelude::*;

use crate::advance::ends::lane_node_ids;
use crate::advance::order::{global, last_named};
use crate::advance::order_laws::{law_lane_order_is_an_arrangement, places};
use crate::advance::place::canvas::lanes_fit;
use crate::advance::place::emit::{
    all_sized, inner_corner, lane_start, nodes_start, sized, stacked, with_lane, with_lanes,
    with_nodes, Stage,
};
use crate::advance::place::lanes::{
    all_as_high, all_as_wide, dim_fits, dims_fit, even_heights, even_widths, lane_dim, lane_dims,
    lane_list, lemma_dims_fit, local, Basis, Dim,
};
use crate::advance::place::layout::{explicit_nodes, placeable, stage, top_dims};
use crate::advance::place::lengths::{bounded, plus};
use crate::advance::route::edges::{end_placed, ends_placed, scene_ids};
use crate::advance::scene::{Px, SceneLaneView, SceneNodeView};
use crate::advance::{
    lane_node_views, lane_views, AdvanceDirection, AdvanceLane, AdvanceNode, AdvanceOrder,
    DiagramView, LaneNodeView, LaneView,
};
use crate::model::{lemma_name_from, name_index};
use crate::peel_laws::lemma_covers;
use crate::text::str_eq;

verus! {

/// Whether a lane or one inside it has the given id.
pub open spec fn in_tree(lane: LaneView, id: Seq<char>) -> bool
    decreases lane, 0nat,
{
    lane.id == id || in_trees(lane.children, id, lane.children.len())
}

/// Whether one of the first `k` lanes, or one inside them, has the given id.
pub open spec fn in_trees(lanes: Seq<LaneView>, id: Seq<char>, k: nat) -> bool
    decreases lanes, k,
{
    0 < k <= lanes.len() && (in_tree(lanes[k - 1], id) || in_trees(lanes, id, (k - 1) as nat))
}

/// Whether every node is in one of the lanes.
pub open spec fn all_in_trees(nodes: Seq<LaneNodeView>, lanes: Seq<LaneView>) -> bool {
    forall|i: int|
        0 <= i < nodes.len() ==> in_trees(lanes, (#[trigger] nodes[i]).lane, lanes.len())
}

fn has_lane(lane: &AdvanceLane, id: &str) -> (r: bool)
    ensures
        r == in_tree(lane@, id@),
    decreases lane,
{
    str_eq(lane.id.as_str(), id) || have_lane(&lane.children, id)
}

fn have_lane(lanes: &Vec<AdvanceLane>, id: &str) -> (r: bool)
    ensures
        r == in_trees(lane_views(lanes@), id@, lanes@.len()),
    decreases lanes,
{
    let ghost lv = lane_views(lanes@);
    let mut k: usize = lanes.len();
    while k > 0
        invariant
            k <= lanes@.len(),
            lv == lane_views(lanes@),
            in_trees(lv, id@, lanes@.len()) == in_trees(lv, id@, k as nat),
        decreases k,
    {
        assert(lv[k - 1] == lanes@[k - 1]@);
        if has_lane(&lanes[k - 1], id) {
            return true;
        }
        k -= 1;
    }
    false
}

pub fn check_lanes(nodes: &Vec<AdvanceNode>, lanes: &Vec<AdvanceLane>) -> (r: bool)
    ensures
        r == all_in_trees(lane_node_views(nodes@), lane_views(lanes@)),
{
    let ghost nv = lane_node_views(nodes@);
    let ghost lv = lane_views(lanes@);
    let mut i: usize = 0;
    while i < nodes.len()
        invariant
            i <= nodes@.len(),
            nv == lane_node_views(nodes@),
            lv == lane_views(lanes@),
            forall|k: int| 0 <= k < i ==> in_trees(lv, (#[trigger] nv[k]).lane, lv.len()),
        decreases nodes@.len() - i,
    {
        assert(nv[i as int] == nodes@[i as int]@);
        assert(lv.len() == lanes@.len());
        if !have_lane(lanes, nodes[i].lane.as_str()) {
            return false;
        }
        i += 1;
    }
    true
}

/// Whether an id is among those of the placed nodes.
spec fn listed(nodes: Seq<SceneNodeView>, id: Seq<char>) -> bool {
    exists|i: int| 0 <= i < nodes.len() && (#[trigger] nodes[i]).id == id
}

/// Whether every node of a lane is placed.
spec fn covered(c: Basis, nodes: Seq<SceneNodeView>, lane: Seq<char>) -> bool {
    forall|i: int|
        0 <= i < c.d.nodes.len() && (#[trigger] c.d.nodes[i]).lane == lane ==> listed(
            nodes,
            c.d.nodes[i].id,
        )
}

/// Whether `b` lists everything that `a` lists.
spec fn keeps(a: Seq<SceneNodeView>, b: Seq<SceneNodeView>) -> bool {
    forall|id: Seq<char>| #[trigger] listed(a, id) ==> listed(b, id)
}

proof fn lemma_keeps_covered(
    c: Basis,
    a: Seq<SceneNodeView>,
    b: Seq<SceneNodeView>,
    lane: Seq<char>,
)
    requires
        keeps(a, b),
        covered(c, a, lane),
    ensures
        covered(c, b, lane),
{
    assert forall|i: int| 0 <= i < c.d.nodes.len() && (#[trigger] c.d.nodes[i]).lane == lane implies listed(
        b,
        c.d.nodes[i].id,
    ) by {
        assert(listed(a, c.d.nodes[i].id));
    }
}

proof fn lemma_with_nodes(
    c: Basis,
    list: Seq<usize>,
    k: int,
    start: int,
    centre: int,
    nodes: Seq<SceneNodeView>,
)
    requires
        k <= list.len(),
    ensures
        keeps(nodes, with_nodes(c, list, k, start, centre, nodes)),
        forall|j: int|
            0 <= j < k ==> listed(
                with_nodes(c, list, k, start, centre, nodes),
                c.d.nodes[(#[trigger] list[j]) as int].id,
            ),
    decreases k,
{
    if k > 0 {
        lemma_with_nodes(c, list, k - 1, start, centre, nodes);
        let before = with_nodes(c, list, k - 1, start, centre, nodes);
        let after = with_nodes(c, list, k, start, centre, nodes);
        assert forall|id: Seq<char>| #[trigger] listed(before, id) implies listed(after, id) by {
            let i = choose|i: int| 0 <= i < before.len() && (#[trigger] before[i]).id == id;
            assert(after[i].id == id);
        }
        assert forall|j: int| 0 <= j < k implies listed(
            after,
            c.d.nodes[(#[trigger] list[j]) as int].id,
        ) by {
            if j < k - 1 {
                assert(listed(before, c.d.nodes[list[j] as int].id));
            } else {
                assert(after[before.len() as int].id == c.d.nodes[list[j] as int].id);
            }
        }
    }
}

/// Every node of a lane is in its list.
proof fn lemma_local(nodes: Seq<LaneNodeView>, lane: Seq<char>, k: int, i: int)
    requires
        0 <= i < k <= nodes.len(),
        nodes[i].lane == lane,
        nodes.len() <= usize::MAX,
    ensures
        exists|j: int|
            0 <= j < local(nodes, lane, k).len() && #[trigger] local(nodes, lane, k)[j] == i,
    decreases k,
{
    if i < k - 1 {
        lemma_local(nodes, lane, k - 1, i);
        let before = local(nodes, lane, k - 1);
        let j = choose|j: int| 0 <= j < before.len() && #[trigger] before[j] == i;
        assert(local(nodes, lane, k)[j] == i);
    } else {
        let before = local(nodes, lane, k - 1);
        assert(local(nodes, lane, k)[before.len() as int] == i);
    }
}

/// The stacked nodes of a lane are all its nodes.
proof fn lemma_stacked(c: Basis, lane: Seq<char>, i: int)
    requires
        0 <= i < c.d.nodes.len(),
        c.d.nodes[i].lane == lane,
        c.d.nodes.len() <= usize::MAX,
    ensures
        exists|j: int|
            0 <= j < stacked(c, lane).len() && #[trigger] stacked(c, lane)[j] == i,
{
    let list = lane_list(c, lane);
    lemma_local(c.d.nodes, lane, c.d.nodes.len() as int, i);
    let j = choose|j: int| 0 <= j < list.len() && #[trigger] list[j] == i;
    let o = stacked(c, lane);
    if c.d.config.order == AdvanceOrder::Declaration || list.len() <= 1 {
        assert(o[j] == i);
    } else {
        law_lane_order_is_an_arrangement(list, c.d);
        let p = places(list, c.d);
        lemma_covers(p, list.len() as int);
        assert(p.contains(j));
        let q = choose|q: int| 0 <= q < p.len() && p[q] == j;
        assert(o[q] == list[p[q]]);
    }
}

proof fn lemma_with_lane(c: Basis, lane: LaneView, m: Dim, x: int, y: int, st: Stage)
    requires
        c.d.nodes.len() <= usize::MAX,
    ensures
        keeps(st.nodes, with_lane(c, lane, m, x, y, st).nodes),
        forall|id: Seq<char>| #[trigger]
            in_tree(lane, id) ==> covered(c, with_lane(c, lane, m, x, y, st).nodes, id),
    decreases lane, 0nat,
{
    let own = Stage {
        lanes: st.lanes.push(
            SceneLaneView {
                id: lane.id,
                title: lane.title,
                x: x as Px,
                y: y as Px,
                w: m.w as Px,
                h: m.h as Px,
            },
        ),
        nodes: st.nodes,
    };
    let (cx, cy) = inner_corner(c, x, y);
    let n = lane.children.len();
    let inner = with_lanes(c, lane.children, m.children, n, cx, cy, own);
    lemma_with_lanes(c, lane.children, m.children, n, cx, cy, own);
    let list = stacked(c, lane.id);
    let centre = match c.d.direction {
        AdvanceDirection::Vertical => plus(x, m.w / 2),
        AdvanceDirection::Horizontal => plus(y, m.h / 2),
    };
    let start = nodes_start(c, m.children, x, y);
    let after = with_nodes(c, list, list.len() as int, start, centre, inner.nodes);
    lemma_with_nodes(c, list, list.len() as int, start, centre, inner.nodes);
    assert(after == with_lane(c, lane, m, x, y, st).nodes);
    assert forall|id: Seq<char>| #[trigger] listed(st.nodes, id) implies listed(after, id) by {
        assert(listed(own.nodes, id));
        assert(listed(inner.nodes, id));
    }
    assert forall|id: Seq<char>| #[trigger] in_tree(lane, id) implies covered(c, after, id) by {
        if in_trees(lane.children, id, n) {
            lemma_keeps_covered(c, inner.nodes, after, id);
        } else {
            assert forall|i: int|
                0 <= i < c.d.nodes.len() && (#[trigger] c.d.nodes[i]).lane == id implies listed(
                after,
                c.d.nodes[i].id,
            ) by {
                lemma_stacked(c, id, i);
                let j = choose|j: int| 0 <= j < list.len() && #[trigger] list[j] == i;
                assert(listed(after, c.d.nodes[list[j] as int].id));
            }
        }
    }
}

proof fn lemma_with_lanes(
    c: Basis,
    lanes: Seq<LaneView>,
    ms: Seq<Dim>,
    k: nat,
    x: int,
    y: int,
    st: Stage,
)
    requires
        c.d.nodes.len() <= usize::MAX,
        k <= lanes.len(),
    ensures
        keeps(st.nodes, with_lanes(c, lanes, ms, k, x, y, st).nodes),
        forall|id: Seq<char>| #[trigger]
            in_trees(lanes, id, k) ==> covered(
                c,
                with_lanes(c, lanes, ms, k, x, y, st).nodes,
                id,
            ),
    decreases lanes, k,
{
    if k > 0 {
        let j = (k - 1) as nat;
        lemma_with_lanes(c, lanes, ms, j, x, y, st);
        let before = with_lanes(c, lanes, ms, j, x, y, st);
        let after = with_lanes(c, lanes, ms, k, x, y, st);
        match c.d.direction {
            AdvanceDirection::Vertical => {
                lemma_with_lane(c, lanes[k - 1], ms[k - 1], lane_start(c, ms, k - 1, x), y, before);
            },
            AdvanceDirection::Horizontal => {
                lemma_with_lane(c, lanes[k - 1], ms[k - 1], x, lane_start(c, ms, k - 1, y), before);
            },
        }
        assert forall|id: Seq<char>| #[trigger] listed(st.nodes, id) implies listed(
            after.nodes,
            id,
        ) by {
            assert(listed(before.nodes, id));
        }
        assert forall|id: Seq<char>| #[trigger] in_trees(lanes, id, k) implies covered(
            c,
            after.nodes,
            id,
        ) by {
            if !in_tree(lanes[k - 1], id) {
                assert(in_trees(lanes, id, j));
                lemma_keeps_covered(c, before.nodes, after.nodes, id);
            }
        }
    }
}

proof fn lemma_listed(nodes: Seq<SceneNodeView>, id: Seq<char>)
    requires
        listed(nodes, id),
    ensures
        name_index(scene_ids(nodes), id) is Some,
{
    let i = choose|i: int| 0 <= i < nodes.len() && (#[trigger] nodes[i]).id == id;
    lemma_name_from(scene_ids(nodes), id, 0);
    assert(scene_ids(nodes)[i] == id);
}

/// Where all nodes of a diagram are listed, all ends of its edges are
/// placed.
proof fn lemma_ends(d: DiagramView, nodes: Seq<SceneNodeView>)
    requires
        placeable(d),
        forall|i: int| 0 <= i < d.nodes.len() ==> listed(nodes, (#[trigger] d.nodes[i]).id),
    ensures
        ends_placed(d, nodes),
{
    let ids = lane_node_ids(d.nodes);
    assert forall|k: int| 0 <= k < d.edges.len() implies end_placed(
        d,
        nodes,
        (#[trigger] d.edges[k]).from,
    ) && end_placed(d, nodes, d.edges[k].to) by {
        let e = d.edges[k];
        lemma_name_from(ids, e.from, 0);
        lemma_name_from(ids, e.to, 0);
        let i = name_index(ids, e.from)->Some_0;
        let j = name_index(ids, e.to)->Some_0;
        assert(ids[i] == d.nodes[i].id);
        assert(ids[j] == d.nodes[j].id);
        lemma_listed(nodes, d.nodes[i].id);
        lemma_listed(nodes, d.nodes[j].id);
    }
}

/// All ends are placed once the lanes are.
pub proof fn lemma_stage_holds_all(c: Basis, nodes: Seq<SceneNodeView>)
    requires
        placeable(c.d),
        c.d.nodes.len() <= usize::MAX,
        nodes == stage(c).nodes,
    ensures
        ends_placed(c.d, nodes),
{
    let none = Stage { lanes: Seq::empty(), nodes: Seq::empty() };
    let margin = c.sp.margin as int;
    lemma_with_lanes(c, c.d.lanes, top_dims(c), c.d.lanes.len(), margin, margin, none);
    assert forall|i: int| 0 <= i < c.d.nodes.len() implies listed(
        nodes,
        (#[trigger] c.d.nodes[i]).id,
    ) by {
        assert(in_trees(c.d.lanes, c.d.nodes[i].lane, c.d.lanes.len()));
        assert(covered(c, nodes, c.d.nodes[i].lane));
    }
    lemma_ends(c.d, nodes);
}

/// All ends are placed where every node has its own place.
pub proof fn lemma_explicit_ids(c: Basis)
    requires
        placeable(c.d),
    ensures
        ends_placed(c.d, explicit_nodes(c, c.d.nodes.len() as int)),
{
    let n = c.d.nodes.len() as int;
    lemma_explicit(c, n);
    let nodes = explicit_nodes(c, n);
    assert forall|i: int| 0 <= i < c.d.nodes.len() implies listed(
        nodes,
        (#[trigger] c.d.nodes[i]).id,
    ) by {
        assert(nodes[i].id == c.d.nodes[i].id);
    }
    lemma_ends(c.d, nodes);
}

proof fn lemma_explicit(c: Basis, k: int)
    requires
        0 <= k,
    ensures
        explicit_nodes(c, k).len() == k,
        forall|i: int| 0 <= i < k ==> (#[trigger] explicit_nodes(c, k)[i]).id == c.d.nodes[i].id,
    decreases k,
{
    if k > 0 {
        lemma_explicit(c, k - 1);
        let before = explicit_nodes(c, k - 1);
        assert forall|i: int| 0 <= i < k implies (#[trigger] explicit_nodes(c, k)[i]).id
            == c.d.nodes[i].id by {
            if i < k - 1 {
                assert(explicit_nodes(c, k)[i] == before[i]);
            }
        }
    }
}

proof fn lemma_last_named(names: Seq<Seq<char>>, name: Seq<char>, k: int, i: int)
    requires
        0 <= i < k <= names.len(),
        names[i] == name,
    ensures
        last_named(names, name, k) is Some,
    decreases k,
{
    if names[k - 1] != name {
        lemma_last_named(names, name, k - 1, i);
    }
}

/// Where edges connect nodes of a diagram, their ends are found from the end
/// of the list too.
pub proof fn lemma_global(d: DiagramView)
    requires
        placeable(d),
    ensures
        forall|i: int|
            0 <= i < d.edges.len() ==> global(d.nodes, (#[trigger] d.edges[i]).from) is Some
                && global(d.nodes, d.edges[i].to) is Some,
{
    let ids = lane_node_ids(d.nodes);
    assert forall|i: int| 0 <= i < d.edges.len() implies global(
        d.nodes,
        (#[trigger] d.edges[i]).from,
    ) is Some && global(d.nodes, d.edges[i].to) is Some by {
        let e = d.edges[i];
        lemma_name_from(ids, e.from, 0);
        lemma_name_from(ids, e.to, 0);
        lemma_last_named(ids, e.from, ids.len() as int, name_index(ids, e.from)->Some_0);
        lemma_last_named(ids, e.to, ids.len() as int, name_index(ids, e.to)->Some_0);
    }
}

/// Every lane has a size.
pub proof fn lemma_lane_dims_sized(c: Basis, lanes: Seq<LaneView>, k: nat)
    requires
        k <= lanes.len(),
    ensures
        all_sized(lanes, lane_dims(c, lanes), k),
    decreases lanes, k,
{
    if k > 0 {
        lemma_lane_dims_sized(c, lanes, (k - 1) as nat);
        lemma_lane_dim_sized(c, lanes[k - 1]);
    }
}

proof fn lemma_lane_dim_sized(c: Basis, lane: LaneView)
    ensures
        sized(lane, lane_dim(c, lane)),
    decreases lane, 0nat,
{
    lemma_lane_dims_sized(c, lane.children, lane.children.len());
}

/// Lanes keep their sub-lanes when their heights are made even.
pub proof fn lemma_even_heights(lanes: Seq<LaneView>, ms: Seq<Dim>, h: int, k: nat)
    requires
        all_sized(lanes, ms, k),
    ensures
        all_sized(lanes, all_as_high(ms, h), k),
    decreases lanes, k,
{
    if k > 0 {
        lemma_even_heights(lanes, ms, h, (k - 1) as nat);
        lemma_even_height(lanes[k - 1], ms[k - 1]);
        let e = even_heights(ms[k - 1]);
        let f = all_as_high(ms, h)[k - 1];
        assert(f.children == e.children);
        assert(all_sized(lanes[k - 1].children, e.children, lanes[k - 1].children.len()));
        assert(sized(lanes[k - 1], f));
    }
}

proof fn lemma_even_height(lane: LaneView, m: Dim)
    requires
        sized(lane, m),
    ensures
        sized(lane, even_heights(m)),
    decreases lane, 0nat,
{
    lemma_even_heights(
        lane.children,
        m.children,
        crate::advance::place::lanes::max_h(m.children, m.children.len() as int),
        lane.children.len(),
    );
}

/// Lanes keep their sub-lanes when their widths are made even.
pub proof fn lemma_even_widths(lanes: Seq<LaneView>, ms: Seq<Dim>, w: int, k: nat)
    requires
        all_sized(lanes, ms, k),
    ensures
        all_sized(lanes, all_as_wide(ms, w), k),
    decreases lanes, k,
{
    if k > 0 {
        lemma_even_widths(lanes, ms, w, (k - 1) as nat);
        lemma_even_width(lanes[k - 1], ms[k - 1]);
        let e = even_widths(ms[k - 1]);
        let f = all_as_wide(ms, w)[k - 1];
        assert(f.children == e.children);
        assert(all_sized(lanes[k - 1].children, e.children, lanes[k - 1].children.len()));
        assert(sized(lanes[k - 1], f));
    }
}

proof fn lemma_even_width(lane: LaneView, m: Dim)
    requires
        sized(lane, m),
    ensures
        sized(lane, even_widths(m)),
    decreases lane, 0nat,
{
    lemma_even_widths(
        lane.children,
        m.children,
        crate::advance::place::lanes::max_w(m.children, m.children.len() as int),
        lane.children.len(),
    );
}

/// Placed lanes are in range.
pub proof fn lemma_lanes_fit(
    c: Basis,
    lanes: Seq<LaneView>,
    ms: Seq<Dim>,
    k: nat,
    x: int,
    y: int,
    st: Stage,
)
    requires
        k <= lanes.len(),
        ms.len() == lanes.len(),
        dims_fit(ms, ms.len()),
        all_sized(lanes, ms, lanes.len()),
        bounded(x),
        bounded(y),
        lanes_fit(st.lanes),
    ensures
        lanes_fit(with_lanes(c, lanes, ms, k, x, y, st).lanes),
    decreases lanes, k,
{
    if k > 0 {
        let j = (k - 1) as nat;
        lemma_lanes_fit(c, lanes, ms, j, x, y, st);
        lemma_dims_fit(ms, ms.len(), k - 1);
        crate::advance::place::emit::lemma_sized(lanes, ms, lanes.len(), k - 1);
        let before = with_lanes(c, lanes, ms, j, x, y, st);
        match c.d.direction {
            AdvanceDirection::Vertical => {
                lemma_start_fits(c, ms, k - 1, x);
                lemma_lane_fits(
                    c,
                    lanes[k - 1],
                    ms[k - 1],
                    lane_start(c, ms, k - 1, x),
                    y,
                    before,
                );
            },
            AdvanceDirection::Horizontal => {
                lemma_start_fits(c, ms, k - 1, y);
                lemma_lane_fits(
                    c,
                    lanes[k - 1],
                    ms[k - 1],
                    x,
                    lane_start(c, ms, k - 1, y),
                    before,
                );
            },
        }
    }
}

proof fn lemma_start_fits(c: Basis, ms: Seq<Dim>, k: int, start: int)
    requires
        bounded(start),
    ensures
        bounded(lane_start(c, ms, k, start)),
    decreases k,
{
    if k > 0 {
        lemma_start_fits(c, ms, k - 1, start);
    }
}

proof fn lemma_lane_fits(c: Basis, lane: LaneView, m: Dim, x: int, y: int, st: Stage)
    requires
        dim_fits(m),
        sized(lane, m),
        bounded(x),
        bounded(y),
        lanes_fit(st.lanes),
    ensures
        lanes_fit(with_lane(c, lane, m, x, y, st).lanes),
    decreases lane, 0nat,
{
    let own = Stage {
        lanes: st.lanes.push(
            SceneLaneView {
                id: lane.id,
                title: lane.title,
                x: x as Px,
                y: y as Px,
                w: m.w as Px,
                h: m.h as Px,
            },
        ),
        nodes: st.nodes,
    };
    assert(lanes_fit(own.lanes));
    let (cx, cy) = inner_corner(c, x, y);
    lemma_lanes_fit(c, lane.children, m.children, lane.children.len(), cx, cy, own);
}

} // verus!
