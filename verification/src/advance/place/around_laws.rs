//! Nodes with places of their own keep them, and lanes are drawn around
//! them.

use vstd::prelude::*;

use crate::advance::lane_tree::preorder;
use crate::advance::place::canvas::{lane_around, lane_bounds, lanes_around, Bounds};
use crate::advance::place::containment::calm;
use crate::advance::place::fit::{
    fitted, lanes_left, lanes_top, move_down, move_right, moved_lane, moved_node, nodes_left,
    nodes_top,
};
use crate::advance::place::lanes::{Basis, Spacing};
use crate::advance::place::layout::{
    all_explicit, basis, explicit_nodes, is_around, is_layout, is_scene,
};
use crate::advance::place::sizes::NodeMeasure;
use crate::advance::route::geometry::FAR;
use crate::advance::scene::{Px, SceneLaneView, SceneNodeView, SceneView};
use crate::advance::{DiagramView, LaneView};

verus! {

/// Whether a length is small against the range of lengths.
pub open spec fn small(v: int) -> bool {
    -FAR / 64 <= v <= FAR / 64
}

/// Whether places, sizes and spacings are small against the range.
pub open spec fn compact(c: Basis) -> bool {
    &&& small(c.sp.margin as int) && small(c.sp.lane_pad_x as int) && small(c.sp.lane_pad_y as int)
    &&& small(c.sp.lane_title_h as int)
    &&& forall|i: int|
        0 <= i < c.sizes.len() ==> small((#[trigger] c.sizes[i]).0 as int) && small(
            c.sizes[i].1 as int,
        )
    &&& forall|i: int|
        0 <= i < c.measures.len() ==> ((#[trigger] c.measures[i]).x matches Some(x) && small(
            x as int,
        )) && (c.measures[i].y matches Some(y) && small(y as int))
}

/// Whether a node is drawn near the origin.
spec fn node_small(n: SceneNodeView) -> bool {
    small(n.x as int) && small(n.y as int) && 0 <= n.w && 0 <= n.h && small(n.w as int) && small(
        n.h as int,
    )
}

proof fn lemma_explicit(c: Basis, k: int)
    requires
        calm(c),
        compact(c),
        0 <= k <= c.d.nodes.len(),
        c.measures.len() == c.d.nodes.len(),
    ensures
        explicit_nodes(c, k).len() == k,
        forall|i: int|
            0 <= i < k ==> node_small(#[trigger] explicit_nodes(c, k)[i]) && explicit_nodes(c, k)[i].x
                == c.measures[i].x->0 && explicit_nodes(c, k)[i].y == c.measures[i].y->0
                && explicit_nodes(c, k)[i].id == c.d.nodes[i].id && explicit_nodes(c, k)[i].lane
                == c.d.nodes[i].lane,
    decreases k,
{
    if k > 0 {
        lemma_explicit(c, k - 1);
        let before = explicit_nodes(c, k - 1);
        let all = explicit_nodes(c, k);
        assert(small(c.sizes[k - 1].0 as int) && small(c.sizes[k - 1].1 as int));
        assert(0 <= c.sizes[k - 1].0 && 0 <= c.sizes[k - 1].1);
        assert(c.measures[k - 1].x is Some);
        assert forall|i: int| 0 <= i < k implies node_small(#[trigger] all[i]) && all[i].x
            == c.measures[i].x->0 && all[i].y == c.measures[i].y->0 && all[i].id == c.d.nodes[i].id
            && all[i].lane == c.d.nodes[i].lane by {
            if i < k - 1 {
                assert(all[i] == before[i]);
            }
        }
    }
}

/// Whether a box lies near the origin.
spec fn bounds_small(b: Bounds) -> bool {
    -FAR / 16 <= b.l <= b.r <= FAR / 16 && -FAR / 16 <= b.t <= b.b <= FAR / 16
}

/// Whether a box holds a node.
spec fn bounds_hold(b: Bounds, n: SceneNodeView) -> bool {
    b.l <= n.x - n.w as int / 2 && n.x + n.w as int / 2 <= b.r && b.t <= n.y - n.h as int / 2 && n.y
        + n.h as int / 2 <= b.b
}

proof fn lemma_bounds(nodes: Seq<SceneNodeView>, lane: Seq<char>, k: int)
    requires
        0 <= k <= nodes.len(),
        forall|i: int| 0 <= i < nodes.len() ==> node_small(#[trigger] nodes[i]),
    ensures
        lane_bounds(nodes, lane, k) matches Some(b) ==> bounds_small(b),
        forall|i: int|
            0 <= i < k && (#[trigger] nodes[i]).lane == lane ==> (lane_bounds(nodes, lane, k) matches Some(
                b,
            ) && bounds_hold(b, nodes[i])),
    decreases k,
{
    if k > 0 {
        lemma_bounds(nodes, lane, k - 1);
        assert(node_small(nodes[k - 1]));
    }
}

/// A lane that is drawn around its nodes holds them with its padding, and
/// its title above them.
proof fn lemma_lane_around(lane: LaneView, nodes: Seq<SceneNodeView>, c: Basis)
    requires
        calm(c),
        compact(c),
        forall|i: int| 0 <= i < nodes.len() ==> node_small(#[trigger] nodes[i]),
    ensures
        ({
            let l = lane_around(lane, nodes, c.sp);
            &&& -FAR / 8 <= l.x <= FAR / 8 && -FAR / 8 <= l.y <= FAR / 8
            &&& 0 <= l.w <= FAR / 4 && 0 <= l.h <= FAR / 4
            &&& l.id == lane.id
            &&& forall|i: int|
                0 <= i < nodes.len() && (#[trigger] nodes[i]).lane == lane.id ==> l.x
                    + c.sp.lane_pad_x <= nodes[i].x - nodes[i].w as int / 2 && nodes[i].x
                    + nodes[i].w as int / 2 + c.sp.lane_pad_x <= l.x + l.w && l.y
                    + c.sp.lane_title_h + c.sp.lane_pad_y <= nodes[i].y - nodes[i].h as int / 2
                    && nodes[i].y + nodes[i].h as int / 2 + c.sp.lane_pad_y <= l.y + l.h
        }),
{
    lemma_bounds(nodes, lane.id, nodes.len() as int);
}

proof fn lemma_lanes(flat: Seq<LaneView>, k: int, nodes: Seq<SceneNodeView>, c: Basis)
    requires
        0 <= k <= flat.len(),
    ensures
        lanes_around(flat, k, nodes, c.sp).len() == k,
        forall|j: int|
            0 <= j < k ==> #[trigger] lanes_around(flat, k, nodes, c.sp)[j] == lane_around(
                flat[j],
                nodes,
                c.sp,
            ),
    decreases k,
{
    if k > 0 {
        lemma_lanes(flat, k - 1, nodes, c);
        let before = lanes_around(flat, k - 1, nodes, c.sp);
        let all = lanes_around(flat, k, nodes, c.sp);
        assert forall|j: int| 0 <= j < k implies #[trigger] all[j] == lane_around(
            flat[j],
            nodes,
            c.sp,
        ) by {
            if j < k - 1 {
                assert(all[j] == before[j]);
            }
        }
    }
}

/// Whether all lanes and nodes of a scene lie near the origin.
spec fn scene_small(sc: SceneView) -> bool {
    &&& forall|i: int|
        0 <= i < sc.lanes.len() ==> -FAR / 8 <= (#[trigger] sc.lanes[i]).x <= FAR / 8 && -FAR / 8
            <= sc.lanes[i].y <= FAR / 8
    &&& forall|i: int| 0 <= i < sc.nodes.len() ==> node_small(#[trigger] sc.nodes[i])
}

proof fn lemma_lanes_left(lanes: Seq<SceneLaneView>, k: int)
    requires
        0 <= k <= lanes.len(),
        forall|i: int|
            0 <= i < lanes.len() ==> -FAR / 8 <= (#[trigger] lanes[i]).x <= FAR / 8 && -FAR / 8
                <= lanes[i].y <= FAR / 8,
    ensures
        lanes_left(lanes, k) matches Some(v) ==> -FAR / 8 <= v <= FAR / 8,
        lanes_top(lanes, k) matches Some(v) ==> -FAR / 8 <= v <= FAR / 8,
        forall|i: int|
            0 <= i < k ==> (lanes_left(lanes, k) matches Some(v) && v <= (#[trigger] lanes[i]).x),
        forall|i: int|
            0 <= i < k ==> (lanes_top(lanes, k) matches Some(v) && v <= (#[trigger] lanes[i]).y),
    decreases k,
{
    if k > 0 {
        lemma_lanes_left(lanes, k - 1);
    }
}

proof fn lemma_nodes_left(
    nodes: Seq<SceneNodeView>,
    k: int,
    from: Option<int>,
    top: Option<int>,
)
    requires
        0 <= k <= nodes.len(),
        forall|i: int| 0 <= i < nodes.len() ==> node_small(#[trigger] nodes[i]),
        from matches Some(v) ==> -FAR / 8 <= v <= FAR / 8,
        top matches Some(v) ==> -FAR / 8 <= v <= FAR / 8,
    ensures
        nodes_left(nodes, k, from) matches Some(v) ==> -FAR / 8 <= v <= FAR / 8,
        nodes_top(nodes, k, top) matches Some(v) ==> -FAR / 8 <= v <= FAR / 8,
        from matches Some(o) ==> (nodes_left(nodes, k, from) matches Some(v) && v <= o),
        top matches Some(o) ==> (nodes_top(nodes, k, top) matches Some(v) && v <= o),
        forall|i: int|
            0 <= i < k ==> (nodes_left(nodes, k, from) matches Some(v) && v <= (#[trigger] nodes[i]).x
                - nodes[i].w as int / 2),
        forall|i: int|
            0 <= i < k ==> (nodes_top(nodes, k, top) matches Some(v) && v <= (#[trigger] nodes[i]).y
                - nodes[i].h as int / 2),
    decreases k,
{
    if k > 0 {
        lemma_nodes_left(nodes, k - 1, from, top);
        assert(node_small(nodes[k - 1]));
    }
}

/// Whether one scene is another moved by `(dx, dy)`.
pub open spec fn shifted(a: SceneView, b: SceneView, dx: int, dy: int) -> bool {
    &&& b.lanes.len() == a.lanes.len()
    &&& forall|i: int|
        0 <= i < a.lanes.len() ==> (#[trigger] b.lanes[i]).x == a.lanes[i].x + dx && b.lanes[i].y
            == a.lanes[i].y + dy && b.lanes[i].w == a.lanes[i].w && b.lanes[i].h == a.lanes[i].h
            && b.lanes[i].id == a.lanes[i].id
    &&& b.nodes.len() == a.nodes.len()
    &&& forall|i: int|
        0 <= i < a.nodes.len() ==> (#[trigger] b.nodes[i]).x == a.nodes[i].x + dx && b.nodes[i].y
            == a.nodes[i].y + dy && b.nodes[i].w == a.nodes[i].w && b.nodes[i].h == a.nodes[i].h
            && b.nodes[i].id == a.nodes[i].id && b.nodes[i].lane == a.nodes[i].lane
}

/// Fitting a scene moves all lanes and nodes alike, to the right and down,
/// so far that none is left of or above the pad; a scene that is not stays
/// as it is.
proof fn lemma_fitted(sc: SceneView, pad: int)
    requires
        scene_small(sc),
        small(pad),
    ensures
        ({
            let (dx, dy) = (move_right(sc, pad), move_down(sc, pad));
            let r = fitted(sc, pad);
            &&& 0 <= dx && 0 <= dy
            &&& shifted(sc, r, dx, dy)
            &&& forall|i: int|
                0 <= i < r.lanes.len() ==> pad <= (#[trigger] r.lanes[i]).x && pad <= r.lanes[i].y
            &&& forall|i: int|
                0 <= i < r.nodes.len() ==> pad <= (#[trigger] r.nodes[i]).x - r.nodes[i].w as int / 2
                    && pad <= r.nodes[i].y - r.nodes[i].h as int / 2
        }),
{
    let n = sc.nodes.len() as int;
    let m = sc.lanes.len() as int;
    lemma_lanes_left(sc.lanes, m);
    lemma_nodes_left(sc.nodes, n, lanes_left(sc.lanes, m), lanes_top(sc.lanes, m));
    let (dx, dy) = (move_right(sc, pad), move_down(sc, pad));
    let r = fitted(sc, pad);
    if dx > 0 || dy > 0 {
        assert forall|i: int| 0 <= i < m implies #[trigger] r.lanes[i] == moved_lane(
            sc.lanes[i],
            dx,
            dy,
        ) by {}
        assert forall|i: int| 0 <= i < n implies #[trigger] r.nodes[i] == moved_node(
            sc.nodes[i],
            dx,
            dy,
        ) by {
            assert(node_small(sc.nodes[i]));
        }
        assert forall|i: int|
            0 <= i < n implies (#[trigger] r.nodes[i]).x == sc.nodes[i].x + dx && r.nodes[i].y
            == sc.nodes[i].y + dy by {
            assert(node_small(sc.nodes[i]));
        }
    }
}

/// A diagram whose nodes all have places of their own keeps these places:
/// all nodes are moved alike, to the right and down. Every lane is drawn
/// around its nodes, with its padding and with room for its title above.
/// Nothing is left of or above the margin. This holds as long as places,
/// sizes and spacings are small against the range of lengths.
pub proof fn law_explicit_nodes_keep_their_places(
    sc: SceneView,
    d: DiagramView,
    measures: Seq<NodeMeasure>,
    widths: Seq<Px>,
    sp: Spacing,
)
    requires
        is_layout(sc, d, measures, widths, sp),
        all_explicit(measures),
        measures.len() == d.nodes.len(),
        calm(basis(d, measures, sp)),
        compact(basis(d, measures, sp)),
    ensures
        ({
            let own = basis(d, measures, sp).sp;
            &&& exists|dx: int, dy: int|
                0 <= dx && 0 <= dy && #[trigger] moved_alike(sc, d, measures, dx, dy)
            &&& forall|i: int|
                0 <= i < sc.nodes.len() ==> own.margin <= (#[trigger] sc.nodes[i]).x
                    - sc.nodes[i].w as int / 2 && own.margin <= sc.nodes[i].y - sc.nodes[i].h as int
                    / 2
            &&& forall|i: int|
                0 <= i < sc.lanes.len() ==> own.margin <= (#[trigger] sc.lanes[i]).x && own.margin
                    <= sc.lanes[i].y
            &&& forall|i: int, j: int|
                0 <= i < sc.nodes.len() && 0 <= j < sc.lanes.len() && (#[trigger] sc.nodes[i]).lane
                    == (#[trigger] sc.lanes[j]).id ==> padded(sc.nodes[i], sc.lanes[j], own)
        }),
{
    let c = basis(d, measures, sp);
    let n = d.nodes.len() as int;
    let nodes = explicit_nodes(c, n);
    let flat = preorder(d.lanes);
    let lanes = lanes_around(flat, flat.len() as int, nodes, c.sp);
    let raw = choose|raw: SceneView|
        #[trigger] is_scene(
            raw,
            d,
            lanes,
            nodes,
            crate::advance::place::lengths::plus(
                crate::advance::place::canvas::reach_right(lanes, lanes.len() as int),
                c.sp.margin as int,
            ),
            crate::advance::place::lengths::plus(
                crate::advance::place::canvas::reach_down(lanes, lanes.len() as int),
                c.sp.margin as int,
            ),
            widths,
        ) && sc == fitted(raw, c.sp.margin as int);
    assert(is_around(sc, d, measures, widths, sp));
    lemma_explicit(c, n);
    lemma_lanes(flat, flat.len() as int, nodes, c);
    assert forall|j: int| 0 <= j < lanes.len() implies -FAR / 8 <= (#[trigger] lanes[j]).x <= FAR
        / 8 && -FAR / 8 <= lanes[j].y <= FAR / 8 by {
        lemma_lane_around(flat[j], nodes, c);
    }
    assert(raw.lanes == lanes && raw.nodes == nodes);
    lemma_fitted(raw, c.sp.margin as int);
    let (dx, dy) = (move_right(raw, c.sp.margin as int), move_down(raw, c.sp.margin as int));
    assert forall|i: int| 0 <= i < n implies (#[trigger] sc.nodes[i]).x == measures[i].x->0 + dx
        && sc.nodes[i].y == measures[i].y->0 + dy && sc.nodes[i].id == d.nodes[i].id by {
        assert(raw.nodes[i] == nodes[i]);
    }
    assert(moved_alike(sc, d, measures, dx, dy));
    assert forall|i: int, j: int|
        0 <= i < sc.nodes.len() && 0 <= j < sc.lanes.len() && (#[trigger] sc.nodes[i]).lane == (
        #[trigger] sc.lanes[j]).id implies padded(sc.nodes[i], sc.lanes[j], c.sp) by {
        lemma_lane_around(flat[j], nodes, c);
        assert(raw.nodes[i] == nodes[i] && raw.lanes[j] == lanes[j]);
    }
}

/// Whether the nodes of a scene are those of a diagram, all moved alike from
/// their own places.
pub open spec fn moved_alike(
    sc: SceneView,
    d: DiagramView,
    measures: Seq<NodeMeasure>,
    dx: int,
    dy: int,
) -> bool {
    &&& sc.nodes.len() == d.nodes.len()
    &&& forall|i: int|
        0 <= i < d.nodes.len() ==> (#[trigger] sc.nodes[i]).x == measures[i].x->0 + dx
            && sc.nodes[i].y == measures[i].y->0 + dy && sc.nodes[i].id == d.nodes[i].id
}

/// Whether a lane holds a node with its padding, and its title above.
pub open spec fn padded(n: SceneNodeView, l: SceneLaneView, sp: Spacing) -> bool {
    &&& l.x + sp.lane_pad_x <= n.x - n.w as int / 2
    &&& n.x + n.w as int / 2 + sp.lane_pad_x <= l.x + l.w
    &&& l.y + sp.lane_title_h + sp.lane_pad_y <= n.y - n.h as int / 2
    &&& n.y + n.h as int / 2 + sp.lane_pad_y <= l.y + l.h
}

} // verus!
