//! The whole scene of a diagram.

use vstd::prelude::*;

use crate::advance::ends::{lane_node_ids, lane_node_index};
use crate::advance::lane_tree::preorder;
use crate::advance::place::canvas::{
    build_lanes_around_nodes, build_lanes_with_widths, given_lanes, given_start, highest_lane,
    lanes_around, lanes_fit, reach_down, reach_right, widths_fit,
};
use crate::advance::place::coverage::{
    all_in_trees, check_lanes, lemma_even_heights, lemma_even_widths, lemma_explicit_ids,
    lemma_global, lemma_lane_dims_sized, lemma_stage_holds_all,
};
use crate::advance::place::elements::{placed_node, scene_node};
use crate::advance::place::emit::{lane_start, place_lanes, with_lanes, Stage, Staging};
use crate::advance::place::fit::{fit_canvas, fitted, scene_near};
use crate::advance::place::lanes::{
    all_as_high, all_as_wide, basis_fits, compute_lane_dims, dim_views, gather, lane_dims,
    make_as_high, make_as_wide, max_h, max_w, spacing_fits, Basis, Dim, Placement, Spacing,
};
use crate::advance::place::lengths::{bound, bounded, cut, diff, minus, plus, sum};
use crate::advance::place::sizes::{node_measured, node_size, size_of_node, NodeMeasure};
use crate::advance::route::edges::{ends_placed, is_routed, nodes_near, route_edges, widths_near};
use crate::advance::route::geometry::course;
use crate::advance::route::laws::law_routes_are_orthogonal;
use crate::advance::svg::{label_placed, labels_placed};
use crate::advance::scene::{
    scene_lanes, scene_nodes, AdvanceScene, AdvanceSceneLane, AdvanceSceneNode, Px, SceneLaneView,
    SceneNodeView, SceneView,
};
use crate::advance::{
    lane_node_views, lane_views, AdvanceDiagram, AdvanceDirection, DiagramView, LaneNodeView,
};
use crate::model::{copy_opt, name_index};

verus! {

/// Spacing cut off at the ends of the range.
pub open spec fn cut_spacing(s: Spacing) -> Spacing {
    Spacing {
        margin: bound(s.margin as int) as Px,
        lane_gap: bound(s.lane_gap as int) as Px,
        node_gap_y: bound(s.node_gap_y as int) as Px,
        lane_pad_x: bound(s.lane_pad_x as int) as Px,
        lane_pad_y: bound(s.lane_pad_y as int) as Px,
        lane_title_h: bound(s.lane_title_h as int) as Px,
    }
}

pub fn tame(s: Spacing) -> (r: Spacing)
    ensures
        r == cut_spacing(s),
        spacing_fits(r),
{
    Spacing {
        margin: cut(s.margin),
        lane_gap: cut(s.lane_gap),
        node_gap_y: cut(s.node_gap_y),
        lane_pad_x: cut(s.lane_pad_x),
        lane_pad_y: cut(s.lane_pad_y),
        lane_title_h: cut(s.lane_title_h),
    }
}

/// The sizes of the first `k` nodes.
pub open spec fn node_sizes(
    nodes: Seq<LaneNodeView>,
    measures: Seq<NodeMeasure>,
    k: int,
) -> Seq<(Px, Px)>
    decreases k,
{
    if k <= 0 {
        Seq::empty()
    } else {
        let s = size_of_node(nodes[k - 1], measures[k - 1]);
        node_sizes(nodes, measures, k - 1).push((s.0 as Px, s.1 as Px))
    }
}

/// What the lanes of a diagram are placed by.
pub open spec fn basis(d: DiagramView, measures: Seq<NodeMeasure>, sp: Spacing) -> Basis {
    Basis {
        d,
        measures,
        sizes: node_sizes(d.nodes, measures, d.nodes.len() as int),
        sp: cut_spacing(sp),
    }
}

/// Whether a diagram can be placed: every node is in a lane of the diagram,
/// and every edge connects nodes of it.
pub open spec fn placeable(d: DiagramView) -> bool {
    &&& all_in_trees(d.nodes, d.lanes)
    &&& forall|k: int|
        0 <= k < d.edges.len() ==> name_index(lane_node_ids(d.nodes), (#[trigger] d.edges[k]).from)
            is Some && name_index(lane_node_ids(d.nodes), d.edges[k].to) is Some
}

/// Whether a diagram can be placed.
pub fn can_place(d: &AdvanceDiagram) -> (r: bool)
    ensures
        r == placeable(d@),
{
    let mut k: usize = 0;
    while k < d.edges.len()
        invariant
            k <= d.edges@.len(),
            forall|i: int|
                0 <= i < k ==> name_index(lane_node_ids(d@.nodes), (#[trigger] d@.edges[i]).from)
                    is Some && name_index(lane_node_ids(d@.nodes), d@.edges[i].to) is Some,
        decreases d.edges@.len() - k,
    {
        let e = &d.edges[k];
        assert(d@.edges[k as int] == e@);
        if lane_node_index(&d.nodes, e.from.as_str()).is_none() {
            return false;
        }
        if lane_node_index(&d.nodes, e.to.as_str()).is_none() {
            return false;
        }
        k += 1;
    }
    check_lanes(&d.nodes, &d.lanes)
}

/// Whether something was measured of every part of every node, and of every
/// label.
pub open spec fn all_nodes_measured(
    d: DiagramView,
    measures: Seq<NodeMeasure>,
    widths: Seq<Px>,
) -> bool {
    &&& measures.len() == d.nodes.len()
    &&& forall|i: int|
        0 <= i < d.nodes.len() ==> node_measured(#[trigger] d.nodes[i], measures[i])
    &&& widths.len() == d.edges.len()
    &&& widths_near(widths)
}

/// Whether every node has its own place.
pub open spec fn own_places(measures: Seq<NodeMeasure>) -> bool {
    forall|i: int|
        0 <= i < measures.len() ==> (#[trigger] measures[i]).x is Some && measures[i].y is Some
}

/// Whether there are nodes, and every node has its own place.
pub open spec fn all_explicit(measures: Seq<NodeMeasure>) -> bool {
    measures.len() > 0 && own_places(measures)
}

/// The first `k` nodes in their own places.
pub open spec fn explicit_nodes(c: Basis, k: int) -> Seq<SceneNodeView>
    decreases k,
{
    if k <= 0 {
        Seq::empty()
    } else {
        explicit_nodes(c, k - 1).push(
            placed_node(
                c.d.nodes[k - 1],
                c.measures[k - 1],
                bound(c.measures[k - 1].x->Some_0 as int),
                bound(c.measures[k - 1].y->Some_0 as int),
                c.sizes[k - 1].0 as int,
                c.sizes[k - 1].1 as int,
            ),
        )
    }
}

/// Whether `sc` is the scene of a diagram with the given lanes, nodes and
/// canvas, and with its edges routed between the nodes.
pub open spec fn is_scene(
    sc: SceneView,
    d: DiagramView,
    lanes: Seq<SceneLaneView>,
    nodes: Seq<SceneNodeView>,
    width: int,
    height: int,
    widths: Seq<Px>,
) -> bool {
    &&& sc.width == width && sc.height == height
    &&& sc.title == d.title && sc.description == d.description
    &&& sc.direction == d.direction && sc.style == d.style
    &&& sc.lanes == lanes && sc.nodes == nodes
    &&& sc.edges.len() == d.edges.len()
    &&& forall|k: int|
        0 <= k < sc.edges.len() ==> is_routed(
            #[trigger] sc.edges[k],
            d,
            nodes,
            widths,
            k,
            d.direction,
        )
}

/// The sizes of the top lanes: as high as the highest, or as wide as the
/// widest.
pub open spec fn top_dims(c: Basis) -> Seq<Dim> {
    let own = lane_dims(c, c.d.lanes);
    match c.d.direction {
        AdvanceDirection::Vertical => all_as_high(own, max_h(own, own.len() as int)),
        AdvanceDirection::Horizontal => all_as_wide(own, max_w(own, own.len() as int)),
    }
}

/// All lanes and nodes in their places.
pub open spec fn stage(c: Basis) -> Stage {
    with_lanes(
        c,
        c.d.lanes,
        top_dims(c),
        c.d.lanes.len(),
        c.sp.margin as int,
        c.sp.margin as int,
        Stage { lanes: Seq::empty(), nodes: Seq::empty() },
    )
}

/// The size of the canvas around the top lanes.
pub open spec fn canvas(c: Basis) -> (int, int) {
    let margin = c.sp.margin as int;
    let own = lane_dims(c, c.d.lanes);
    let n = own.len() as int;
    let along = if n == 0 {
        plus(margin, margin)
    } else {
        plus(minus(lane_start(c, top_dims(c), n, margin), c.sp.lane_gap as int), margin)
    };
    match c.d.direction {
        AdvanceDirection::Vertical => (along, plus(max_h(own, n), plus(margin, margin))),
        AdvanceDirection::Horizontal => (plus(plus(margin, max_w(own, n)), margin), along),
    }
}

/// Whether `sc` is the scene of a diagram around the nodes' own places.
pub open spec fn is_around(
    sc: SceneView,
    d: DiagramView,
    measures: Seq<NodeMeasure>,
    widths: Seq<Px>,
    sp: Spacing,
) -> bool {
    let c = basis(d, measures, sp);
    let nodes = explicit_nodes(c, d.nodes.len() as int);
    let flat = preorder(d.lanes);
    let lanes = lanes_around(flat, flat.len() as int, nodes, c.sp);
    exists|raw: SceneView|
        #[trigger] is_scene(
            raw,
            d,
            lanes,
            nodes,
            plus(reach_right(lanes, lanes.len() as int), c.sp.margin as int),
            plus(reach_down(lanes, lanes.len() as int), c.sp.margin as int),
            widths,
        ) && sc == fitted(raw, c.sp.margin as int)
}

/// Whether `sc` is the placed scene of a diagram: around the nodes' own
/// places where all have one, else lane by lane.
pub open spec fn is_layout(
    sc: SceneView,
    d: DiagramView,
    measures: Seq<NodeMeasure>,
    widths: Seq<Px>,
    sp: Spacing,
) -> bool {
    if all_explicit(measures) {
        is_around(sc, d, measures, widths, sp)
    } else {
        let c = basis(d, measures, sp);
        let st = stage(c);
        is_scene(sc, d, st.lanes, st.nodes, canvas(c).0, canvas(c).1, widths)
    }
}

/// The width of the canvas around `n` lanes of given widths.
pub open spec fn given_width(lane_widths: Seq<Px>, n: int, margin: int, gap: int) -> int {
    if n == 0 {
        plus(margin, margin)
    } else {
        plus(minus(given_start(lane_widths, n, margin, gap), gap), margin)
    }
}

/// Whether `sc` is the scene of a diagram with its nodes in their own
/// places, in lanes of given widths.
pub open spec fn is_between(
    sc: SceneView,
    d: DiagramView,
    measures: Seq<NodeMeasure>,
    widths: Seq<Px>,
    sp: Spacing,
    lane_widths: Seq<Px>,
    margin: Px,
    gap: Px,
) -> bool {
    let c = basis(d, measures, sp);
    let nodes = explicit_nodes(c, d.nodes.len() as int);
    let n = d.lanes.len() as int;
    let h = highest_lane(preorder(d.lanes), n, nodes, margin as int, c.sp);
    let width = given_width(lane_widths, n, margin as int, gap as int);
    exists|raw: SceneView|
        #[trigger] is_scene(
            raw,
            d,
            given_lanes(d.lanes, lane_widths, n, margin as int, gap as int, h),
            nodes,
            width,
            plus(h, plus(margin as int, margin as int)),
            widths,
        ) && sc == fitted(raw, margin as int)
}

/// In a scene with routed edges every label has a place.
proof fn lemma_labels_placed(
    sc: SceneView,
    d: DiagramView,
    lanes: Seq<SceneLaneView>,
    nodes: Seq<SceneNodeView>,
    width: int,
    height: int,
    widths: Seq<Px>,
    pad: int,
)
    requires
        is_scene(sc, d, lanes, nodes, width, height, widths),
    ensures
        labels_placed(sc),
        labels_placed(fitted(sc, pad)),
{
    assert forall|i: int| 0 <= i < sc.edges.len() implies (#[trigger] sc.edges[i]).points.len()
        > 0 by {
        assert(is_routed(sc.edges[i], d, nodes, widths, i, d.direction));
        law_routes_are_orthogonal(d, nodes, i, d.direction);
        assert(course(sc.edges[i].points).len() == sc.edges[i].points.len());
    }
    let to = fitted(sc, pad);
    assert forall|i: int| 0 <= i < to.edges.len() implies label_placed(#[trigger] to.edges[i]) by {
        assert(sc.edges[i].points.len() > 0);
    }
}

fn measure_sizes(d: &AdvanceDiagram, measures: &Vec<NodeMeasure>) -> (r: Vec<(Px, Px)>)
    requires
        measures@.len() == d.nodes@.len(),
        forall|i: int|
            0 <= i < d@.nodes.len() ==> node_measured(#[trigger] d@.nodes[i], measures@[i]),
    ensures
        r@ == node_sizes(d@.nodes, measures@, d.nodes@.len() as int),
        r@.len() == d.nodes@.len(),
        forall|i: int|
            0 <= i < r@.len() ==> bounded((#[trigger] r@[i]).0 as int) && bounded(r@[i].1 as int),
{
    let ghost nodes = d@.nodes;
    let mut r: Vec<(Px, Px)> = Vec::new();
    let mut i: usize = 0;
    while i < d.nodes.len()
        invariant
            i <= d.nodes@.len(),
            nodes == d@.nodes,
            nodes == lane_node_views(d.nodes@),
            measures@.len() == d.nodes@.len(),
            forall|k: int|
                0 <= k < nodes.len() ==> node_measured(#[trigger] nodes[k], measures@[k]),
            r@.len() == i,
            r@ == node_sizes(nodes, measures@, i as int),
            forall|k: int|
                0 <= k < r@.len() ==> bounded((#[trigger] r@[k]).0 as int) && bounded(
                    r@[k].1 as int,
                ),
        decreases d.nodes@.len() - i,
    {
        assert(nodes[i as int] == d.nodes@[i as int]@);
        let s = node_size(&d.nodes[i], &measures[i]);
        r.push(s);
        i += 1;
    }
    r
}

fn has_own_places(measures: &Vec<NodeMeasure>) -> (r: bool)
    ensures
        r == all_explicit(measures@),
{
    if measures.len() == 0 {
        return false;
    }
    let mut i: usize = 0;
    while i < measures.len()
        invariant
            i <= measures@.len(),
            forall|k: int|
                0 <= k < i ==> (#[trigger] measures@[k]).x is Some && measures@[k].y is Some,
        decreases measures@.len() - i,
    {
        if measures[i].x.is_none() || measures[i].y.is_none() {
            assert(measures@[i as int].x is None || measures@[i as int].y is None);
            return false;
        }
        i += 1;
    }
    true
}

fn place_own(p: &Placement) -> (r: Vec<AdvanceSceneNode>)
    requires
        basis_fits(p@),
        own_places(p@.measures),
    ensures
        scene_nodes(r@) == explicit_nodes(p@, p@.d.nodes.len() as int),
        nodes_near(scene_nodes(r@)),
{
    let ghost c = p@;
    let mut r: Vec<AdvanceSceneNode> = Vec::new();
    let mut i: usize = 0;
    assert(scene_nodes(r@) =~= Seq::empty());
    while i < p.d.nodes.len()
        invariant
            i <= p.d.nodes@.len(),
            c == p@,
            basis_fits(c),
            own_places(c.measures),
            scene_nodes(r@) == explicit_nodes(c, i as int),
            nodes_near(scene_nodes(r@)),
        decreases p.d.nodes@.len() - i,
    {
        assert(c.d.nodes[i as int] == p.d.nodes@[i as int]@);
        assert(node_measured(c.d.nodes[i as int], c.measures[i as int]));
        assert(bounded(c.sizes[i as int].0 as int));
        let m = &p.measures[i];
        assert(c.measures[i as int].x is Some);
        if let (Some(x), Some(y)) = (m.x, m.y) {
            let (w, h) = p.sizes[i];
            let n = scene_node(&p.d.nodes[i], m, cut(x), cut(y), w, h);
            let ghost before = r@;
            r.push(n);
            assert(scene_nodes(r@) =~= scene_nodes(before).push(n@));
        }
        i += 1;
    }
    r
}

fn assemble(
    d: &AdvanceDiagram,
    lanes: Vec<AdvanceSceneLane>,
    nodes: Vec<AdvanceSceneNode>,
    width: Px,
    height: Px,
    widths: &Vec<Px>,
) -> (r: AdvanceScene)
    requires
        ends_placed(d@, scene_nodes(nodes@)),
        nodes_near(scene_nodes(nodes@)),
        lanes_fit(scene_lanes(lanes@)),
        widths@.len() == d.edges@.len(),
        widths_near(widths@),
        bounded(width as int),
        bounded(height as int),
    ensures
        is_scene(
            r@,
            d@,
            scene_lanes(lanes@),
            scene_nodes(nodes@),
            width as int,
            height as int,
            widths@,
        ),
        scene_near(r@),
{
    let edges = route_edges(d, &nodes, widths, d.direction);
    let r = AdvanceScene {
        width,
        height,
        title: copy_opt(&d.title),
        description: copy_opt(&d.description),
        direction: d.direction,
        style: d.style.clone(),
        lanes,
        nodes,
        edges,
    };
    proof {
        assert forall|k: int| 0 <= k < r@.edges.len() implies is_routed(
            #[trigger] r@.edges[k],
            d@,
            scene_nodes(nodes@),
            widths@,
            k,
            d.direction,
        ) && crate::advance::route::edges::edge_near(r@.edges[k]) by {
            assert(r@.edges[k] == edges@[k]@);
        }
    }
    r
}

fn place_by_lanes(p: &Placement, widths: &Vec<Px>) -> (r: AdvanceScene)
    requires
        basis_fits(p@),
        placeable(p@.d),
        widths@.len() == p@.d.edges.len(),
        widths_near(widths@),
    ensures
        is_scene(
            r@,
            p@.d,
            stage(p@).lanes,
            stage(p@).nodes,
            canvas(p@).0,
            canvas(p@).1,
            widths@,
        ),
        nodes_near(r@.nodes),
{
    let ghost c = p@;
    let d = p.d;
    let margin: Px = p.sp.margin;
    let own = compute_lane_dims(p, &d.lanes);
    let ghost own_v = dim_views(own@);
    assert(own_v == lane_dims(c, c.d.lanes));
    assert(c.d.lanes == lane_views(d.lanes@));
    assert(own_v.len() == own@.len());
    let (wide, high, _, _) = gather(&own);
    let dims = match d.direction {
        AdvanceDirection::Vertical => make_as_high(&own, high),
        AdvanceDirection::Horizontal => make_as_wide(&own, wide),
    };
    assert(dim_views(dims@) == top_dims(c));
    let mut out = Staging { lanes: Vec::new(), nodes: Vec::new() };
    assert(out@ =~= (Stage { lanes: Seq::empty(), nodes: Seq::empty() }));
    proof {
        lemma_lane_dims_sized(c, c.d.lanes, c.d.lanes.len());
        lemma_even_heights(c.d.lanes, own_v, high as int, c.d.lanes.len());
        lemma_even_widths(c.d.lanes, own_v, wide as int, c.d.lanes.len());
    }
    place_lanes(p, &d.lanes, &dims, margin, margin, &mut out);
    proof {
        crate::advance::place::coverage::lemma_lanes_fit(
            c,
            c.d.lanes,
            top_dims(c),
            c.d.lanes.len(),
            margin as int,
            margin as int,
            Stage { lanes: Seq::empty(), nodes: Seq::empty() },
        );
        assert(c.d.nodes.len() == d.nodes.len());
        lemma_stage_holds_all(c, out@.nodes);
    }
    let mut along: Px = margin;
    let mut i: usize = 0;
    let ghost tops = top_dims(c);
    while i < dims.len()
        invariant
            i <= dims@.len(),
            c == p@,
            basis_fits(c),
            tops == dim_views(dims@),
            tops == top_dims(c),
            crate::advance::place::lanes::dims_fit(tops, dims@.len()),
            bounded(along as int),
            along == lane_start(c, tops, i as int, margin as int),
            d.direction == c.d.direction,
        decreases dims@.len() - i,
    {
        proof {
            crate::advance::place::lanes::lemma_dims_fit(tops, dims@.len(), i as int);
            assert(tops[i as int] == dims@[i as int]@);
        }
        let step: Px = match d.direction {
            AdvanceDirection::Vertical => dims[i].w,
            AdvanceDirection::Horizontal => dims[i].h,
        };
        along = sum(along, sum(step, p.sp.lane_gap));
        i += 1;
    }
    let flow: Px = if own.len() == 0 {
        sum(margin, margin)
    } else {
        sum(diff(along, p.sp.lane_gap), margin)
    };
    let (width, height): (Px, Px) = match d.direction {
        AdvanceDirection::Vertical => (flow, sum(high, sum(margin, margin))),
        AdvanceDirection::Horizontal => (sum(sum(margin, wide), margin), flow),
    };
    assert((width as int, height as int) == canvas(c));
    assemble(d, out.lanes, out.nodes, width, height, widths)
}

/// Compute the scene of a diagram around the places that `measures` gives
/// its nodes.
pub fn layout_around(
    d: &AdvanceDiagram,
    measures: &Vec<NodeMeasure>,
    widths: &Vec<Px>,
    spacing: Spacing,
) -> (r: AdvanceScene)
    requires
        placeable(d@),
        all_nodes_measured(d@, measures@, widths@),
        own_places(measures@),
    ensures
        is_around(r@, d@, measures@, widths@, spacing),
        labels_placed(r@),
{
    let sp = tame(spacing);
    let sizes = measure_sizes(d, measures);
    let p = Placement { d, measures, sizes: &sizes, sp };
    let ghost c = basis(d@, measures@, spacing);
    assert(p@ =~= c);
    proof {
        lemma_global(d@);
        assert(basis_fits(c));
    }
    let nodes = place_own(&p);
    let (lanes, width, height) = build_lanes_around_nodes(d, &nodes, sp);
    proof {
        lemma_explicit_ids(c);
    }
    let raw = assemble(d, lanes, nodes, width, height, widths);
    let ghost before = raw@;
    proof {
        lemma_labels_placed(
            before,
            d@,
            scene_lanes(lanes@),
            scene_nodes(nodes@),
            width as int,
            height as int,
            widths@,
            sp.margin as int,
        );
    }
    let r = fit_canvas(raw, sp.margin);
    assert(r@ == fitted(before, c.sp.margin as int));
    r
}

/// Compute the scene of a diagram with its nodes in the places that
/// `measures` gives, in lanes of the given widths.
pub fn layout_between(
    d: &AdvanceDiagram,
    measures: &Vec<NodeMeasure>,
    widths: &Vec<Px>,
    spacing: Spacing,
    lane_widths: &Vec<Px>,
    margin: Px,
    gap: Px,
) -> (r: AdvanceScene)
    requires
        placeable(d@),
        all_nodes_measured(d@, measures@, widths@),
        own_places(measures@),
        lane_widths@.len() == d.lanes@.len(),
        widths_fit(lane_widths@),
        bounded(margin as int),
        bounded(gap as int),
    ensures
        is_between(r@, d@, measures@, widths@, spacing, lane_widths@, margin, gap),
        labels_placed(r@),
{
    let sp = tame(spacing);
    let sizes = measure_sizes(d, measures);
    let p = Placement { d, measures, sizes: &sizes, sp };
    let ghost c = basis(d@, measures@, spacing);
    assert(p@ =~= c);
    proof {
        lemma_global(d@);
        assert(basis_fits(c));
    }
    let nodes = place_own(&p);
    let (lanes, width, height) = build_lanes_with_widths(d, &nodes, lane_widths, margin, gap, sp);
    proof {
        lemma_explicit_ids(c);
    }
    let raw = assemble(d, lanes, nodes, width, height, widths);
    let ghost before = raw@;
    proof {
        lemma_labels_placed(
            before,
            d@,
            scene_lanes(lanes@),
            scene_nodes(nodes@),
            width as int,
            height as int,
            widths@,
            margin as int,
        );
    }
    let r = fit_canvas(raw, margin);
    proof {
        let own = explicit_nodes(c, d@.nodes.len() as int);
        let n = d@.lanes.len() as int;
        let h = highest_lane(preorder(d@.lanes), n, own, margin as int, c.sp);
        assert(scene_nodes(nodes@) == own);
        assert(c.sp == sp);
        assert(width == given_width(lane_widths@, n, margin as int, gap as int));
        assert(height == plus(h, plus(margin as int, margin as int)));
        assert(is_scene(
            before,
            d@,
            given_lanes(d@.lanes, lane_widths@, n, margin as int, gap as int, h),
            own,
            given_width(lane_widths@, n, margin as int, gap as int),
            plus(h, plus(margin as int, margin as int)),
            widths@,
        ));
        assert(r@ == fitted(before, margin as int));
    }
    r
}

/// Compute the scene of a diagram. `measures` holds what was measured of its
/// nodes, `widths` the width of each edge's label.
pub fn layout(
    d: &AdvanceDiagram,
    measures: &Vec<NodeMeasure>,
    widths: &Vec<Px>,
    spacing: Spacing,
) -> (r: AdvanceScene)
    requires
        placeable(d@),
        all_nodes_measured(d@, measures@, widths@),
    ensures
        is_layout(r@, d@, measures@, widths@, spacing),
        labels_placed(r@),
{
    if has_own_places(measures) {
        return layout_around(d, measures, widths, spacing);
    }
    let sp = tame(spacing);
    let sizes = measure_sizes(d, measures);
    let p = Placement { d, measures, sizes: &sizes, sp };
    let ghost c = basis(d@, measures@, spacing);
    assert(p@ =~= c);
    proof {
        lemma_global(d@);
        assert(basis_fits(c));
    }
    let r = place_by_lanes(&p, widths);
    proof {
        let st = stage(c);
        lemma_labels_placed(
            r@,
            d@,
            st.lanes,
            st.nodes,
            canvas(c).0,
            canvas(c).1,
            widths@,
            0,
        );
    }
    r
}

} // verus!
