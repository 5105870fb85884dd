//! The scenes of diagrams that were read.

use vstd::prelude::*;

use crate::advance::lane_tree::preorder;
use crate::advance::parse_laws::law_parsed_lanes_are_distinct;
use crate::advance::place::canvas::{lanes_around, reach_down, reach_right};
use crate::advance::place::containment::{
    all_roomy, before_among, calm, child_among, ends_before, lane_inside,
    law_nodes_stay_in_their_lanes, limit, node_inside,
};
use crate::advance::place::elements::{
    element_area, inside, placed_anchors, placed_node, with_element, with_elements, Area, Parts,
};
use crate::advance::place::emit::{
    inner_corner, lane_start, node_start, nodes_start, stacked, with_lane, with_lanes, with_nodes,
    Stage,
};
use crate::advance::place::fit::{
    fitted, move_down, move_right, moved, moved_element, moved_node,
};
use crate::advance::place::lanes::{Basis, Dim};
use crate::advance::place::layout::{
    all_explicit, basis, canvas, explicit_nodes, is_layout, is_scene, node_sizes, stage, top_dims,
};
use crate::advance::place::lengths::{bound, minus, plus};
use crate::advance::place::measure::{label_widths, magnitude, measures, nine, spacing_of, to_grid};
use crate::advance::place::sequence::{lemma_stack_members, stack_of};
use crate::advance::place::sizes::{
    band, element_size, highest, measure_views, size_of_node, stack_size, total_height,
    total_width, widest, MeasureView, NodeMeasure,
};
use crate::advance::place::stacking_laws::{follows, law_nodes_of_a_lane_do_not_overlap};
use crate::advance::read_json::diagram_of_text;
use crate::advance::render::scene_of;
use crate::advance::round_trip::lane_ids;
use crate::advance::route::edges::is_routed;
use crate::advance::route::geometry::FAR;
use crate::advance::scene::{Px, SceneElementView, SceneLaneView, SceneNodeView, SceneView};
use crate::advance::scene_json::scene_value;
use crate::advance::scene_laws::{
    law_scene_reads_back, lists_scene, node_readable, readable, width_readable,
};
use crate::advance::soundness::{
    edge_read, element_read, elements_read, law_read_sizes_are_not_negative, lemma_read_parts,
    node_read,
};
use crate::advance::{
    AdvanceDirection, DiagramView, ElementLayout, ElementView, LaneNodeView, LaneView,
};
use crate::json::{members_of, print_json, read_json};
use crate::num::{cut_point, cut_sign, digits_value, non_negative};
use crate::text::index_from;

verus! {

proof fn lemma_grid_sign(t: Seq<char>)
    requires
        non_negative(t),
    ensures
        0 <= to_grid(t) <= FAR,
{
    reveal_strlit("-");
    reveal_strlit("-0");
    if t == "-0"@ {
        let (neg, body) = cut_sign(t);
        assert(body =~= seq!['0']);
        reveal_with_fuel(index_from, 2);
        let (whole, frac) = cut_point(body);
        assert(whole =~= seq!['0']);
        assert(frac =~= Seq::empty());
        reveal_with_fuel(digits_value, 10);
        assert(digits_value(whole) == 0);
        assert(digits_value(nine(frac)) == 0);
        assert(magnitude(whole, frac) == 0);
    } else if t.len() > 0 {
        assert(t[0] != '-') by {
            if t[0] == '-' {
                assert(t.take(1) =~= "-"@);
            }
        }
    }
}

proof fn lemma_band(label: Seq<char>)
    ensures
        0 <= band(label) <= FAR,
{
}

proof fn lemma_element_sign(e: ElementView, m: MeasureView)
    ensures
        0 <= element_size(e, m).0 <= FAR,
        0 <= element_size(e, m).1 <= FAR,
    decreases e, 0nat,
{
    lemma_band(e.label);
    if e.elements.len() > 0 {
        lemma_stack_sign(e.elements, m.children, e.layout, e.elements.len());
    }
}

proof fn lemma_totals_sign(es: Seq<ElementView>, ms: Seq<MeasureView>, k: nat)
    ensures
        0 <= widest(es, ms, k) <= FAR,
        0 <= highest(es, ms, k) <= FAR,
        0 <= total_width(es, ms, k) <= FAR,
        0 <= total_height(es, ms, k) <= FAR,
    decreases es, k,
{
    if 0 < k <= es.len() {
        lemma_totals_sign(es, ms, (k - 1) as nat);
        lemma_element_sign(es[k - 1], ms[k - 1]);
    }
}

proof fn lemma_stack_sign(es: Seq<ElementView>, ms: Seq<MeasureView>, layout: ElementLayout, k: nat)
    requires
        k > 0,
    ensures
        0 <= stack_size(es, ms, layout, k).0 <= FAR,
        0 <= stack_size(es, ms, layout, k).1 <= FAR,
    decreases es, k + 1,
{
    lemma_totals_sign(es, ms, k);
}

proof fn lemma_node_sign(n: LaneNodeView, m: NodeMeasure)
    requires
        m.w matches Some(w) ==> 0 <= w,
        m.h matches Some(h) ==> 0 <= h,
    ensures
        0 <= size_of_node(n, m).0 <= FAR,
        0 <= size_of_node(n, m).1 <= FAR,
{
    lemma_band(n.label);
    if n.elements.len() > 0 {
        lemma_stack_sign(
            n.elements,
            measure_views(m.parts.children@),
            n.layout,
            n.elements.len(),
        );
    }
}

proof fn lemma_sizes_sign(nodes: Seq<LaneNodeView>, ms: Seq<NodeMeasure>, k: int)
    requires
        0 <= k <= nodes.len(),
        ms.len() == nodes.len(),
        forall|i: int|
            0 <= i < ms.len() ==> ((#[trigger] ms[i]).w matches Some(w) ==> 0 <= w) && (ms[i].h
                matches Some(h) ==> 0 <= h),
    ensures
        node_sizes(nodes, ms, k).len() == k,
        forall|i: int|
            0 <= i < k ==> 0 <= (#[trigger] node_sizes(nodes, ms, k)[i]).0 <= FAR && 0
                <= node_sizes(nodes, ms, k)[i].1 <= FAR,
    decreases k,
{
    if k > 0 {
        lemma_sizes_sign(nodes, ms, k - 1);
        assert(ms[k - 1].w matches Some(w) ==> 0 <= w);
        lemma_node_sign(nodes[k - 1], ms[k - 1]);
    }
}

/// No spacing and no node of a diagram that was read is negative.
pub proof fn law_read_diagram_is_calm(text: Seq<char>, d: DiagramView, ms: Seq<NodeMeasure>)
    requires
        diagram_of_text(text) == Ok::<DiagramView, Seq<char>>(d),
        d.nodes.len() <= usize::MAX,
        measures(d, ms),
    ensures
        calm(basis(d, ms, spacing_of(d.config))),
{
    law_read_sizes_are_not_negative(text, d);
    lemma_grid_sign(d.config.margin);
    lemma_grid_sign(d.config.lane_gap);
    lemma_grid_sign(d.config.node_gap_y);
    lemma_grid_sign(d.config.lane_pad_x);
    lemma_grid_sign(d.config.lane_pad_y);
    lemma_grid_sign(d.config.lane_title_h);
    assert forall|i: int| 0 <= i < ms.len() implies ((#[trigger] ms[i]).w matches Some(w) ==> 0
        <= w) && (ms[i].h matches Some(h) ==> 0 <= h) by {
        let n = d.nodes[i];
        if let Some(w) = n.w {
            lemma_grid_sign(w);
        }
        if let Some(h) = n.h {
            lemma_grid_sign(h);
        }
    }
    lemma_sizes_sign(d.nodes, ms, d.nodes.len() as int);
}

/// In the scene of a diagram that was read every node lies inside its lane
/// and every sub-lane inside the lane around it, and lanes that stand next
/// to each other are apart, in their order, as long as some node has no
/// place of its own, every lane is long enough for its nodes and the scene
/// does not reach the end of the range.
pub proof fn law_read_nodes_stay_in_their_lanes(
    text: Seq<char>,
    d: DiagramView,
    ms: Seq<NodeMeasure>,
    sc: SceneView,
)
    requires
        diagram_of_text(text) == Ok::<DiagramView, Seq<char>>(d),
        d.nodes.len() <= usize::MAX,
        measures(d, ms),
        is_layout(sc, d, ms, label_widths(d.edges), spacing_of(d.config)),
        !all_explicit(ms),
        ({
            let c = basis(d, ms, spacing_of(d.config));
            all_roomy(c, d.lanes, top_dims(c), d.lanes.len()) && sc.width < limit(c.sp) && sc.height
                < limit(c.sp)
        }),
    ensures
        forall|i: int, j: int|
            0 <= i < sc.nodes.len() && 0 <= j < sc.lanes.len() && (#[trigger] sc.nodes[i]).lane == (
            #[trigger] sc.lanes[j]).id ==> node_inside(sc.nodes[i], sc.lanes[j]),
        forall|i: int, j: int|
            0 <= i < sc.lanes.len() && 0 <= j < sc.lanes.len() && child_among(
                d.lanes,
                d.lanes.len(),
                (#[trigger] sc.lanes[i]).id,
                (#[trigger] sc.lanes[j]).id,
            ) ==> lane_inside(sc.lanes[j], sc.lanes[i]),
        forall|i: int, j: int|
            0 <= i < sc.lanes.len() && 0 <= j < sc.lanes.len() && before_among(
                d.lanes,
                d.lanes.len(),
                (#[trigger] sc.lanes[i]).id,
                (#[trigger] sc.lanes[j]).id,
            ) ==> ends_before(
                sc.lanes[i],
                sc.lanes[j],
                d.direction,
                basis(d, ms, spacing_of(d.config)).sp.lane_gap as int,
            ),
{
    law_read_diagram_is_calm(text, d, ms);
    law_parsed_lanes_are_distinct(text);
    law_nodes_stay_in_their_lanes(sc, d, ms, label_widths(d.edges), spacing_of(d.config));
}

/// In the scene of a diagram that was read the nodes of a lane do not
/// overlap, as long as some node has no place of its own: along the flow
/// each starts at least a gap behind the end of those before it in its lane.
pub proof fn law_read_nodes_do_not_overlap(
    text: Seq<char>,
    d: DiagramView,
    ms: Seq<NodeMeasure>,
    sc: SceneView,
)
    requires
        diagram_of_text(text) == Ok::<DiagramView, Seq<char>>(d),
        d.nodes.len() <= usize::MAX,
        measures(d, ms),
        is_layout(sc, d, ms, label_widths(d.edges), spacing_of(d.config)),
        !all_explicit(ms),
    ensures
        forall|i: int, j: int|
            0 <= i < j < sc.nodes.len() && (#[trigger] sc.nodes[i]).lane == (
            #[trigger] sc.nodes[j]).lane ==> follows(
                sc.nodes[i],
                sc.nodes[j],
                d.direction,
                basis(d, ms, spacing_of(d.config)).sp.node_gap_y as int,
                j == i + 1,
            ),
{
    law_read_diagram_is_calm(text, d, ms);
    law_parsed_lanes_are_distinct(text);
    law_nodes_of_a_lane_do_not_overlap(sc, d, ms, label_widths(d.edges), spacing_of(d.config));
}

/// Whether every stroke width of the sub-elements is a number in canonical
/// form.
spec fn parts_readable(es: Seq<SceneElementView>) -> bool {
    forall|i: int| 0 <= i < es.len() ==> width_readable((#[trigger] es[i]).style.stroke_width)
}

proof fn lemma_element_readable(
    e: ElementView,
    m: MeasureView,
    area: Area,
    path: Seq<Seq<char>>,
    parent: Option<usize>,
    parts: Parts,
    room: int,
)
    requires
        element_read(e, room),
        parts_readable(parts.elements),
    ensures
        parts_readable(with_element(e, m, area, path, parent, parts).elements),
    decreases e, 0nat,
{
    let x = plus(area.left, area.w / 2);
    let y = plus(area.top, area.h / 2);
    let index = parts.elements.len() as usize;
    let here = path.push(e.id);
    let own = Parts {
        elements: parts.elements.push(
            SceneElementView {
                id: e.id,
                label: e.label,
                path: here,
                parent,
                x: x as Px,
                y: y as Px,
                w: area.w as Px,
                h: area.h as Px,
                style: e.style,
            },
        ),
        anchors: parts.anchors + placed_anchors(
            e.anchors,
            m.offsets,
            e.anchors.len() as int,
            Some(index),
            x,
            y,
            area.w,
            area.h,
        ),
    };
    assert(parts_readable(own.elements));
    assert(elements_read(e.elements, room - 1));
    lemma_elements_readable(
        e.elements,
        m.children,
        e.layout,
        e.elements.len(),
        inside(area, e.label),
        here,
        Some(index),
        own,
        room - 1,
    );
}

proof fn lemma_elements_readable(
    es: Seq<ElementView>,
    ms: Seq<MeasureView>,
    layout: ElementLayout,
    k: nat,
    host: Area,
    path: Seq<Seq<char>>,
    parent: Option<usize>,
    parts: Parts,
    room: int,
)
    requires
        elements_read(es, room),
        parts_readable(parts.elements),
    ensures
        parts_readable(with_elements(es, ms, layout, k, host, path, parent, parts).elements),
    decreases es, k,
{
    if 0 < k <= es.len() {
        lemma_elements_readable(es, ms, layout, (k - 1) as nat, host, path, parent, parts, room);
        assert(element_read(es[k - 1], room));
        lemma_element_readable(
            es[k - 1],
            ms[k - 1],
            element_area(es, ms, layout, k - 1, host),
            path,
            parent,
            with_elements(es, ms, layout, (k - 1) as nat, host, path, parent, parts),
            room,
        );
    }
}

proof fn lemma_node_readable(
    n: LaneNodeView,
    lanes: Seq<Seq<char>>,
    m: NodeMeasure,
    x: int,
    y: int,
    w: int,
    h: int,
)
    requires
        node_read(n, lanes),
    ensures
        node_readable(placed_node(n, m, x, y, w, h)),
{
    let own = Parts {
        elements: Seq::empty(),
        anchors: placed_anchors(
            n.anchors,
            m.parts.offsets@,
            n.anchors.len() as int,
            None,
            x,
            y,
            w,
            h,
        ),
    };
    let area = Area { left: minus(x, w / 2), top: minus(y, h / 2), w, h };
    lemma_elements_readable(
        n.elements,
        measure_views(m.parts.children@),
        n.layout,
        n.elements.len(),
        inside(area, n.label),
        Seq::empty(),
        None,
        own,
        16,
    );
}

spec fn nodes_readable(nodes: Seq<SceneNodeView>) -> bool {
    forall|i: int| 0 <= i < nodes.len() ==> node_readable(#[trigger] nodes[i])
}

/// Whether every node of a diagram is as it is read.
spec fn all_read(d: DiagramView) -> bool {
    &&& d.nodes.len() <= usize::MAX
    &&& forall|i: int|
        0 <= i < d.nodes.len() ==> node_read(#[trigger] d.nodes[i], lane_ids(d.lanes))
}

proof fn lemma_nodes_readable(
    c: Basis,
    list: Seq<usize>,
    k: int,
    start: int,
    centre: int,
    nodes: Seq<SceneNodeView>,
)
    requires
        all_read(c.d),
        nodes_readable(nodes),
        k <= list.len(),
        forall|i: int| 0 <= i < list.len() ==> (#[trigger] list[i]) < c.d.nodes.len(),
    ensures
        nodes_readable(with_nodes(c, list, k, start, centre, nodes)),
    decreases k,
{
    if k > 0 {
        lemma_nodes_readable(c, list, k - 1, start, centre, nodes);
        let i = list[k - 1] as int;
        let w = c.sizes[i].0 as int;
        let h = c.sizes[i].1 as int;
        let at = node_start(c, list, k - 1, start);
        let (x, y) = match c.d.direction {
            AdvanceDirection::Vertical => (centre, plus(at, h / 2)),
            AdvanceDirection::Horizontal => (plus(at, w / 2), centre),
        };
        assert(node_read(c.d.nodes[i], lane_ids(c.d.lanes)));
        lemma_node_readable(c.d.nodes[i], lane_ids(c.d.lanes), c.measures[i], x, y, w, h);
    }
}

proof fn lemma_lane_readable(c: Basis, lane: LaneView, m: Dim, x: int, y: int, st: Stage)
    requires
        all_read(c.d),
        nodes_readable(st.nodes),
    ensures
        nodes_readable(with_lane(c, lane, m, x, y, st).nodes),
    decreases lane, 0nat,
{
    let own = Stage {
        lanes: st.lanes.push(
            SceneLaneView {
                id: lane.id,
                title: lane.title,
                x: x as Px,
                y: y as Px,
                w: m.w as Px,
                h: m.h as Px,
            },
        ),
        nodes: st.nodes,
    };
    let (cx, cy) = inner_corner(c, x, y);
    lemma_lanes_readable(c, lane.children, m.children, lane.children.len(), cx, cy, own);
    let inner = with_lanes(c, lane.children, m.children, lane.children.len(), cx, cy, own);
    let list = stacked(c, lane.id);
    lemma_stack_members(c.d, lane.id);
    assert(list == stack_of(c.d, lane.id));
    let centre = match c.d.direction {
        AdvanceDirection::Vertical => plus(x, m.w / 2),
        AdvanceDirection::Horizontal => plus(y, m.h / 2),
    };
    lemma_nodes_readable(
        c,
        list,
        list.len() as int,
        nodes_start(c, m.children, x, y),
        centre,
        inner.nodes,
    );
}

proof fn lemma_lanes_readable(
    c: Basis,
    lanes: Seq<LaneView>,
    ms: Seq<Dim>,
    k: nat,
    x: int,
    y: int,
    st: Stage,
)
    requires
        all_read(c.d),
        nodes_readable(st.nodes),
    ensures
        nodes_readable(with_lanes(c, lanes, ms, k, x, y, st).nodes),
    decreases lanes, k,
{
    if 0 < k <= lanes.len() {
        lemma_lanes_readable(c, lanes, ms, (k - 1) as nat, x, y, st);
        let before = with_lanes(c, lanes, ms, (k - 1) as nat, x, y, st);
        match c.d.direction {
            AdvanceDirection::Vertical => {
                lemma_lane_readable(
                    c,
                    lanes[k - 1],
                    ms[k - 1],
                    lane_start(c, ms, k - 1, x),
                    y,
                    before,
                );
            },
            AdvanceDirection::Horizontal => {
                lemma_lane_readable(
                    c,
                    lanes[k - 1],
                    ms[k - 1],
                    x,
                    lane_start(c, ms, k - 1, y),
                    before,
                );
            },
        }
    }
}

proof fn lemma_own_readable(c: Basis, k: int)
    requires
        all_read(c.d),
        k <= c.d.nodes.len(),
    ensures
        nodes_readable(explicit_nodes(c, k)),
    decreases k,
{
    if k > 0 {
        lemma_own_readable(c, k - 1);
        assert(node_read(c.d.nodes[k - 1], lane_ids(c.d.lanes)));
        lemma_node_readable(
            c.d.nodes[k - 1],
            lane_ids(c.d.lanes),
            c.measures[k - 1],
            bound(c.measures[k - 1].x->Some_0 as int),
            bound(c.measures[k - 1].y->Some_0 as int),
            c.sizes[k - 1].0 as int,
            c.sizes[k - 1].1 as int,
        );
    }
}

proof fn lemma_moved_readable(sc: SceneView, dx: int, dy: int)
    requires
        readable(sc),
    ensures
        readable(moved(sc, dx, dy)),
{
    let r = moved(sc, dx, dy);
    assert forall|i: int| 0 <= i < r.nodes.len() implies node_readable(#[trigger] r.nodes[i]) by {
        let n = sc.nodes[i];
        assert(node_readable(n));
        assert(r.nodes[i] == moved_node(n, dx, dy));
        assert forall|j: int| 0 <= j < r.nodes[i].elements.len() implies width_readable(
            (#[trigger] r.nodes[i].elements[j]).style.stroke_width,
        ) by {
            assert(r.nodes[i].elements[j] == moved_element(n.elements[j], dx, dy));
            assert(width_readable(n.elements[j].style.stroke_width));
        }
    }
    assert forall|i: int| 0 <= i < r.edges.len() implies width_readable(
        (#[trigger] r.edges[i]).style.stroke_width,
    ) by {
        assert(r.edges[i].style == sc.edges[i].style);
    }
}

proof fn lemma_scene_readable(
    sc: SceneView,
    d: DiagramView,
    lanes: Seq<SceneLaneView>,
    nodes: Seq<SceneNodeView>,
    width: int,
    height: int,
    widths: Seq<Px>,
)
    requires
        is_scene(sc, d, lanes, nodes, width, height, widths),
        nodes_readable(nodes),
        forall|i: int| 0 <= i < d.edges.len() ==> edge_read(#[trigger] d.edges[i], d.nodes),
    ensures
        readable(sc),
{
    assert forall|i: int| 0 <= i < sc.edges.len() implies width_readable(
        (#[trigger] sc.edges[i]).style.stroke_width,
    ) by {
        assert(is_routed(sc.edges[i], d, nodes, widths, i, d.direction));
        assert(edge_read(d.edges[i], d.nodes));
    }
}

/// Every stroke width in the scene of a diagram that was read is a number in
/// canonical form.
pub proof fn lemma_placed_readable(text: Seq<char>, d: DiagramView, sc: SceneView)
    requires
        diagram_of_text(text) == Ok::<DiagramView, Seq<char>>(d),
        d.nodes.len() <= usize::MAX,
        scene_of(sc, d),
    ensures
        readable(sc),
        sc.edges.len() == d.edges.len(),
{
    lemma_read_parts(text, d);
    let sp = spacing_of(d.config);
    let widths = label_widths(d.edges);
    let ms = choose|ms: Seq<NodeMeasure>| #[trigger]
        measures(d, ms) && is_layout(sc, d, ms, widths, sp);
    let c = basis(d, ms, sp);
    if all_explicit(ms) {
        let nodes = explicit_nodes(c, d.nodes.len() as int);
        let flat = preorder(d.lanes);
        let lanes = lanes_around(flat, flat.len() as int, nodes, c.sp);
        let w = plus(reach_right(lanes, lanes.len() as int), c.sp.margin as int);
        let h = plus(reach_down(lanes, lanes.len() as int), c.sp.margin as int);
        let raw = choose|raw: SceneView|
            #[trigger] is_scene(raw, d, lanes, nodes, w, h, widths) && sc == fitted(
                raw,
                c.sp.margin as int,
            );
        lemma_own_readable(c, d.nodes.len() as int);
        lemma_scene_readable(raw, d, lanes, nodes, w, h, widths);
        lemma_moved_readable(
            raw,
            move_right(raw, c.sp.margin as int),
            move_down(raw, c.sp.margin as int),
        );
    } else {
        let margin = c.sp.margin as int;
        let none = Stage { lanes: Seq::empty(), nodes: Seq::empty() };
        lemma_lanes_readable(c, d.lanes, top_dims(c), d.lanes.len(), margin, margin, none);
        let st = stage(c);
        lemma_scene_readable(sc, d, st.lanes, st.nodes, canvas(c).0, canvas(c).1, widths);
    }
}

/// The JSON text of the scene of a diagram that was read can be read, and
/// lists the lanes, nodes and edges of the scene in their order.
pub proof fn law_placed_scene_reads_back(text: Seq<char>, d: DiagramView, sc: SceneView)
    requires
        diagram_of_text(text) == Ok::<DiagramView, Seq<char>>(d),
        d.nodes.len() <= usize::MAX,
        scene_of(sc, d),
    ensures
        read_json(print_json(scene_value(sc))) is Ok,
        members_of(read_json(print_json(scene_value(sc)))->Ok_0) is Some,
        lists_scene(members_of(read_json(print_json(scene_value(sc)))->Ok_0)->Some_0, sc),
{
    lemma_placed_readable(text, d, sc);
    law_scene_reads_back(sc);
}

} // verus!
