//! What is written for a placed diagram can be read.

use vstd::prelude::*;

use crate::advance::read_json::{items_member, text_member, Members};
use crate::advance::round_trip::{
    all_writable, group_members, group_writable, lemma_member_settled, lemma_size_written,
    lemma_writable_object,
};
use crate::advance::scene::{
    in_tenths, shown, Point, Px, SceneAnchorView, SceneEdgeView, SceneElementView, SceneLaneView,
    SceneNodeView, SceneView,
};
use crate::advance::scene_json::{
    anchor_members, anchor_values, box_members, edge_members, edge_values, element_members,
    element_values, index_value, lane_members, lane_values, name_values, node_members, node_values,
    point_value, point_values, px_value, scene_members, scene_value, terminal_value,
};
use crate::advance::write_json::{
    edge_style_members, edge_style_value, node_style_members, node_style_value,
};
use crate::advance::EdgeStyleView;
use crate::json::{member, members_of, print_json, read_json, Json};
use crate::json_laws::{law_json_reads_back, number_text, settled_items, settled_members, writable};
use crate::model::NodeStyleView;
use crate::num::sign_text;
use crate::num_laws::{lemma_digits_read, measure};
use crate::text::{all_digits, decimal, digit_char, is_digit};

verus! {

/// Whether a stroke width, where there is one, is a number in canonical
/// form.
pub open spec fn width_readable(n: Option<Seq<char>>) -> bool {
    n matches Some(x) ==> measure(x)
}

/// Whether all stroke widths of a scene are numbers in canonical form.
pub open spec fn readable(sc: SceneView) -> bool {
    &&& forall|i: int| 0 <= i < sc.nodes.len() ==> node_readable(#[trigger] sc.nodes[i])
    &&& forall|i: int|
        0 <= i < sc.edges.len() ==> width_readable((#[trigger] sc.edges[i]).style.stroke_width)
}

pub open spec fn node_readable(n: SceneNodeView) -> bool {
    &&& width_readable(n.style.stroke_width)
    &&& forall|i: int|
        0 <= i < n.elements.len() ==> width_readable((#[trigger] n.elements[i]).style.stroke_width)
}

proof fn lemma_decimal(n: nat)
    ensures
        all_digits(decimal(n)),
        decimal(n).len() > 0,
    decreases n,
{
    if n >= 10 {
        lemma_decimal(n / 10);
    }
}

pub proof fn lemma_shown(q: int)
    ensures
        number_text(shown(q)),
{
    reveal_strlit("");
    let t = in_tenths(
        (if q < 0 {
            -q
        } else {
            q
        }) as nat,
    );
    let whole = decimal(t / 10);
    let tenth = digit_char((t % 10) as int);
    lemma_decimal(t / 10);
    assert(is_digit(tenth));
    lemma_digits_read(q < 0, whole, tenth);
    assert((if q < 0 {
        "-"@
    } else {
        ""@
    }) =~= sign_text(q < 0));
    assert(shown(q) =~= sign_text(q < 0) + whole + "."@ + seq![tenth]);
}

proof fn lemma_px(x: Px)
    ensures
        writable(px_value(x)),
{
    lemma_shown(4 * x);
}

proof fn lemma_point(p: Point)
    ensures
        writable(point_value(p)),
{
    lemma_px(p.x);
    lemma_px(p.y);
    let a = seq![px_value(p.x), px_value(p.y)];
    assert forall|i: int| 0 <= i < a.len() implies writable(#[trigger] a[i]) by {}
}

proof fn lemma_points(s: Seq<Point>)
    ensures
        writable(Json::Array(point_values(s))),
{
    let a = point_values(s);
    assert forall|i: int| 0 <= i < a.len() implies writable(#[trigger] a[i]) by {
        lemma_point(s[i]);
    }
}

proof fn lemma_index(i: Option<usize>)
    ensures
        writable(index_value(i)),
{
    if let Some(n) = i {
        lemma_decimal(n as nat);
        lemma_digits_read(false, decimal(n as nat), '0');
    }
}

proof fn lemma_box(x: Px, y: Px, w: Px, h: Px)
    ensures
        all_writable(box_members(x, y, w, h)),
{
    broadcast use group_writable;

    lemma_px(x);
    lemma_px(y);
    lemma_px(w);
    lemma_px(h);
}

proof fn lemma_node_style(s: NodeStyleView)
    requires
        width_readable(s.stroke_width),
    ensures
        node_style_value(s) matches Some(v) ==> writable(v),
{
    broadcast use group_writable;

    lemma_size_written(s.stroke_width);
    lemma_writable_object(node_style_members(s));
}

proof fn lemma_edge_style(s: EdgeStyleView)
    requires
        width_readable(s.stroke_width),
    ensures
        edge_style_value(s) matches Some(v) ==> writable(v),
{
    broadcast use group_writable;

    lemma_size_written(s.stroke_width);
    lemma_writable_object(edge_style_members(s));
}

proof fn lemma_lane(l: SceneLaneView)
    ensures
        writable(Json::Object(lane_members(l))),
{
    broadcast use group_writable;

    lemma_box(l.x, l.y, l.w, l.h);
    lemma_writable_object(lane_members(l));
}

proof fn lemma_element(e: SceneElementView)
    requires
        width_readable(e.style.stroke_width),
    ensures
        writable(Json::Object(element_members(e))),
{
    broadcast use group_writable;

    let names = name_values(e.path);
    assert forall|i: int| 0 <= i < names.len() implies writable(#[trigger] names[i]) by {}
    lemma_index(e.parent);
    lemma_box(e.x, e.y, e.w, e.h);
    lemma_node_style(e.style);
    lemma_writable_object(element_members(e));
}

proof fn lemma_anchor(a: SceneAnchorView)
    ensures
        writable(Json::Object(anchor_members(a))),
{
    broadcast use group_writable;

    lemma_index(a.element);
    lemma_px(a.x);
    lemma_px(a.y);
    lemma_writable_object(anchor_members(a));
}

proof fn lemma_node(n: SceneNodeView)
    requires
        node_readable(n),
    ensures
        writable(Json::Object(node_members(n))),
{
    broadcast use group_writable;

    let es = element_values(n.elements);
    assert forall|i: int| 0 <= i < es.len() implies writable(#[trigger] es[i]) by {
        lemma_element(n.elements[i]);
    }
    let anchors = anchor_values(n.anchors);
    assert forall|i: int| 0 <= i < anchors.len() implies writable(#[trigger] anchors[i]) by {
        lemma_anchor(n.anchors[i]);
    }
    assert(writable(Json::Array(es)) && writable(Json::Array(anchors)));
    lemma_box(n.x, n.y, n.w, n.h);
    lemma_node_style(n.style);
    lemma_writable_object(node_members(n));
}

proof fn lemma_edge(e: SceneEdgeView)
    requires
        width_readable(e.style.stroke_width),
    ensures
        writable(Json::Object(edge_members(e))),
{
    broadcast use group_writable;

    lemma_points(e.points);
    lemma_edge_style(e.style);
    if let Some(p) = e.label_pos {
        lemma_point(p);
    }
    lemma_point(e.from_point);
    lemma_point(e.to_point);
    lemma_writable_object(edge_members(e));
}

proof fn lemma_scene(sc: SceneView)
    requires
        readable(sc),
    ensures
        writable(scene_value(sc)),
{
    broadcast use group_writable;

    let lanes = lane_values(sc.lanes);
    assert forall|i: int| 0 <= i < lanes.len() implies writable(#[trigger] lanes[i]) by {
        lemma_lane(sc.lanes[i]);
    }
    let nodes = node_values(sc.nodes);
    assert forall|i: int| 0 <= i < nodes.len() implies writable(#[trigger] nodes[i]) by {
        lemma_node(sc.nodes[i]);
    }
    let edges = edge_values(sc.edges);
    assert forall|i: int| 0 <= i < edges.len() implies writable(#[trigger] edges[i]) by {
        lemma_edge(sc.edges[i]);
    }
    assert(writable(Json::Array(lanes)) && writable(Json::Array(nodes)) && writable(
        Json::Array(edges),
    ));
    lemma_px(sc.width);
    lemma_px(sc.height);
    lemma_writable_object(scene_members(sc));
}

proof fn lemma_scene_lookup(sc: SceneView)
    ensures
        ({
            let m = scene_members(sc);
            &&& member(m, "lanes"@) == Some(Json::Array(lane_values(sc.lanes)))
            &&& member(m, "nodes"@) == Some(Json::Array(node_values(sc.nodes)))
            &&& member(m, "edges"@) == Some(Json::Array(edge_values(sc.edges)))
        }),
{
    broadcast use group_members;

    reveal_strlit("width");
    reveal_strlit("height");
    reveal_strlit("title");
    reveal_strlit("description");
    reveal_strlit("direction");
    reveal_strlit("lanes");
    reveal_strlit("nodes");
    reveal_strlit("edges");
    assert("width"@.len() == 5 && "height"@.len() == 6 && "title"@.len() == 5
        && "description"@.len() == 11 && "direction"@.len() == 9 && "lanes"@.len() == 5
        && "nodes"@.len() == 5 && "edges"@.len() == 5);
    assert("width"@[0] == 'w' && "title"@[0] == 't' && "lanes"@[0] == 'l' && "nodes"@[0] == 'n'
        && "edges"@[0] == 'e');
}

proof fn lemma_lane_lookup(l: SceneLaneView)
    ensures
        member(lane_members(l), "id"@) == Some(Json::Text(l.id)),
{
    broadcast use group_members;

}

proof fn lemma_node_lookup(n: SceneNodeView)
    ensures
        member(node_members(n), "id"@) == Some(Json::Text(n.id)),
{
    broadcast use group_members;

}

proof fn lemma_edge_lookup(e: SceneEdgeView)
    ensures
        ({
            let m = edge_members(e);
            &&& member(m, "from"@) == Some(Json::Text(e.from))
            &&& member(m, "to"@) == Some(Json::Text(e.to))
            &&& member(m, "from_end"@) == terminal_value(e.from_end)
            &&& member(m, "to_end"@) == terminal_value(e.to_end)
        }),
{
    broadcast use group_members;

    reveal_strlit("from");
    reveal_strlit("to");
    reveal_strlit("kind");
    reveal_strlit("label");
    reveal_strlit("points");
    reveal_strlit("style");
    reveal_strlit("from_side");
    reveal_strlit("to_side");
    reveal_strlit("label_pos");
    reveal_strlit("from_point");
    reveal_strlit("to_point");
    reveal_strlit("from_end");
    reveal_strlit("to_end");
    assert("from"@.len() == 4 && "to"@.len() == 2 && "kind"@.len() == 4 && "label"@.len() == 5
        && "points"@.len() == 6 && "style"@.len() == 5 && "from_side"@.len() == 9
        && "to_side"@.len() == 7 && "label_pos"@.len() == 9 && "from_point"@.len() == 10
        && "to_point"@.len() == 8 && "from_end"@.len() == 8 && "to_end"@.len() == 6);
    assert("from_end"@[0] == 'f' && "to_point"@[0] == 't' && "to_end"@[0] == 't' && "points"@[0]
        == 'p');
}

/// Whether item `k` of a list is an object with the id of lane or node `k`.
pub open spec fn has_id(items: Seq<Json>, k: int, id: Seq<char>) -> bool {
    members_of(items[k]) matches Some(o) && text_member(o, "id"@) == Some(id)
}

/// Whether item `k` of a list is an object with the ends of an edge: its two
/// nodes, and a reference for each end that is finer than a node side.
pub open spec fn has_ends(items: Seq<Json>, k: int, e: SceneEdgeView) -> bool {
    members_of(items[k]) matches Some(o) && text_member(o, "from"@) == Some(e.from) && text_member(
        o,
        "to"@,
    ) == Some(e.to) && member(o, "from_end"@) == terminal_value(e.from_end) && member(
        o,
        "to_end"@,
    ) == terminal_value(e.to_end)
}

/// Whether the members of an object list the lanes, nodes and edges of a
/// scene.
pub open spec fn lists_scene(o: Members, sc: SceneView) -> bool {
    &&& items_member(o, "lanes"@) matches Some(a) && a.len() == sc.lanes.len() && forall|k: int|
        0 <= k < a.len() ==> has_id(a, k, (#[trigger] sc.lanes[k]).id)
    &&& items_member(o, "nodes"@) matches Some(a) && a.len() == sc.nodes.len() && forall|k: int|
        0 <= k < a.len() ==> has_id(a, k, (#[trigger] sc.nodes[k]).id)
    &&& items_member(o, "edges"@) matches Some(a) && a.len() == sc.edges.len() && forall|k: int|
        0 <= k < a.len() ==> has_ends(a, k, #[trigger] sc.edges[k])
}

/// The JSON text of a scene can be read, and lists the lanes, nodes and edges
/// of the scene in their order.
pub proof fn law_scene_reads_back(sc: SceneView)
    requires
        readable(sc),
    ensures
        read_json(print_json(scene_value(sc))) is Ok,
        members_of(read_json(print_json(scene_value(sc)))->Ok_0) is Some,
        lists_scene(members_of(read_json(print_json(scene_value(sc)))->Ok_0)->Some_0, sc),
{
    lemma_scene(sc);
    law_json_reads_back(scene_value(sc));
    let m = scene_members(sc);
    let o = settled_members(m);
    assert(read_json(print_json(scene_value(sc))) == Ok::<Json, Seq<char>>(Json::Object(o)));
    lemma_scene_lookup(sc);
    lemma_member_settled(m, "lanes"@);
    lemma_member_settled(m, "nodes"@);
    lemma_member_settled(m, "edges"@);
    let la = settled_items(lane_values(sc.lanes));
    let na = settled_items(node_values(sc.nodes));
    let ea = settled_items(edge_values(sc.edges));
    assert(items_member(o, "lanes"@) == Some(la));
    assert(items_member(o, "nodes"@) == Some(na));
    assert(items_member(o, "edges"@) == Some(ea));
    assert forall|k: int| 0 <= k < la.len() implies has_id(la, k, (#[trigger] sc.lanes[k]).id) by {
        let l = lane_members(sc.lanes[k]);
        assert(la[k] == Json::Object(settled_members(l)));
        lemma_lane_lookup(sc.lanes[k]);
        lemma_member_settled(l, "id"@);
    }
    assert forall|k: int| 0 <= k < na.len() implies has_id(na, k, (#[trigger] sc.nodes[k]).id) by {
        let n = node_members(sc.nodes[k]);
        assert(na[k] == Json::Object(settled_members(n)));
        lemma_node_lookup(sc.nodes[k]);
        lemma_member_settled(n, "id"@);
    }
    assert forall|k: int| 0 <= k < ea.len() implies has_ends(ea, k, #[trigger] sc.edges[k]) by {
        let e = sc.edges[k];
        let q = edge_members(e);
        assert(ea[k] == Json::Object(settled_members(q)));
        lemma_edge_lookup(e);
        lemma_member_settled(q, "from"@);
        lemma_member_settled(q, "to"@);
        lemma_member_settled(q, "from_end"@);
        lemma_member_settled(q, "to_end"@);
    }
}

} // verus!
