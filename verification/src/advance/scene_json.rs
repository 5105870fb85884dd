//! Writing a placed diagram as JSON.

use vstd::prelude::*;

use crate::advance::ends::{end_ref, terminal};
use crate::advance::names::{edge_kind_name, edge_kind_text, shape_name, shape_text};
use crate::advance::read_json::Members;
use crate::advance::scene::{
    scene_anchors, scene_edges, scene_elements, scene_lanes, scene_nodes, show, shown,
    AdvanceScene, AdvanceSceneAnchor, AdvanceSceneEdge, AdvanceSceneElement, AdvanceSceneLane,
    AdvanceSceneNode, Point, Px, SceneAnchorView, SceneEdgeView, SceneElementView, SceneLaneView,
    SceneNodeView, SceneView,
};
use crate::advance::write_json::{
    direction_value, edge_style_value, list_value, maybe, node_style_value, one, push_json, put,
    put_edge_style, put_list, put_node_style, put_opt_text, put_text, side_value, text_value, Object,
};
use crate::advance::{side_name, AdvanceDirection, AdvanceEnd, AdvanceSide, EndView};
use crate::json::{array_view, object_view, print_json, Json, JsonValue};
use crate::num::Num;
use crate::text::{decimal, decimal_string, strings};

verus! {

/// A length in pixels with one decimal.
pub open spec fn px_value(x: Px) -> Json {
    Json::Number(shown(4 * x))
}

fn px_json(x: Px) -> (r: JsonValue)
    ensures
        r@ == px_value(x),
{
    JsonValue::Number(Num { text: show(4 * (x as i128)) })
}

pub open spec fn point_value(p: Point) -> Json {
    Json::Array(seq![px_value(p.x), px_value(p.y)])
}

fn point_json(p: Point) -> (r: JsonValue)
    ensures
        r@ == point_value(p),
{
    let mut a: Vec<JsonValue> = Vec::new();
    a.push(px_json(p.x));
    a.push(px_json(p.y));
    assert(array_view(a@) =~= seq![px_value(p.x), px_value(p.y)]);
    JsonValue::Array(a)
}

/// An index, or null.
pub open spec fn index_value(i: Option<usize>) -> Json {
    match i {
        Some(n) => Json::Number(decimal(n as nat)),
        None => Json::Null,
    }
}

fn index_json(i: Option<usize>) -> (r: JsonValue)
    ensures
        r@ == index_value(i),
{
    match i {
        Some(n) => JsonValue::Number(Num { text: decimal_string(n) }),
        None => JsonValue::Null,
    }
}

fn put_px(out: &mut Object, key: &str, x: Px)
    ensures
        object_view(final(out)@) == object_view(old(out)@) + one(key@, px_value(x)),
{
    put(out, key, px_json(x));
}

pub open spec fn box_members(x: Px, y: Px, w: Px, h: Px) -> Members {
    one("x"@, px_value(x)) + one("y"@, px_value(y)) + one("w"@, px_value(w)) + one(
        "h"@,
        px_value(h),
    )
}

fn put_box(out: &mut Object, x: Px, y: Px, w: Px, h: Px)
    ensures
        object_view(final(out)@) == object_view(old(out)@) + box_members(x, y, w, h),
{
    put_px(out, "x", x);
    put_px(out, "y", y);
    put_px(out, "w", w);
    put_px(out, "h", h);
    assert(object_view(out@) =~= object_view(old(out)@) + box_members(x, y, w, h));
}

pub open spec fn lane_members(l: SceneLaneView) -> Members {
    one("id"@, Json::Text(l.id)) + one("title"@, Json::Text(l.title)) + box_members(
        l.x,
        l.y,
        l.w,
        l.h,
    )
}

fn lane_json(l: &AdvanceSceneLane) -> (r: JsonValue)
    ensures
        r@ == Json::Object(lane_members(l@)),
{
    let mut m: Object = Vec::new();
    put_text(&mut m, "id", l.id.as_str());
    put_text(&mut m, "title", l.title.as_str());
    put_box(&mut m, l.x, l.y, l.w, l.h);
    assert(object_view(m@) =~= lane_members(l@));
    JsonValue::Object(m)
}

/// Names as an array of strings.
pub open spec fn name_values(s: Seq<Seq<char>>) -> Seq<Json> {
    s.map_values(|n: Seq<char>| Json::Text(n))
}

fn names_json(s: &Vec<String>) -> (r: JsonValue)
    ensures
        r@ == Json::Array(name_values(strings(s@))),
{
    let ghost want = name_values(strings(s@));
    let mut a: Vec<JsonValue> = Vec::new();
    let mut i: usize = 0;
    assert(array_view(a@) =~= want.take(0));
    while i < s.len()
        invariant
            i <= s@.len(),
            want == name_values(strings(s@)),
            array_view(a@) == want.take(i as int),
        decreases s@.len() - i,
    {
        let ghost before = a@;
        a.push(JsonValue::Text(s[i].clone()));
        assert(array_view(a@) =~= array_view(before).push(want[i as int]));
        assert(want.take(i as int + 1) =~= want.take(i as int).push(want[i as int]));
        i += 1;
    }
    assert(want.take(want.len() as int) =~= want);
    JsonValue::Array(a)
}

pub open spec fn element_members(e: SceneElementView) -> Members {
    one("id"@, Json::Text(e.id)) + one("label"@, Json::Text(e.label)) + one(
        "path"@,
        Json::Array(name_values(e.path)),
    ) + one("parent"@, index_value(e.parent)) + box_members(e.x, e.y, e.w, e.h) + maybe(
        "style"@,
        node_style_value(e.style),
    )
}

fn element_json(e: &AdvanceSceneElement) -> (r: JsonValue)
    ensures
        r@ == Json::Object(element_members(e@)),
{
    let mut m: Object = Vec::new();
    put_text(&mut m, "id", e.id.as_str());
    put_text(&mut m, "label", e.label.as_str());
    put(&mut m, "path", names_json(&e.path));
    put(&mut m, "parent", index_json(e.parent));
    put_box(&mut m, e.x, e.y, e.w, e.h);
    put_node_style(&mut m, &e.style);
    assert(object_view(m@) =~= element_members(e@));
    JsonValue::Object(m)
}

pub open spec fn element_values(s: Seq<SceneElementView>) -> Seq<Json> {
    s.map_values(|e: SceneElementView| Json::Object(element_members(e)))
}

fn elements_json(s: &Vec<AdvanceSceneElement>) -> (r: Vec<JsonValue>)
    ensures
        array_view(r@) == element_values(scene_elements(s@)),
{
    let ghost want = element_values(scene_elements(s@));
    let mut a: Vec<JsonValue> = Vec::new();
    let mut i: usize = 0;
    assert(array_view(a@) =~= want.take(0));
    while i < s.len()
        invariant
            i <= s@.len(),
            want == element_values(scene_elements(s@)),
            array_view(a@) == want.take(i as int),
        decreases s@.len() - i,
    {
        let ghost before = a@;
        a.push(element_json(&s[i]));
        assert(array_view(a@) =~= array_view(before).push(want[i as int]));
        assert(want.take(i as int + 1) =~= want.take(i as int).push(want[i as int]));
        i += 1;
    }
    assert(want.take(want.len() as int) =~= want);
    a
}

pub open spec fn anchor_members(a: SceneAnchorView) -> Members {
    one("id"@, Json::Text(a.id)) + one("side"@, Json::Text(side_name(a.side))) + one(
        "element"@,
        index_value(a.element),
    ) + one("x"@, px_value(a.x)) + one("y"@, px_value(a.y))
}

fn anchor_json(a: &AdvanceSceneAnchor) -> (r: JsonValue)
    ensures
        r@ == Json::Object(anchor_members(a@)),
{
    let mut m: Object = Vec::new();
    put_text(&mut m, "id", a.id.as_str());
    put_text(&mut m, "side", a.side.name());
    put(&mut m, "element", index_json(a.element));
    put_px(&mut m, "x", a.x);
    put_px(&mut m, "y", a.y);
    assert(object_view(m@) =~= anchor_members(a@));
    JsonValue::Object(m)
}

pub open spec fn anchor_values(s: Seq<SceneAnchorView>) -> Seq<Json> {
    s.map_values(|a: SceneAnchorView| Json::Object(anchor_members(a)))
}

fn anchors_json(s: &Vec<AdvanceSceneAnchor>) -> (r: Vec<JsonValue>)
    ensures
        array_view(r@) == anchor_values(scene_anchors(s@)),
{
    let ghost want = anchor_values(scene_anchors(s@));
    let mut a: Vec<JsonValue> = Vec::new();
    let mut i: usize = 0;
    assert(array_view(a@) =~= want.take(0));
    while i < s.len()
        invariant
            i <= s@.len(),
            want == anchor_values(scene_anchors(s@)),
            array_view(a@) == want.take(i as int),
        decreases s@.len() - i,
    {
        let ghost before = a@;
        a.push(anchor_json(&s[i]));
        assert(array_view(a@) =~= array_view(before).push(want[i as int]));
        assert(want.take(i as int + 1) =~= want.take(i as int).push(want[i as int]));
        i += 1;
    }
    assert(want.take(want.len() as int) =~= want);
    a
}

pub open spec fn node_members(n: SceneNodeView) -> Members {
    one("id"@, Json::Text(n.id)) + one("label"@, Json::Text(n.label)) + one(
        "lane"@,
        Json::Text(n.lane),
    ) + box_members(n.x, n.y, n.w, n.h) + one("shape"@, Json::Text(shape_text(n.shape))) + maybe(
        "style"@,
        node_style_value(n.style),
    ) + maybe("elements"@, list_value(element_values(n.elements))) + maybe(
        "anchors"@,
        list_value(anchor_values(n.anchors)),
    )
}

fn node_json(n: &AdvanceSceneNode) -> (r: JsonValue)
    ensures
        r@ == Json::Object(node_members(n@)),
{
    let mut m: Object = Vec::new();
    put_text(&mut m, "id", n.id.as_str());
    put_text(&mut m, "label", n.label.as_str());
    put_text(&mut m, "lane", n.lane.as_str());
    put_box(&mut m, n.x, n.y, n.w, n.h);
    put_text(&mut m, "shape", shape_name(n.shape));
    put_node_style(&mut m, &n.style);
    put_list(&mut m, "elements", elements_json(&n.elements));
    put_list(&mut m, "anchors", anchors_json(&n.anchors));
    assert(object_view(m@) =~= node_members(n@));
    JsonValue::Object(m)
}

pub open spec fn point_values(s: Seq<Point>) -> Seq<Json> {
    s.map_values(|p: Point| point_value(p))
}

fn points_json(s: &Vec<Point>) -> (r: JsonValue)
    ensures
        r@ == Json::Array(point_values(s@)),
{
    let ghost want = point_values(s@);
    let mut a: Vec<JsonValue> = Vec::new();
    let mut i: usize = 0;
    assert(array_view(a@) =~= want.take(0));
    while i < s.len()
        invariant
            i <= s@.len(),
            want == point_values(s@),
            array_view(a@) == want.take(i as int),
        decreases s@.len() - i,
    {
        let ghost before = a@;
        a.push(point_json(s[i]));
        assert(array_view(a@) =~= array_view(before).push(want[i as int]));
        assert(want.take(i as int + 1) =~= want.take(i as int).push(want[i as int]));
        i += 1;
    }
    assert(want.take(want.len() as int) =~= want);
    JsonValue::Array(a)
}

pub open spec fn place_value(p: Option<Point>) -> Option<Json> {
    match p {
        Some(p) => Some(point_value(p)),
        None => None,
    }
}

/// A reference finer than a node side.
pub open spec fn terminal_value(e: EndView) -> Option<Json> {
    if terminal(e) {
        Some(Json::Text(end_ref(e)))
    } else {
        None
    }
}

fn put_side(out: &mut Object, key: &str, side: Option<AdvanceSide>)
    ensures
        object_view(final(out)@) == object_view(old(out)@) + maybe(key@, side_value(side)),
{
    match side {
        Some(s) => put_text(out, key, s.name()),
        None => {
            assert(object_view(out@) =~= object_view(out@) + maybe(key@, None));
        },
    }
}

fn put_place(out: &mut Object, key: &str, p: Option<Point>)
    ensures
        object_view(final(out)@) == object_view(old(out)@) + maybe(key@, place_value(p)),
{
    match p {
        Some(p) => put(out, key, point_json(p)),
        None => {
            assert(object_view(out@) =~= object_view(out@) + maybe(key@, None));
        },
    }
}

fn put_terminal(out: &mut Object, key: &str, e: &AdvanceEnd)
    ensures
        object_view(final(out)@) == object_view(old(out)@) + maybe(key@, terminal_value(e@)),
{
    if e.is_terminal() {
        put_text(out, key, e.to_ref().as_str());
    } else {
        assert(object_view(out@) =~= object_view(out@) + maybe(key@, None));
    }
}

pub open spec fn edge_members(e: SceneEdgeView) -> Members {
    one("from"@, Json::Text(e.from)) + one("to"@, Json::Text(e.to)) + one(
        "kind"@,
        Json::Text(edge_kind_text(e.kind)),
    ) + maybe("label"@, text_value(e.label)) + one("points"@, Json::Array(point_values(e.points)))
        + maybe("style"@, edge_style_value(e.style)) + maybe("from_side"@, side_value(e.from_side))
        + maybe("to_side"@, side_value(e.to_side)) + maybe("label_pos"@, place_value(e.label_pos))
        + one("from_point"@, point_value(e.from_point)) + one("to_point"@, point_value(e.to_point))
        + maybe("from_end"@, terminal_value(e.from_end)) + maybe(
        "to_end"@,
        terminal_value(e.to_end),
    )
}

fn edge_json(e: &AdvanceSceneEdge) -> (r: JsonValue)
    ensures
        r@ == Json::Object(edge_members(e@)),
{
    let mut m: Object = Vec::new();
    put_text(&mut m, "from", e.from.as_str());
    put_text(&mut m, "to", e.to.as_str());
    put_text(&mut m, "kind", edge_kind_name(e.kind));
    put_opt_text(&mut m, "label", &e.label);
    put(&mut m, "points", points_json(&e.points));
    put_edge_style(&mut m, &e.style);
    put_side(&mut m, "from_side", e.from_side);
    put_side(&mut m, "to_side", e.to_side);
    put_place(&mut m, "label_pos", e.label_pos);
    put(&mut m, "from_point", point_json(e.from_point));
    put(&mut m, "to_point", point_json(e.to_point));
    put_terminal(&mut m, "from_end", &e.from_end);
    put_terminal(&mut m, "to_end", &e.to_end);
    assert(object_view(m@) == edge_members(e@));
    JsonValue::Object(m)
}

pub open spec fn lane_values(s: Seq<SceneLaneView>) -> Seq<Json> {
    s.map_values(|l: SceneLaneView| Json::Object(lane_members(l)))
}

pub open spec fn node_values(s: Seq<SceneNodeView>) -> Seq<Json> {
    s.map_values(|n: SceneNodeView| Json::Object(node_members(n)))
}

pub open spec fn edge_values(s: Seq<SceneEdgeView>) -> Seq<Json> {
    s.map_values(|e: SceneEdgeView| Json::Object(edge_members(e)))
}

pub open spec fn scene_members(sc: SceneView) -> Members {
    one("width"@, px_value(sc.width)) + one("height"@, px_value(sc.height)) + maybe(
        "title"@,
        text_value(sc.title),
    ) + maybe("description"@, text_value(sc.description)) + maybe(
        "direction"@,
        direction_value(sc.direction),
    ) + one("lanes"@, Json::Array(lane_values(sc.lanes))) + one(
        "nodes"@,
        Json::Array(node_values(sc.nodes)),
    ) + one("edges"@, Json::Array(edge_values(sc.edges)))
}

/// The JSON value that stands for a placed diagram.
pub open spec fn scene_value(sc: SceneView) -> Json {
    Json::Object(scene_members(sc))
}

fn lanes_json(s: &Vec<AdvanceSceneLane>) -> (r: JsonValue)
    ensures
        r@ == Json::Array(lane_values(scene_lanes(s@))),
{
    let ghost want = lane_values(scene_lanes(s@));
    let mut a: Vec<JsonValue> = Vec::new();
    let mut i: usize = 0;
    assert(array_view(a@) =~= want.take(0));
    while i < s.len()
        invariant
            i <= s@.len(),
            want == lane_values(scene_lanes(s@)),
            array_view(a@) == want.take(i as int),
        decreases s@.len() - i,
    {
        let ghost before = a@;
        a.push(lane_json(&s[i]));
        assert(array_view(a@) =~= array_view(before).push(want[i as int]));
        assert(want.take(i as int + 1) =~= want.take(i as int).push(want[i as int]));
        i += 1;
    }
    assert(want.take(want.len() as int) =~= want);
    JsonValue::Array(a)
}

fn nodes_json(s: &Vec<AdvanceSceneNode>) -> (r: JsonValue)
    ensures
        r@ == Json::Array(node_values(scene_nodes(s@))),
{
    let ghost want = node_values(scene_nodes(s@));
    let mut a: Vec<JsonValue> = Vec::new();
    let mut i: usize = 0;
    assert(array_view(a@) =~= want.take(0));
    while i < s.len()
        invariant
            i <= s@.len(),
            want == node_values(scene_nodes(s@)),
            array_view(a@) == want.take(i as int),
        decreases s@.len() - i,
    {
        let ghost before = a@;
        a.push(node_json(&s[i]));
        assert(array_view(a@) =~= array_view(before).push(want[i as int]));
        assert(want.take(i as int + 1) =~= want.take(i as int).push(want[i as int]));
        i += 1;
    }
    assert(want.take(want.len() as int) =~= want);
    JsonValue::Array(a)
}

fn edges_json(s: &Vec<AdvanceSceneEdge>) -> (r: JsonValue)
    ensures
        r@ == Json::Array(edge_values(scene_edges(s@))),
{
    let ghost want = edge_values(scene_edges(s@));
    let mut a: Vec<JsonValue> = Vec::new();
    let mut i: usize = 0;
    assert(array_view(a@) =~= want.take(0));
    while i < s.len()
        invariant
            i <= s@.len(),
            want == edge_values(scene_edges(s@)),
            array_view(a@) == want.take(i as int),
        decreases s@.len() - i,
    {
        let ghost before = a@;
        a.push(edge_json(&s[i]));
        assert(array_view(a@) =~= array_view(before).push(want[i as int]));
        assert(want.take(i as int + 1) =~= want.take(i as int).push(want[i as int]));
        i += 1;
    }
    assert(want.take(want.len() as int) =~= want);
    JsonValue::Array(a)
}

/// A placed diagram as JSON text.
pub fn scene_to_json(sc: &AdvanceScene) -> (r: String)
    ensures
        r@ == print_json(scene_value(sc@)),
{
    let mut m: Object = Vec::new();
    put_px(&mut m, "width", sc.width);
    put_px(&mut m, "height", sc.height);
    put_opt_text(&mut m, "title", &sc.title);
    put_opt_text(&mut m, "description", &sc.description);
    if sc.direction == AdvanceDirection::Horizontal {
        put_text(&mut m, "direction", "horizontal");
    } else {
        assert(object_view(m@) =~= object_view(m@) + maybe("direction"@, None));
    }
    put(&mut m, "lanes", lanes_json(&sc.lanes));
    put(&mut m, "nodes", nodes_json(&sc.nodes));
    put(&mut m, "edges", edges_json(&sc.edges));
    assert(object_view(m@) =~= scene_members(sc@));
    let v = JsonValue::Object(m);
    let mut out = String::new();
    push_json(&mut out, &v);
    assert(out@ =~= print_json(scene_value(sc@)));
    out
}

} // verus!
