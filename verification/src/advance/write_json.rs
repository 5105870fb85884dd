//! Writing a swimlane diagram as JSON.
//!
//! `*_value` functions say which JSON value stands for a part of a diagram;
//! the text is that value printed without white space.

use vstd::prelude::*;

use crate::advance::ends::{end_ref_for_json, json_end_ref};
use crate::advance::names::{edge_kind_name, edge_kind_text, shape_name, shape_text};
use crate::advance::{
    anchor_views, element_view, element_views, lane_edge_views, lane_node_views, lane_view,
    lane_views, layout_name, no_edge_style, side_name, AdvanceAnchor, AdvanceConfig,
    AdvanceDiagram, AdvanceDirection, AdvanceEdge, AdvanceEdgeStyle, AdvanceElement, AdvanceLane,
    AdvanceNode, AdvanceOrder, AdvanceSide, AdvanceStyle, AnchorView, ConfigView, DiagramView,
    EdgeStyleView, ElementLayout, ElementView, LaneEdgeView, LaneNodeView, LaneView, StyleView,
};
use crate::advance::read_json::Members;
use crate::json::{
    array_view, escape_json_str, json_view, object_view, print_items, print_json, print_member,
    print_members, Json, JsonValue,
};
use crate::model::{no_style, opt_num, opt_text, NodeStyle, NodeStyleView};
use crate::num::{tenths, write_tenths, Num};

verus! {

/// Append the items of an array, separated by commas.
fn push_items(out: &mut String, a: &Vec<JsonValue>)
    ensures
        final(out)@ == old(out)@ + print_items(array_view(a@)),
    decreases a,
{
    let ghost all = array_view(a@);
    let mut i: usize = 0;
    assert(all.skip(0) =~= all);
    while i < a.len()
        invariant
            i <= a@.len(),
            all == array_view(a@),
            i < a@.len() ==> out@ + print_items(all.skip(i as int)) == old(out)@ + print_items(all),
            i == a@.len() ==> out@ == old(out)@ + print_items(all),
        decreases a@.len() - i,
    {
        let ghost before = out@;
        let ghost rest = all.skip(i as int);
        assert(rest[0] == all[i as int]);
        assert(all[i as int] == json_view(a@[i as int]));
        push_json(out, &a[i]);
        assert(rest.skip(1) =~= all.skip(i as int + 1));
        if i + 1 < a.len() {
            out.push(',');
            assert(out@ + print_items(all.skip(i as int + 1)) =~= before + (print_json(rest[0])
                + seq![','] + print_items(rest.skip(1))));
        } else {
            assert(rest.len() == 1);
        }
        i += 1;
    }
    if a.len() == 0 {
        assert(out@ =~= old(out)@ + print_items(all));
    }
}

/// Append the members of an object, separated by commas.
fn push_members(out: &mut String, o: &Vec<(String, JsonValue)>)
    ensures
        final(out)@ == old(out)@ + print_members(object_view(o@)),
    decreases o,
{
    let ghost all = object_view(o@);
    let mut i: usize = 0;
    assert(all.skip(0) =~= all);
    while i < o.len()
        invariant
            i <= o@.len(),
            all == object_view(o@),
            i < o@.len() ==> out@ + print_members(all.skip(i as int)) == old(out)@ + print_members(
                all,
            ),
            i == o@.len() ==> out@ == old(out)@ + print_members(all),
        decreases o@.len() - i,
    {
        let ghost before = out@;
        let ghost rest = all.skip(i as int);
        assert(rest[0] == all[i as int]);
        assert(all[i as int] == (o@[i as int].0@, json_view(o@[i as int].1)));
        out.append(escape_json_str(o[i].0.as_str()).as_str());
        out.push(':');
        push_json(out, &o[i].1);
        assert(out@ =~= before + print_member(rest[0]));
        assert(rest.skip(1) =~= all.skip(i as int + 1));
        if i + 1 < o.len() {
            out.push(',');
            assert(out@ + print_members(all.skip(i as int + 1)) =~= before + (print_member(rest[0])
                + seq![','] + print_members(rest.skip(1))));
        } else {
            assert(rest.len() == 1);
        }
        i += 1;
    }
    if o.len() == 0 {
        assert(out@ =~= old(out)@ + print_members(all));
    }
}

/// Append the text of a JSON value.
pub fn push_json(out: &mut String, v: &JsonValue)
    ensures
        final(out)@ == old(out)@ + print_json(v@),
    decreases v,
{
    match v {
        JsonValue::Null => {
            out.append("null");
        },
        JsonValue::Bool(b) => {
            if *b {
                out.append("true");
            } else {
                out.append("false");
            }
        },
        JsonValue::Number(n) => {
            out.append(n.text.as_str());
        },
        JsonValue::Text(s) => {
            out.append(escape_json_str(s.as_str()).as_str());
        },
        JsonValue::Array(a) => {
            out.push('[');
            push_items(out, a);
            out.push(']');
            assert(out@ =~= old(out)@ + print_json(v@));
        },
        JsonValue::Object(o) => {
            out.push('{');
            push_members(out, o);
            out.push('}');
            assert(out@ =~= old(out)@ + print_json(v@));
        },
    }
}

/// One member.
pub open spec fn one(key: Seq<char>, v: Json) -> Members {
    seq![(key, v)]
}

/// One member, or none.
pub open spec fn maybe(key: Seq<char>, v: Option<Json>) -> Members {
    match v {
        Some(v) => one(key, v),
        None => Seq::empty(),
    }
}

pub open spec fn text_value(o: Option<Seq<char>>) -> Option<Json> {
    match o {
        Some(s) => Some(Json::Text(s)),
        None => None,
    }
}

pub open spec fn number_value(o: Option<Seq<char>>) -> Option<Json> {
    match o {
        Some(s) => Some(Json::Number(tenths(s))),
        None => None,
    }
}

pub open spec fn list_value(a: Seq<Json>) -> Option<Json> {
    if a.len() == 0 {
        None
    } else {
        Some(Json::Array(a))
    }
}

pub(crate) type Object = Vec<(String, JsonValue)>;

pub(crate) fn put(out: &mut Object, key: &str, v: JsonValue)
    ensures
        object_view(final(out)@) == object_view(old(out)@) + one(key@, v@),
{
    out.push((key.to_owned(), v));
    assert(object_view(out@) =~= object_view(old(out)@) + one(key@, v@));
}

pub(crate) fn put_text(out: &mut Object, key: &str, s: &str)
    ensures
        object_view(final(out)@) == object_view(old(out)@) + one(key@, Json::Text(s@)),
{
    put(out, key, JsonValue::Text(s.to_owned()));
}

fn put_number(out: &mut Object, key: &str, n: &Num)
    ensures
        object_view(final(out)@) == object_view(old(out)@) + one(key@, Json::Number(tenths(n@))),
{
    put(out, key, JsonValue::Number(write_tenths(n)));
}

pub(crate) fn put_opt_text(out: &mut Object, key: &str, s: &Option<String>)
    ensures
        object_view(final(out)@) == object_view(old(out)@) + maybe(
            key@,
            text_value(opt_text(*s)),
        ),
{
    match s {
        Some(s) => put_text(out, key, s.as_str()),
        None => {
            assert(object_view(out@) =~= object_view(out@) + maybe(key@, None));
        },
    }
}

fn put_opt_number(out: &mut Object, key: &str, n: &Option<Num>)
    ensures
        object_view(final(out)@) == object_view(old(out)@) + maybe(
            key@,
            number_value(opt_num(*n)),
        ),
{
    match n {
        Some(n) => put_number(out, key, n),
        None => {
            assert(object_view(out@) =~= object_view(out@) + maybe(key@, None));
        },
    }
}

pub(crate) fn put_list(out: &mut Object, key: &str, a: Vec<JsonValue>)
    ensures
        object_view(final(out)@) == object_view(old(out)@) + maybe(
            key@,
            list_value(array_view(a@)),
        ),
{
    if a.len() == 0 {
        assert(object_view(out@) =~= object_view(out@) + maybe(key@, None));
    } else {
        put(out, key, JsonValue::Array(a));
    }
}

/// A node style as members.
pub open spec fn node_style_members(s: NodeStyleView) -> Members {
    maybe("fill"@, text_value(s.fill)) + maybe("stroke"@, text_value(s.stroke)) + maybe(
        "color"@,
        text_value(s.color),
    ) + maybe("stroke-width"@, number_value(s.stroke_width))
}

/// A node style, unless it overrides nothing.
pub open spec fn node_style_value(s: NodeStyleView) -> Option<Json> {
    if s == no_style() {
        None
    } else {
        Some(Json::Object(node_style_members(s)))
    }
}

pub(crate) fn put_node_style(out: &mut Object, s: &NodeStyle)
    ensures
        object_view(final(out)@) == object_view(old(out)@) + maybe("style"@, node_style_value(s@)),
{
    if s.is_default() {
        assert(object_view(out@) =~= object_view(out@) + maybe("style"@, None));
    } else {
        let mut m: Object = Vec::new();
        put_opt_text(&mut m, "fill", &s.fill);
        put_opt_text(&mut m, "stroke", &s.stroke);
        put_opt_text(&mut m, "color", &s.color);
        put_opt_number(&mut m, "stroke-width", &s.stroke_width);
        assert(object_view(m@) =~= node_style_members(s@));
        put(out, "style", JsonValue::Object(m));
    }
}

/// An edge style as members.
pub open spec fn edge_style_members(s: EdgeStyleView) -> Members {
    maybe("color"@, text_value(s.color)) + maybe("stroke-width"@, number_value(s.stroke_width))
        + maybe("dash"@, text_value(s.dash)) + maybe("label-fill"@, text_value(s.label_fill))
}

/// An edge style, unless it overrides nothing.
pub open spec fn edge_style_value(s: EdgeStyleView) -> Option<Json> {
    if s == no_edge_style() {
        None
    } else {
        Some(Json::Object(edge_style_members(s)))
    }
}

pub(crate) fn put_edge_style(out: &mut Object, s: &AdvanceEdgeStyle)
    ensures
        object_view(final(out)@) == object_view(old(out)@) + maybe("style"@, edge_style_value(s@)),
{
    if s.is_default() {
        assert(object_view(out@) =~= object_view(out@) + maybe("style"@, None));
    } else {
        let mut m: Object = Vec::new();
        put_opt_text(&mut m, "color", &s.color);
        put_opt_number(&mut m, "stroke-width", &s.stroke_width);
        put_opt_text(&mut m, "dash", &s.dash);
        put_opt_text(&mut m, "label-fill", &s.label_fill);
        assert(object_view(m@) =~= edge_style_members(s@));
        put(out, "style", JsonValue::Object(m));
    }
}

/// A layout other than the default.
pub open spec fn layout_value(l: ElementLayout) -> Option<Json> {
    if l == ElementLayout::Column {
        None
    } else {
        Some(Json::Text(layout_name(l)))
    }
}

fn put_layout(out: &mut Object, l: ElementLayout)
    ensures
        object_view(final(out)@) == object_view(old(out)@) + maybe("layout"@, layout_value(l)),
{
    if l == ElementLayout::Column {
        assert(object_view(out@) =~= object_view(out@) + maybe("layout"@, None));
    } else {
        put_text(out, "layout", l.name());
    }
}

pub open spec fn anchor_value(a: AnchorView) -> Json {
    Json::Object(
        one("id"@, Json::Text(a.id)) + one("side"@, Json::Text(side_name(a.side))) + one(
            "offset"@,
            Json::Number(a.offset),
        ),
    )
}

pub open spec fn anchor_values(a: Seq<AnchorView>) -> Seq<Json> {
    a.map_values(|x: AnchorView| anchor_value(x))
}

fn anchor_to_json(a: &AdvanceAnchor) -> (r: JsonValue)
    ensures
        r@ == anchor_value(a@),
{
    let mut m: Object = Vec::new();
    put_text(&mut m, "id", a.id.as_str());
    put_text(&mut m, "side", a.side.name());
    put(&mut m, "offset", JsonValue::Number(a.offset.clone()));
    assert(object_view(m@) =~= anchor_value(a@)->Object_0);
    JsonValue::Object(m)
}

fn anchors_to_json(a: &Vec<AdvanceAnchor>) -> (r: Vec<JsonValue>)
    ensures
        array_view(r@) == anchor_values(anchor_views(a@)),
{
    let ghost want = anchor_values(anchor_views(a@));
    let mut out: Vec<JsonValue> = Vec::new();
    let mut i: usize = 0;
    assert(array_view(out@) =~= want.take(0));
    while i < a.len()
        invariant
            i <= a@.len(),
            want == anchor_values(anchor_views(a@)),
            array_view(out@) == want.take(i as int),
        decreases a@.len() - i,
    {
        let ghost before = out@;
        let v = anchor_to_json(&a[i]);
        let ghost item = v@;
        out.push(v);
        assert(array_view(out@) =~= array_view(before).push(item));
        assert(want.take(i as int + 1) =~= want.take(i as int).push(want[i as int]));
        i += 1;
    }
    assert(want.take(want.len() as int) =~= want);
    out
}

pub open spec fn element_value(e: ElementView) -> Json
    decreases e,
{
    Json::Object(
        one("id"@, Json::Text(e.id)) + one("label"@, Json::Text(e.label)) + maybe(
            "layout"@,
            layout_value(e.layout),
        ) + maybe("anchors"@, list_value(anchor_values(e.anchors))) + maybe(
            "elements"@,
            list_value(element_values(e.elements)),
        ) + maybe("style"@, node_style_value(e.style)),
    )
}

pub open spec fn element_values(e: Seq<ElementView>) -> Seq<Json>
    decreases e,
{
    Seq::new(
        e.len(),
        |i: int|
            if 0 <= i < e.len() {
                element_value(e[i])
            } else {
                Json::Null
            },
    )
}

fn element_to_json(e: &AdvanceElement) -> (r: JsonValue)
    ensures
        r@ == element_value(e@),
    decreases e,
{
    let mut m: Object = Vec::new();
    put_text(&mut m, "id", e.id.as_str());
    put_text(&mut m, "label", e.label.as_str());
    put_layout(&mut m, e.layout);
    put_list(&mut m, "anchors", anchors_to_json(&e.anchors));
    put_list(&mut m, "elements", elements_to_json(&e.elements));
    put_node_style(&mut m, &e.style);
    assert(object_view(m@) =~= element_value(e@)->Object_0);
    JsonValue::Object(m)
}

fn elements_to_json(e: &Vec<AdvanceElement>) -> (r: Vec<JsonValue>)
    ensures
        array_view(r@) == element_values(element_views(e@)),
    decreases e,
{
    let ghost want = element_values(element_views(e@));
    let mut out: Vec<JsonValue> = Vec::new();
    let mut i: usize = 0;
    assert(array_view(out@) =~= want.take(0));
    while i < e.len()
        invariant
            i <= e@.len(),
            want == element_values(element_views(e@)),
            array_view(out@) == want.take(i as int),
        decreases e@.len() - i,
    {
        let ghost before = out@;
        assert(element_views(e@)[i as int] == element_view(e@[i as int]));
        let v = element_to_json(&e[i]);
        let ghost item = v@;
        assert(want[i as int] == item);
        out.push(v);
        assert(array_view(out@) =~= array_view(before).push(item));
        assert(want.take(i as int + 1) =~= want.take(i as int).push(want[i as int]));
        i += 1;
    }
    assert(want.take(want.len() as int) =~= want);
    out
}

pub open spec fn lane_value(l: LaneView) -> Json
    decreases l,
{
    Json::Object(
        one("id"@, Json::Text(l.id)) + one("title"@, Json::Text(l.title)) + maybe(
            "children"@,
            list_value(lane_values(l.children)),
        ),
    )
}

pub open spec fn lane_values(l: Seq<LaneView>) -> Seq<Json>
    decreases l,
{
    Seq::new(
        l.len(),
        |i: int|
            if 0 <= i < l.len() {
                lane_value(l[i])
            } else {
                Json::Null
            },
    )
}

fn lane_to_json_rec(l: &AdvanceLane) -> (r: JsonValue)
    ensures
        r@ == lane_value(l@),
    decreases l,
{
    let mut m: Object = Vec::new();
    put_text(&mut m, "id", l.id.as_str());
    put_text(&mut m, "title", l.title.as_str());
    put_list(&mut m, "children", lanes_to_json(&l.children));
    assert(object_view(m@) =~= lane_value(l@)->Object_0);
    JsonValue::Object(m)
}

fn lanes_to_json(l: &Vec<AdvanceLane>) -> (r: Vec<JsonValue>)
    ensures
        array_view(r@) == lane_values(lane_views(l@)),
    decreases l,
{
    let ghost want = lane_values(lane_views(l@));
    let mut out: Vec<JsonValue> = Vec::new();
    let mut i: usize = 0;
    assert(array_view(out@) =~= want.take(0));
    while i < l.len()
        invariant
            i <= l@.len(),
            want == lane_values(lane_views(l@)),
            array_view(out@) == want.take(i as int),
        decreases l@.len() - i,
    {
        let ghost before = out@;
        assert(lane_views(l@)[i as int] == lane_view(l@[i as int]));
        let v = lane_to_json_rec(&l[i]);
        let ghost item = v@;
        assert(want[i as int] == item);
        out.push(v);
        assert(array_view(out@) =~= array_view(before).push(item));
        assert(want.take(i as int + 1) =~= want.take(i as int).push(want[i as int]));
        i += 1;
    }
    assert(want.take(want.len() as int) =~= want);
    out
}

/// The coordinates of a node that has both.
pub open spec fn place_members(x: Option<Seq<char>>, y: Option<Seq<char>>) -> Members {
    if x is Some && y is Some {
        one("x"@, Json::Number(tenths(x->Some_0))) + one("y"@, Json::Number(tenths(y->Some_0)))
    } else {
        Seq::empty()
    }
}

pub open spec fn node_members(n: LaneNodeView) -> Members {
    one("id"@, Json::Text(n.id)) + one("label"@, Json::Text(n.label)) + one(
        "lane"@,
        Json::Text(n.lane),
    ) + one("shape"@, Json::Text(shape_text(n.shape))) + place_members(n.x, n.y) + maybe(
        "w"@,
        number_value(n.w),
    ) + maybe("h"@, number_value(n.h)) + maybe("style"@, node_style_value(n.style)) + maybe(
        "layout"@,
        layout_value(n.layout),
    ) + maybe("anchors"@, list_value(anchor_values(n.anchors))) + maybe(
        "elements"@,
        list_value(element_values(n.elements)),
    )
}

pub open spec fn node_value(n: LaneNodeView) -> Json {
    Json::Object(node_members(n))
}

pub open spec fn node_values(n: Seq<LaneNodeView>) -> Seq<Json> {
    n.map_values(|x: LaneNodeView| node_value(x))
}

fn node_to_json(n: &AdvanceNode) -> (r: JsonValue)
    ensures
        r@ == node_value(n@),
{
    let mut m: Object = Vec::new();
    put_text(&mut m, "id", n.id.as_str());
    put_text(&mut m, "label", n.label.as_str());
    put_text(&mut m, "lane", n.lane.as_str());
    put_text(&mut m, "shape", shape_name(n.shape));
    let ghost head = object_view(m@);
    if let Some(x) = &n.x {
        if let Some(y) = &n.y {
            put_number(&mut m, "x", x);
            put_number(&mut m, "y", y);
        }
    }
    assert(object_view(m@) =~= head + place_members(n@.x, n@.y));
    put_opt_number(&mut m, "w", &n.w);
    put_opt_number(&mut m, "h", &n.h);
    put_node_style(&mut m, &n.style);
    put_layout(&mut m, n.layout);
    put_list(&mut m, "anchors", anchors_to_json(&n.anchors));
    put_list(&mut m, "elements", elements_to_json(&n.elements));
    assert(object_view(m@) =~= node_members(n@));
    JsonValue::Object(m)
}

fn nodes_to_json(n: &Vec<AdvanceNode>) -> (r: Vec<JsonValue>)
    ensures
        array_view(r@) == node_values(lane_node_views(n@)),
{
    let ghost want = node_values(lane_node_views(n@));
    let mut out: Vec<JsonValue> = Vec::new();
    let mut i: usize = 0;
    assert(array_view(out@) =~= want.take(0));
    while i < n.len()
        invariant
            i <= n@.len(),
            want == node_values(lane_node_views(n@)),
            array_view(out@) == want.take(i as int),
        decreases n@.len() - i,
    {
        let ghost before = out@;
        let v = node_to_json(&n[i]);
        let ghost item = v@;
        out.push(v);
        assert(array_view(out@) =~= array_view(before).push(item));
        assert(want.take(i as int + 1) =~= want.take(i as int).push(want[i as int]));
        i += 1;
    }
    assert(want.take(want.len() as int) =~= want);
    out
}

pub open spec fn side_value(s: Option<AdvanceSide>) -> Option<Json> {
    match s {
        Some(s) => Some(Json::Text(side_name(s))),
        None => None,
    }
}

pub open spec fn edge_members(e: LaneEdgeView) -> Members {
    one("from"@, Json::Text(json_end_ref(e.from_end))) + one(
        "to"@,
        Json::Text(json_end_ref(e.to_end)),
    ) + one("kind"@, Json::Text(edge_kind_text(e.kind))) + maybe("label"@, text_value(e.label))
        + maybe("style"@, edge_style_value(e.style)) + maybe("from_side"@, side_value(e.from_side))
        + maybe("to_side"@, side_value(e.to_side))
}

pub open spec fn edge_value(e: LaneEdgeView) -> Json {
    Json::Object(edge_members(e))
}

pub open spec fn edge_values(e: Seq<LaneEdgeView>) -> Seq<Json> {
    e.map_values(|x: LaneEdgeView| edge_value(x))
}

fn put_side(out: &mut Object, key: &str, s: Option<AdvanceSide>)
    ensures
        object_view(final(out)@) == object_view(old(out)@) + maybe(key@, side_value(s)),
{
    match s {
        Some(s) => put_text(out, key, s.name()),
        None => {
            assert(object_view(out@) =~= object_view(out@) + maybe(key@, None));
        },
    }
}

fn edge_to_json(e: &AdvanceEdge) -> (r: JsonValue)
    ensures
        r@ == edge_value(e@),
{
    let mut m: Object = Vec::new();
    put_text(&mut m, "from", end_ref_for_json(&e.from_end).as_str());
    put_text(&mut m, "to", end_ref_for_json(&e.to_end).as_str());
    put_text(&mut m, "kind", edge_kind_name(e.kind));
    put_opt_text(&mut m, "label", &e.label);
    put_edge_style(&mut m, &e.style);
    put_side(&mut m, "from_side", e.from_side);
    put_side(&mut m, "to_side", e.to_side);
    assert(object_view(m@) =~= edge_members(e@));
    JsonValue::Object(m)
}

fn edges_to_json(e: &Vec<AdvanceEdge>) -> (r: Vec<JsonValue>)
    ensures
        array_view(r@) == edge_values(lane_edge_views(e@)),
{
    let ghost want = edge_values(lane_edge_views(e@));
    let mut out: Vec<JsonValue> = Vec::new();
    let mut i: usize = 0;
    assert(array_view(out@) =~= want.take(0));
    while i < e.len()
        invariant
            i <= e@.len(),
            want == edge_values(lane_edge_views(e@)),
            array_view(out@) == want.take(i as int),
        decreases e@.len() - i,
    {
        let ghost before = out@;
        let v = edge_to_json(&e[i]);
        let ghost item = v@;
        out.push(v);
        assert(array_view(out@) =~= array_view(before).push(item));
        assert(want.take(i as int + 1) =~= want.take(i as int).push(want[i as int]));
        i += 1;
    }
    assert(want.take(want.len() as int) =~= want);
    out
}

pub open spec fn style_members(s: StyleView) -> Members {
    one("lane_fill"@, Json::Text(s.lane_fill)) + one("lane_stroke"@, Json::Text(s.lane_stroke))
        + one("edge_color"@, Json::Text(s.edge_color)) + one("text_color"@, Json::Text(s.text_color))
        + one("label_fill"@, Json::Text(s.label_fill))
}

fn style_to_json(s: &AdvanceStyle) -> (r: JsonValue)
    ensures
        r@ == Json::Object(style_members(s@)),
{
    let mut m: Object = Vec::new();
    put_text(&mut m, "lane_fill", s.lane_fill.as_str());
    put_text(&mut m, "lane_stroke", s.lane_stroke.as_str());
    put_text(&mut m, "edge_color", s.edge_color.as_str());
    put_text(&mut m, "text_color", s.text_color.as_str());
    put_text(&mut m, "label_fill", s.label_fill.as_str());
    assert(object_view(m@) =~= style_members(s@));
    JsonValue::Object(m)
}

pub open spec fn order_name(o: AdvanceOrder) -> Seq<char> {
    match o {
        AdvanceOrder::Declaration => "declaration"@,
        AdvanceOrder::Topology => "topology"@,
    }
}

pub open spec fn config_members(c: ConfigView) -> Members {
    one("margin"@, Json::Number(tenths(c.margin))) + one("lane_gap"@, Json::Number(tenths(c.lane_gap))) + one(
        "node_gap_y"@,
        Json::Number(tenths(c.node_gap_y)),
    ) + one("lane_pad_x"@, Json::Number(tenths(c.lane_pad_x))) + one(
        "lane_pad_y"@,
        Json::Number(tenths(c.lane_pad_y)),
    ) + one("lane_title_h"@, Json::Number(tenths(c.lane_title_h))) + one(
        "order"@,
        Json::Text(order_name(c.order)),
    )
}

fn config_to_json(c: &AdvanceConfig) -> (r: JsonValue)
    ensures
        r@ == Json::Object(config_members(c@)),
{
    let mut m: Object = Vec::new();
    put_number(&mut m, "margin", &c.margin);
    put_number(&mut m, "lane_gap", &c.lane_gap);
    put_number(&mut m, "node_gap_y", &c.node_gap_y);
    put_number(&mut m, "lane_pad_x", &c.lane_pad_x);
    put_number(&mut m, "lane_pad_y", &c.lane_pad_y);
    put_number(&mut m, "lane_title_h", &c.lane_title_h);
    put_text(
        &mut m,
        "order",
        match c.order {
            AdvanceOrder::Declaration => "declaration",
            AdvanceOrder::Topology => "topology",
        },
    );
    assert(object_view(m@) =~= config_members(c@));
    JsonValue::Object(m)
}

pub open spec fn direction_value(d: AdvanceDirection) -> Option<Json> {
    if d == AdvanceDirection::Horizontal {
        Some(Json::Text("horizontal"@))
    } else {
        None
    }
}

pub open spec fn diagram_members(d: DiagramView) -> Members {
    maybe("title"@, text_value(d.title)) + maybe("description"@, text_value(d.description)) + maybe(
        "direction"@,
        direction_value(d.direction),
    ) + one("style"@, Json::Object(style_members(d.style))) + one(
        "config"@,
        Json::Object(config_members(d.config)),
    ) + one("lanes"@, Json::Array(lane_values(d.lanes))) + one(
        "nodes"@,
        Json::Array(node_values(d.nodes)),
    ) + one("edges"@, Json::Array(edge_values(d.edges)))
}

/// The JSON value that stands for a diagram.
pub open spec fn diagram_value(d: DiagramView) -> Json {
    Json::Object(diagram_members(d))
}

fn diagram_to_json(d: &AdvanceDiagram) -> (r: JsonValue)
    ensures
        r@ == diagram_value(d@),
{
    let mut m: Object = Vec::new();
    put_opt_text(&mut m, "title", &d.title);
    put_opt_text(&mut m, "description", &d.description);
    let ghost head = object_view(m@);
    if d.direction == AdvanceDirection::Horizontal {
        put_text(&mut m, "direction", "horizontal");
    }
    assert(object_view(m@) =~= head + maybe("direction"@, direction_value(d.direction)));
    put(&mut m, "style", style_to_json(&d.style));
    put(&mut m, "config", config_to_json(&d.config));
    put(&mut m, "lanes", JsonValue::Array(lanes_to_json(&d.lanes)));
    put(&mut m, "nodes", JsonValue::Array(nodes_to_json(&d.nodes)));
    put(&mut m, "edges", JsonValue::Array(edges_to_json(&d.edges)));
    assert(object_view(m@) =~= diagram_members(d@));
    JsonValue::Object(m)
}

/// Write a diagram as JSON. Numbers are written with one decimal, but for
/// the offsets of anchors, which are written in full.
pub fn to_json(d: &AdvanceDiagram) -> (r: String)
    ensures
        r@ == print_json(diagram_value(d@)),
{
    let v = diagram_to_json(d);
    let mut s = String::new();
    push_json(&mut s, &v);
    assert(s@ =~= print_json(diagram_value(d@)));
    s
}

} // verus!
