//! What is written for a diagram reads as that diagram, with its measures
//! rounded to a tenth of a pixel.

use vstd::prelude::*;

use crate::advance::end_laws::{bare, clear_end, law_json_ref_reads_back};
use crate::advance::ends::{
    anchor_ids, element_ids, end_side, id_check, json_end_ref, lane_node_ids, law_layout_name,
    law_side_name, walk, Exposed,
};
use crate::advance::names::{edge_kind_text, law_edge_kind_name, law_shape_name, shape_text};
use crate::advance::read_json::{
    anchor_json, anchors_from, anchors_member, config_from, content_of, diagram_of_text,
    direction_member, edge_json, edge_style_member, edge_style_of, edges_from, element_json,
    elements_from, elements_member, fill_side, geometry_error, is_config_key, items_member,
    kind_member, lane_json, lanes_from, layout_member, node_json, node_style_of, nodes_from,
    nth_node, number_member, order_of, set_config, partly_placed, side_member, style_from,
    style_member, text_member, Members,
};
use crate::advance::write_json::{
    anchor_value, anchor_values, config_members, diagram_members, diagram_value, direction_value,
    edge_members, edge_style_members, edge_style_value, edge_value, edge_values, element_value,
    element_values, lane_value, lane_values, layout_value, list_value, maybe, node_members,
    node_style_members, node_style_value, node_value, node_values, number_value, one, order_name,
    place_members, side_value, style_members, text_value,
};
use crate::advance::{
    no_edge_style, side_name, AdvanceDirection, AdvanceOrder, AdvanceSide, AnchorView, ConfigView,
    DiagramView, EdgeStyleView, ElementLayout, ElementView, EndView, LaneEdgeView, LaneNodeView,
    LaneView, StyleView,
};
use crate::json::{member, print_json, Json};
use crate::json_laws::{law_json_reads_back, settled, settled_items, settled_members, writable};
use crate::model::{distinct, lemma_name_from, name_index, no_style, NodeStyleView};
use crate::num::{finite, in_unit, non_negative, number, positive, tenths};
use crate::num_laws::{law_number_reads_back, law_tenths_read, measure};

verus! {

/// The number shown for `n` with one decimal.
pub open spec fn to_tenth(n: Seq<char>) -> Seq<char> {
    number(tenths(n))->Some_0
}

pub open spec fn opt_tenth(n: Option<Seq<char>>) -> Option<Seq<char>> {
    match n {
        Some(n) => Some(to_tenth(n)),
        None => None,
    }
}

pub open spec fn node_style_tenth(s: NodeStyleView) -> NodeStyleView {
    NodeStyleView { stroke_width: opt_tenth(s.stroke_width), ..s }
}

pub open spec fn edge_style_tenth(s: EdgeStyleView) -> EdgeStyleView {
    EdgeStyleView { stroke_width: opt_tenth(s.stroke_width), ..s }
}

pub open spec fn element_tenth(e: ElementView) -> ElementView
    decreases e,
{
    ElementView {
        elements: elements_tenth(e.elements),
        style: node_style_tenth(e.style),
        ..e
    }
}

pub open spec fn elements_tenth(s: Seq<ElementView>) -> Seq<ElementView>
    decreases s,
{
    Seq::new(
        s.len(),
        |i: int|
            if 0 <= i < s.len() {
                element_tenth(s[i])
            } else {
                s[0]
            },
    )
}

pub open spec fn node_tenth(n: LaneNodeView) -> LaneNodeView {
    LaneNodeView {
        x: opt_tenth(n.x),
        y: opt_tenth(n.y),
        w: opt_tenth(n.w),
        h: opt_tenth(n.h),
        style: node_style_tenth(n.style),
        elements: elements_tenth(n.elements),
        ..n
    }
}

pub open spec fn nodes_tenth(n: Seq<LaneNodeView>) -> Seq<LaneNodeView> {
    n.map_values(|x: LaneNodeView| node_tenth(x))
}

pub open spec fn edge_tenth(e: LaneEdgeView) -> LaneEdgeView {
    LaneEdgeView { style: edge_style_tenth(e.style), ..e }
}

pub open spec fn edges_tenth(e: Seq<LaneEdgeView>) -> Seq<LaneEdgeView> {
    e.map_values(|x: LaneEdgeView| edge_tenth(x))
}

pub open spec fn config_tenth(c: ConfigView) -> ConfigView {
    ConfigView {
        margin: to_tenth(c.margin),
        lane_gap: to_tenth(c.lane_gap),
        node_gap_y: to_tenth(c.node_gap_y),
        lane_pad_x: to_tenth(c.lane_pad_x),
        lane_pad_y: to_tenth(c.lane_pad_y),
        lane_title_h: to_tenth(c.lane_title_h),
        order: c.order,
    }
}

/// The diagram with every measure rounded to a tenth.
pub open spec fn rounded(d: DiagramView) -> DiagramView {
    DiagramView {
        config: config_tenth(d.config),
        nodes: nodes_tenth(d.nodes),
        edges: edges_tenth(d.edges),
        ..d
    }
}

/// A size that is still positive when rounded.
pub open spec fn sound_size(n: Option<Seq<char>>) -> bool {
    match n {
        Some(n) => measure(n) && positive(to_tenth(n)),
        None => true,
    }
}

/// A coordinate that is still finite when rounded.
pub open spec fn sound_coordinate(n: Option<Seq<char>>) -> bool {
    match n {
        Some(n) => measure(n) && finite(to_tenth(n)),
        None => true,
    }
}

/// A distance that is still in range when rounded.
pub open spec fn sound_distance(n: Seq<char>) -> bool {
    measure(n) && non_negative(to_tenth(n))
}

pub open spec fn sound_anchor(a: AnchorView) -> bool {
    id_check("anchor"@, a.id) is Ok && measure(a.offset) && in_unit(a.offset)
}

pub open spec fn sound_anchors(a: Seq<AnchorView>) -> bool {
    distinct(anchor_ids(a)) && forall|i: int| 0 <= i < a.len() ==> sound_anchor(#[trigger] a[i])
}

/// A sub-element that nests at most `room` levels deep, itself included.
pub open spec fn sound_element(e: ElementView, room: int) -> bool
    decreases e,
{
    &&& room > 0
    &&& id_check("sub-element"@, e.id) is Ok
    &&& sound_anchors(e.anchors)
    &&& sound_elements(e.elements, room - 1)
    &&& sound_size(e.style.stroke_width)
}

pub open spec fn sound_elements(s: Seq<ElementView>, room: int) -> bool
    decreases s,
{
    distinct(element_ids(s)) && forall|i: int|
        0 <= i < s.len() ==> sound_element(#[trigger] s[i], room)
}

/// The ids of lanes in declaration order.
pub open spec fn lane_ids(l: Seq<LaneView>) -> Seq<Seq<char>>
    decreases l,
{
    if l.len() == 0 {
        Seq::empty()
    } else {
        seq![l[0].id] + lane_ids(l[0].children) + lane_ids(l.skip(1))
    }
}

/// Whether lanes nest at most `room` levels deep.
pub open spec fn lanes_fit(l: Seq<LaneView>, room: int) -> bool
    decreases l,
{
    forall|i: int| 0 <= i < l.len() ==> room > 0 && lanes_fit((#[trigger] l[i]).children, room - 1)
}

pub open spec fn sound_node(n: LaneNodeView, lanes: Seq<Seq<char>>) -> bool {
    &&& lanes.contains(n.lane)
    &&& id_check("node"@, n.id) is Ok
    &&& sound_coordinate(n.x)
    &&& sound_coordinate(n.y)
    &&& n.x is Some == n.y is Some
    &&& sound_size(n.w)
    &&& sound_size(n.h)
    &&& sound_size(n.style.stroke_width)
    &&& sound_anchors(n.anchors)
    &&& sound_elements(n.elements, 16)
}

pub open spec fn sound_nodes(n: Seq<LaneNodeView>, lanes: Seq<Seq<char>>) -> bool {
    &&& distinct(lane_node_ids(n))
    &&& !partly_placed(n)
    &&& forall|i: int| 0 <= i < n.len() ==> sound_node(#[trigger] n[i], lanes)
}

/// An edge between two ends that can be referred to and that the nodes
/// have.
pub open spec fn sound_edge(e: LaneEdgeView, nodes: Seq<LaneNodeView>) -> bool {
    &&& clear_end(e.from_end)
    &&& clear_end(e.to_end)
    &&& e.from == e.from_end.node
    &&& e.to == e.to_end.node
    &&& end_side(nodes, e.from_end) == Ok::<Option<AdvanceSide>, Seq<char>>(e.from_side)
    &&& end_side(nodes, e.to_end) == Ok::<Option<AdvanceSide>, Seq<char>>(e.to_side)
    &&& sound_size(e.style.stroke_width)
}

pub open spec fn sound_config(c: ConfigView) -> bool {
    &&& sound_distance(c.margin)
    &&& sound_distance(c.lane_gap)
    &&& sound_distance(c.node_gap_y)
    &&& sound_distance(c.lane_pad_x)
    &&& sound_distance(c.lane_pad_y)
    &&& sound_distance(c.lane_title_h)
}

/// A diagram whose names are used once and whose references and measures
/// can be read back.
pub open spec fn sound(d: DiagramView) -> bool {
    &&& sound_config(d.config)
    &&& lanes_fit(d.lanes, 16)
    &&& distinct(lane_ids(d.lanes))
    &&& sound_nodes(d.nodes, lane_ids(d.lanes))
    &&& forall|i: int| 0 <= i < d.edges.len() ==> sound_edge(#[trigger] d.edges[i], d.nodes)
}

/// Looking a key up in members that were appended.
pub broadcast proof fn lemma_member_cat(a: Members, b: Members, key: Seq<char>)
    ensures
        #[trigger] member(a + b, key) == if member(a, key) is Some {
            member(a, key)
        } else {
            member(b, key)
        },
    decreases a.len(),
{
    if a.len() == 0 {
        assert(a + b =~= b);
    } else {
        assert((a + b).skip(1) =~= a.skip(1) + b);
        lemma_member_cat(a.skip(1), b, key);
    }
}

pub broadcast proof fn lemma_member_one(k: Seq<char>, v: Json, key: Seq<char>)
    ensures
        #[trigger] member(one(k, v), key) == if k == key {
            Some(v)
        } else {
            None
        },
{
    let o = one(k, v);
    assert(o[0] == (k, v));
    assert(o.skip(1).len() == 0);
    assert(member(o.skip(1), key) is None);
}

pub broadcast proof fn lemma_member_maybe(k: Seq<char>, v: Option<Json>, key: Seq<char>)
    ensures
        #[trigger] member(maybe(k, v), key) == if k == key {
            v
        } else {
            None
        },
{
    match v {
        Some(x) => {
            lemma_member_one(k, x, key);
        },
        None => {},
    }
}

/// A lookup after settling finds the settled value.
pub proof fn lemma_member_settled(o: Members, key: Seq<char>)
    ensures
        member(settled_members(o), key) == match member(o, key) {
            Some(v) => Some(settled(v)),
            None => None,
        },
    decreases o.len(),
{
    let s = settled_members(o);
    if o.len() > 0 {
        assert(s[0] == (o[0].0, settled(o[0].1)));
        assert(s.skip(1) =~= settled_members(o.skip(1)));
        lemma_member_settled(o.skip(1), key);
    }
}

/// Whether every number among the members can be read.
#[verifier::opaque]
pub open spec fn all_writable(o: Members) -> bool {
    forall|i: int| 0 <= i < o.len() ==> writable((#[trigger] o[i]).1)
}

pub broadcast proof fn lemma_writable_cat(a: Members, b: Members)
    ensures
        all_writable(a) && all_writable(b) ==> #[trigger] all_writable(a + b),
{
    reveal(all_writable);
    if all_writable(a) && all_writable(b) {
        let c = a + b;
        assert forall|i: int| 0 <= i < c.len() implies writable((#[trigger] c[i]).1) by {
            if i < a.len() {
                assert(c[i] == a[i]);
            } else {
                assert(c[i] == b[i - a.len()]);
            }
        }
    }
}

pub broadcast proof fn lemma_writable_one(k: Seq<char>, v: Json)
    ensures
        writable(v) ==> #[trigger] all_writable(one(k, v)),
{
    reveal(all_writable);
}

pub broadcast proof fn lemma_writable_maybe(k: Seq<char>, v: Option<Json>)
    ensures
        (v matches Some(x) ==> writable(x)) ==> #[trigger] all_writable(maybe(k, v)),
{
    reveal(all_writable);
}

pub proof fn lemma_writable_object(m: Members)
    requires
        all_writable(m),
    ensures
        writable(Json::Object(m)),
{
    reveal(all_writable);
}

pub broadcast group group_members {
    lemma_member_cat,
    lemma_member_one,
    lemma_member_maybe,
}

pub broadcast group group_writable {
    lemma_writable_cat,
    lemma_writable_one,
    lemma_writable_maybe,
}

/// Enough of the spelling of the keys to tell them apart.
proof fn lemma_node_keys()
    ensures
        "id"@.len() == 2,
        "label"@.len() == 5 && "label"@[0] == 'l',
        "lane"@.len() == 4,
        "shape"@.len() == 5 && "shape"@[0] == 's' && "shape"@[1] == 'h',
        "x"@.len() == 1 && "x"@[0] == 'x',
        "y"@.len() == 1 && "y"@[0] == 'y',
        "w"@.len() == 1 && "w"@[0] == 'w',
        "h"@.len() == 1 && "h"@[0] == 'h',
        "style"@.len() == 5 && "style"@[0] == 's' && "style"@[1] == 't',
        "layout"@.len() == 6 && "layout"@[0] == 'l',
        "anchors"@.len() == 7,
        "elements"@.len() == 8 && "elements"@[0] == 'e',
        "side"@.len() == 4,
        "offset"@.len() == 6 && "offset"@[0] == 'o',
        "title"@.len() == 5 && "title"@[0] == 't',
        "children"@.len() == 8 && "children"@[0] == 'c',
{
    reveal_strlit("id");
    reveal_strlit("label");
    reveal_strlit("lane");
    reveal_strlit("shape");
    reveal_strlit("x");
    reveal_strlit("y");
    reveal_strlit("w");
    reveal_strlit("h");
    reveal_strlit("style");
    reveal_strlit("layout");
    reveal_strlit("anchors");
    reveal_strlit("elements");
    reveal_strlit("side");
    reveal_strlit("offset");
    reveal_strlit("title");
    reveal_strlit("children");
}

proof fn lemma_style_keys()
    ensures
        "fill"@.len() == 4 && "fill"@[0] == 'f',
        "stroke"@.len() == 6,
        "color"@.len() == 5,
        "stroke-width"@.len() == 12,
        "dash"@.len() == 4 && "dash"@[0] == 'd',
        "label-fill"@.len() == 10,
{
    reveal_strlit("fill");
    reveal_strlit("stroke");
    reveal_strlit("color");
    reveal_strlit("stroke-width");
    reveal_strlit("dash");
    reveal_strlit("label-fill");
}

pub proof fn lemma_size_written(n: Option<Seq<char>>)
    requires
        n matches Some(x) ==> measure(x),
    ensures
        number_value(n) matches Some(v) ==> writable(v) && settled(v) == Json::Number(
            opt_tenth(n)->Some_0,
        ),
{
    if let Some(x) = n {
        law_tenths_read(x);
    }
}

proof fn lemma_node_style(s: NodeStyleView)
    requires
        sound_size(s.stroke_width),
    ensures
        writable(Json::Object(node_style_members(s))),
        node_style_of(settled(Json::Object(node_style_members(s)))) == Ok::<
            NodeStyleView,
            Seq<char>,
        >(node_style_tenth(s)),
{
    broadcast use {group_members, group_writable};

    lemma_style_keys();
    lemma_size_written(s.stroke_width);
    let m = node_style_members(s);
    lemma_member_settled(m, "fill"@);
    lemma_member_settled(m, "stroke"@);
    lemma_member_settled(m, "color"@);
    lemma_member_settled(m, "stroke-width"@);
    assert(member(m, "fill"@) == text_value(s.fill));
    assert(member(m, "stroke"@) == text_value(s.stroke));
    assert(member(m, "color"@) == text_value(s.color));
    assert(member(m, "stroke-width"@) == number_value(s.stroke_width));
    lemma_writable_object(m);
}

proof fn lemma_edge_style(s: EdgeStyleView)
    requires
        sound_size(s.stroke_width),
    ensures
        writable(Json::Object(edge_style_members(s))),
        edge_style_of(settled(Json::Object(edge_style_members(s)))) == Ok::<
            EdgeStyleView,
            Seq<char>,
        >(edge_style_tenth(s)),
{
    broadcast use {group_members, group_writable};

    lemma_style_keys();
    lemma_size_written(s.stroke_width);
    let m = edge_style_members(s);
    lemma_member_settled(m, "color"@);
    lemma_member_settled(m, "stroke-width"@);
    lemma_member_settled(m, "dash"@);
    lemma_member_settled(m, "label-fill"@);
    assert(member(m, "color"@) == text_value(s.color));
    assert(member(m, "stroke-width"@) == number_value(s.stroke_width));
    assert(member(m, "dash"@) == text_value(s.dash));
    assert(member(m, "label-fill"@) == text_value(s.label_fill));
    lemma_writable_object(m);
}

/// Members that hold a node style where one is set.
proof fn lemma_style_member(o: Members, s: NodeStyleView)
    requires
        sound_size(s.stroke_width),
        member(o, "style"@) == node_style_value(s),
    ensures
        style_member(settled_members(o)) == Ok::<NodeStyleView, Seq<char>>(node_style_tenth(s)),
        node_style_value(s) matches Some(v) ==> writable(v),
{
    lemma_member_settled(o, "style"@);
    lemma_node_style(s);
    if s == no_style() {
        assert(node_style_tenth(s) == s);
    }
}

proof fn lemma_anchor(a: AnchorView, ctx: Seq<char>)
    requires
        sound_anchor(a),
    ensures
        writable(anchor_value(a)),
        anchor_json(settled(anchor_value(a)), ctx) == Ok::<AnchorView, Seq<char>>(a),
{
    broadcast use {group_members, group_writable};

    lemma_node_keys();
    law_side_name(a.side);
    law_number_reads_back(a.offset, a.offset);
    let m = anchor_value(a)->Object_0;
    lemma_member_settled(m, "id"@);
    lemma_member_settled(m, "side"@);
    lemma_member_settled(m, "offset"@);
    assert(member(m, "id"@) == Some(Json::Text(a.id)));
    assert(member(m, "side"@) == Some(Json::Text(side_name(a.side))));
    assert(member(m, "offset"@) == Some(Json::Number(a.offset)));
    lemma_writable_object(m);
}

proof fn lemma_anchors_from(a: Seq<AnchorView>, i: int, ctx: Seq<char>)
    requires
        sound_anchors(a),
        0 <= i <= a.len(),
    ensures
        anchors_from(settled_items(anchor_values(a)), i, a.take(i), ctx) == Ok::<
            Seq<AnchorView>,
            Seq<char>,
        >(a),
    decreases a.len() - i,
{
    let items = settled_items(anchor_values(a));
    if i < a.len() {
        assert(items[i] == settled(anchor_value(a[i])));
        lemma_anchor(a[i], ctx);
        let ids = anchor_ids(a.take(i));
        lemma_name_from(ids, a[i].id, 0);
        if let Some(k) = name_index(ids, a[i].id) {
            assert(anchor_ids(a)[k] == ids[k]);
            assert(anchor_ids(a)[i] == a[i].id);
        }
        assert(a.take(i).push(a[i]) =~= a.take(i + 1));
        lemma_anchors_from(a, i + 1, ctx);
    } else {
        assert(a.take(i) =~= a);
    }
}

proof fn lemma_anchors_writable(a: Seq<AnchorView>)
    requires
        sound_anchors(a),
    ensures
        list_value(anchor_values(a)) matches Some(v) ==> writable(v),
{
    let items = anchor_values(a);
    assert forall|i: int| 0 <= i < items.len() implies writable(#[trigger] items[i]) by {
        lemma_anchor(a[i], Seq::empty());
    }
}

proof fn lemma_anchors_member(o: Members, a: Seq<AnchorView>, ctx: Seq<char>)
    requires
        sound_anchors(a),
        member(o, "anchors"@) == list_value(anchor_values(a)),
    ensures
        anchors_member(settled_members(o), ctx) == Ok::<Seq<AnchorView>, Seq<char>>(a),
{
    lemma_member_settled(o, "anchors"@);
    lemma_anchors_from(a, 0, ctx);
    assert(a.take(0) =~= Seq::empty());
    if a.len() == 0 {
        assert(a =~= Seq::empty());
    }
}

proof fn lemma_layout_member(o: Members, l: ElementLayout, ctx: Seq<char>)
    requires
        member(o, "layout"@) == layout_value(l),
    ensures
        layout_member(settled_members(o), ctx) == Ok::<ElementLayout, Seq<char>>(l),
{
    lemma_member_settled(o, "layout"@);
    law_layout_name(l);
}

proof fn lemma_element_lookup(e: ElementView)
    ensures
        ({
            let m = element_value(e)->Object_0;
            &&& element_value(e) is Object
            &&& member(m, "id"@) == Some(Json::Text(e.id))
            &&& member(m, "label"@) == Some(Json::Text(e.label))
            &&& member(m, "layout"@) == layout_value(e.layout)
            &&& member(m, "anchors"@) == list_value(anchor_values(e.anchors))
            &&& member(m, "elements"@) == list_value(element_values(e.elements))
            &&& member(m, "style"@) == node_style_value(e.style)
        }),
{
    broadcast use group_members;

    lemma_node_keys();
}

proof fn lemma_element(e: ElementView, ctx: Seq<char>, depth: int)
    requires
        sound_element(e, 17 - depth),
    ensures
        element_json(settled(element_value(e)), ctx, depth) == Ok::<ElementView, Seq<char>>(
            element_tenth(e),
        ),
    decreases e, 0int,
{
    let m = element_value(e)->Object_0;
    let here = ctx + "."@ + e.id;
    lemma_element_lookup(e);
    lemma_member_settled(m, "id"@);
    lemma_member_settled(m, "label"@);
    lemma_member_settled(m, "elements"@);
    lemma_anchors_member(m, e.anchors, here);
    lemma_layout_member(m, e.layout, here);
    lemma_style_member(m, e.style);
    lemma_elements_from(e.elements, 0, here, depth + 1);
    assert(elements_tenth(e.elements).take(0) =~= Seq::empty());
    if e.elements.len() == 0 {
        assert(elements_tenth(e.elements) =~= Seq::empty());
    }
}

proof fn lemma_elements_from(s: Seq<ElementView>, i: int, ctx: Seq<char>, depth: int)
    requires
        sound_elements(s, 17 - depth),
        0 <= i <= s.len(),
    ensures
        elements_from(
            settled_items(element_values(s)),
            i,
            elements_tenth(s).take(i),
            ctx,
            depth,
        ) == Ok::<Seq<ElementView>, Seq<char>>(elements_tenth(s)),
    decreases s, s.len() - i,
{
    let items = settled_items(element_values(s));
    let out = elements_tenth(s);
    if i < s.len() {
        assert(sound_element(s[i], 17 - depth));
        assert(items[i] == settled(element_value(s[i])));
        lemma_element(s[i], ctx, depth);
        assert(out[i] == element_tenth(s[i]));
        let ids = element_ids(out.take(i));
        lemma_name_from(ids, s[i].id, 0);
        if let Some(k) = name_index(ids, s[i].id) {
            assert(out[k] == element_tenth(s[k]));
            assert(element_ids(s)[k] == ids[k]);
            assert(element_ids(s)[i] == s[i].id);
        }
        assert(out.take(i).push(out[i]) =~= out.take(i + 1));
        lemma_elements_from(s, i + 1, ctx, depth);
    } else {
        assert(out.take(i) =~= out);
    }
}

proof fn lemma_element_writable(e: ElementView, room: int)
    requires
        sound_element(e, room),
    ensures
        writable(element_value(e)),
    decreases e, 0int,
{
    broadcast use group_writable;

    lemma_anchors_writable(e.anchors);
    lemma_node_style(e.style);
    lemma_elements_writable(e.elements, room - 1);
    lemma_writable_object(element_value(e)->Object_0);
}

proof fn lemma_elements_writable(s: Seq<ElementView>, room: int)
    requires
        sound_elements(s, room),
    ensures
        list_value(element_values(s)) matches Some(v) ==> writable(v),
    decreases s, 1int,
{
    let items = element_values(s);
    assert forall|i: int| 0 <= i < items.len() implies writable(#[trigger] items[i]) by {
        assert(sound_element(s[i], room));
        lemma_element_writable(s[i], room);
    }
}

proof fn lemma_elements_member(o: Members, s: Seq<ElementView>, ctx: Seq<char>)
    requires
        sound_elements(s, 16),
        member(o, "elements"@) == list_value(element_values(s)),
    ensures
        elements_member(settled_members(o), ctx, 1) == Ok::<Seq<ElementView>, Seq<char>>(
            elements_tenth(s),
        ),
{
    lemma_member_settled(o, "elements"@);
    lemma_elements_from(s, 0, ctx, 1);
    assert(elements_tenth(s).take(0) =~= Seq::empty());
    if s.len() == 0 {
        assert(elements_tenth(s) =~= Seq::empty());
    }
}

proof fn lemma_distinct_part(a: Seq<Seq<char>>, b: Seq<Seq<char>>)
    requires
        distinct(a + b),
    ensures
        distinct(a),
        forall|i: int| 0 <= i < b.len() ==> !a.contains(#[trigger] b[i]),
{
    let c = a + b;
    assert forall|i: int, j: int| 0 <= i < j < a.len() implies a[i] != a[j] by {
        assert(c[i] == a[i] && c[j] == a[j]);
    }
    assert forall|i: int| 0 <= i < b.len() implies !a.contains(#[trigger] b[i]) by {
        assert(c[a.len() + i] == b[i]);
        if a.contains(b[i]) {
            let k = choose|k: int| 0 <= k < a.len() && a[k] == b[i];
            assert(c[k] == a[k]);
        }
    }
}

proof fn lemma_lane(l: LaneView, depth: int, ids: Seq<Seq<char>>)
    requires
        depth <= 16,
        lanes_fit(l.children, 16 - depth),
        distinct(ids + (seq![l.id] + lane_ids(l.children))),
    ensures
        lane_json(settled(lane_value(l)), depth, ids) == Ok::<
            (LaneView, Seq<Seq<char>>),
            Seq<char>,
        >((l, ids + (seq![l.id] + lane_ids(l.children)))),
    decreases l, 0int,
{
    broadcast use group_members;

    lemma_node_keys();
    let m = lane_value(l)->Object_0;
    lemma_member_settled(m, "id"@);
    lemma_member_settled(m, "title"@);
    lemma_member_settled(m, "children"@);
    assert(member(m, "id"@) == Some(Json::Text(l.id)));
    assert(member(m, "title"@) == Some(Json::Text(l.title)));
    assert(member(m, "children"@) == list_value(lane_values(l.children)));
    let inner = lane_ids(l.children);
    assert((seq![l.id] + inner)[0] == l.id);
    lemma_distinct_part(ids, seq![l.id] + inner);
    assert(ids + (seq![l.id] + inner) =~= ids.push(l.id) + inner);
    assert(l.children.skip(0) =~= l.children);
    assert(l.children.take(0) =~= Seq::empty());
    lemma_lanes_from(l.children, 0, depth + 1, ids.push(l.id));
    if l.children.len() == 0 {
        assert(l.children =~= Seq::empty());
        assert(ids.push(l.id) + inner =~= ids.push(l.id));
    }
}

proof fn lemma_lanes_from(l: Seq<LaneView>, i: int, depth: int, ids: Seq<Seq<char>>)
    requires
        lanes_fit(l, 17 - depth),
        0 <= i <= l.len(),
        distinct(ids + lane_ids(l.skip(i))),
    ensures
        lanes_from(settled_items(lane_values(l)), i, l.take(i), depth, ids) == Ok::<
            (Seq<LaneView>, Seq<Seq<char>>),
            Seq<char>,
        >((l, ids + lane_ids(l.skip(i)))),
    decreases l, l.len() - i,
{
    let items = settled_items(lane_values(l));
    if i < l.len() {
        let rest = l.skip(i);
        assert(rest[0] == l[i]);
        assert(rest.skip(1) =~= l.skip(i + 1));
        let own = seq![l[i].id] + lane_ids(l[i].children);
        let later = lane_ids(l.skip(i + 1));
        assert(lane_ids(rest) == own + later);
        assert(ids + (own + later) =~= (ids + own) + later);
        lemma_distinct_part(ids + own, later);
        assert(items[i] == settled(lane_value(l[i])));
        lemma_lane(l[i], depth, ids);
        assert(l.take(i).push(l[i]) =~= l.take(i + 1));
        lemma_lanes_from(l, i + 1, depth, ids + own);
    } else {
        assert(l.skip(i) =~= Seq::empty());
        assert(l.take(i) =~= l);
        assert(ids + lane_ids(l.skip(i)) =~= ids);
    }
}

proof fn lemma_lane_writable(l: LaneView)
    ensures
        writable(lane_value(l)),
    decreases l, 0int,
{
    broadcast use group_writable;

    lemma_lanes_writable(l.children);
    lemma_writable_object(lane_value(l)->Object_0);
}

proof fn lemma_lanes_writable(l: Seq<LaneView>)
    ensures
        writable(Json::Array(lane_values(l))),
    decreases l, 1int,
{
    let items = lane_values(l);
    assert forall|i: int| 0 <= i < items.len() implies writable(#[trigger] items[i]) by {
        lemma_lane_writable(l[i]);
    }
}

proof fn lemma_node_lookup(n: LaneNodeView)
    requires
        n.x is Some == n.y is Some,
    ensures
        ({
            let m = node_members(n);
            &&& member(m, "id"@) == Some(Json::Text(n.id))
            &&& member(m, "label"@) == Some(Json::Text(n.label))
            &&& member(m, "lane"@) == Some(Json::Text(n.lane))
            &&& member(m, "shape"@) == Some(Json::Text(shape_text(n.shape)))
            &&& member(m, "x"@) == number_value(n.x)
            &&& member(m, "y"@) == number_value(n.y)
            &&& member(m, "w"@) == number_value(n.w)
            &&& member(m, "h"@) == number_value(n.h)
            &&& member(m, "style"@) == node_style_value(n.style)
            &&& member(m, "layout"@) == layout_value(n.layout)
            &&& member(m, "anchors"@) == list_value(anchor_values(n.anchors))
            &&& member(m, "elements"@) == list_value(element_values(n.elements))
        }),
{
    broadcast use group_members;

    lemma_node_keys();
}

proof fn lemma_node(n: LaneNodeView, i: int, lanes: Seq<Seq<char>>, ids: Seq<Seq<char>>)
    requires
        sound_node(n, lanes),
        name_index(ids, n.id) is None,
    ensures
        node_json(settled(node_value(n)), i, lanes, ids) == Ok::<LaneNodeView, Seq<char>>(
            node_tenth(n),
        ),
{
    let m = node_members(n);
    let ctx = nth_node(i) + " ('"@ + n.id + "')"@;
    lemma_node_lookup(n);
    lemma_member_settled(m, "id"@);
    lemma_member_settled(m, "label"@);
    lemma_member_settled(m, "lane"@);
    lemma_member_settled(m, "shape"@);
    lemma_member_settled(m, "x"@);
    lemma_member_settled(m, "y"@);
    lemma_member_settled(m, "w"@);
    lemma_member_settled(m, "h"@);
    law_shape_name(n.shape);
    lemma_size_written(n.x);
    lemma_size_written(n.y);
    lemma_size_written(n.w);
    lemma_size_written(n.h);
    lemma_style_member(m, n.style);
    lemma_anchors_member(m, n.anchors, ctx);
    lemma_elements_member(m, n.elements, ctx);
    lemma_layout_member(m, n.layout, ctx);
    let o = settled_members(m);
    assert(number_member(o, "x"@) == opt_tenth(n.x));
    assert(number_member(o, "y"@) == opt_tenth(n.y));
    assert(number_member(o, "w"@) == opt_tenth(n.w));
    assert(number_member(o, "h"@) == opt_tenth(n.h));
    assert(geometry_error(o, i, n.id) is None);
}

proof fn lemma_node_writable(n: LaneNodeView, lanes: Seq<Seq<char>>)
    requires
        sound_node(n, lanes),
    ensures
        writable(node_value(n)),
{
    broadcast use group_writable;

    lemma_size_written(n.x);
    lemma_size_written(n.y);
    lemma_size_written(n.w);
    lemma_size_written(n.h);
    lemma_node_style(n.style);
    lemma_anchors_writable(n.anchors);
    lemma_elements_writable(n.elements, 16);
    assert(all_writable(place_members(n.x, n.y))) by {
        reveal(all_writable);
    }
    lemma_writable_object(node_members(n));
}

proof fn lemma_nodes_from(n: Seq<LaneNodeView>, i: int, lanes: Seq<Seq<char>>)
    requires
        sound_nodes(n, lanes),
        0 <= i <= n.len(),
    ensures
        nodes_from(settled_items(node_values(n)), i, nodes_tenth(n).take(i), lanes) == Ok::<
            Seq<LaneNodeView>,
            Seq<char>,
        >(nodes_tenth(n)),
    decreases n.len() - i,
{
    let items = settled_items(node_values(n));
    let out = nodes_tenth(n);
    if i < n.len() {
        assert(items[i] == settled(node_value(n[i])));
        let ids = lane_node_ids(out.take(i));
        lemma_name_from(ids, n[i].id, 0);
        if let Some(k) = name_index(ids, n[i].id) {
            assert(out[k] == node_tenth(n[k]));
            assert(lane_node_ids(n)[k] == ids[k]);
            assert(lane_node_ids(n)[i] == n[i].id);
        }
        lemma_node(n[i], i, lanes, ids);
        assert(out.take(i).push(node_tenth(n[i])) =~= out.take(i + 1));
        lemma_nodes_from(n, i + 1, lanes);
    } else {
        assert(out.take(i) =~= out);
    }
}

proof fn lemma_element_ids_tenth(s: Seq<ElementView>)
    ensures
        element_ids(elements_tenth(s)) == element_ids(s),
{
    assert(element_ids(elements_tenth(s)) =~= element_ids(s)) by {
        assert forall|i: int| 0 <= i < s.len() implies element_ids(elements_tenth(s))[i]
            == element_ids(s)[i] by {
            assert(elements_tenth(s)[i] == element_tenth(s[i]));
        }
    }
}

proof fn lemma_walk_tenth(
    node: Seq<char>,
    s: Seq<ElementView>,
    layout: ElementLayout,
    x: Exposed,
    path: Seq<Seq<char>>,
)
    ensures
        walk(node, elements_tenth(s), layout, x, path) == match walk(node, s, layout, x, path) {
            Ok((e, y)) => Ok((element_tenth(e), y)),
            Err(m) => Err(m),
        },
    decreases path.len(),
{
    lemma_element_ids_tenth(s);
    if path.len() > 0 {
        let ids = element_ids(s);
        lemma_name_from(ids, path[0], 0);
        if let Some(i) = name_index(ids, path[0]) {
            assert(elements_tenth(s)[i] == element_tenth(s[i]));
            let here = crate::advance::ends::both_exposed(
                x,
                crate::advance::ends::exposed_child(layout, s.len() as int, i),
            );
            if path.len() > 1 {
                lemma_walk_tenth(node, s[i].elements, s[i].layout, here, path.skip(1));
            }
        }
    }
}

/// Rounding does not change where an end may attach.
proof fn lemma_end_side_tenth(nodes: Seq<LaneNodeView>, end: EndView)
    ensures
        end_side(nodes_tenth(nodes), end) == end_side(nodes, end),
{
    let out = nodes_tenth(nodes);
    let ids = lane_node_ids(nodes);
    assert(lane_node_ids(out) =~= ids);
    lemma_name_from(ids, end.node, 0);
    if let Some(i) = name_index(ids, end.node) {
        assert(out[i] == node_tenth(nodes[i]));
        lemma_walk_tenth(
            nodes[i].id,
            nodes[i].elements,
            nodes[i].layout,
            crate::advance::ends::all_exposed(),
            end.path,
        );
    }
}

proof fn lemma_edge_keys()
    ensures
        "from"@.len() == 4 && "from"@[0] == 'f',
        "to"@.len() == 2,
        "kind"@.len() == 4 && "kind"@[0] == 'k',
        "from_side"@.len() == 9,
        "to_side"@.len() == 7,
        "auto"@.len() == 4 && "auto"@[0] == 'a',
        "left"@.len() == 4 && "left"@[0] == 'l',
        "right"@.len() == 5,
        "top"@.len() == 3,
        "bottom"@.len() == 6,
{
    reveal_strlit("from");
    reveal_strlit("to");
    reveal_strlit("kind");
    reveal_strlit("from_side");
    reveal_strlit("to_side");
    reveal_strlit("auto");
    reveal_strlit("left");
    reveal_strlit("right");
    reveal_strlit("top");
    reveal_strlit("bottom");
}

proof fn lemma_edge_lookup(e: LaneEdgeView)
    ensures
        ({
            let m = edge_members(e);
            &&& member(m, "from"@) == Some(Json::Text(json_end_ref(e.from_end)))
            &&& member(m, "to"@) == Some(Json::Text(json_end_ref(e.to_end)))
            &&& member(m, "kind"@) == Some(Json::Text(edge_kind_text(e.kind)))
            &&& member(m, "label"@) == text_value(e.label)
            &&& member(m, "style"@) == edge_style_value(e.style)
            &&& member(m, "from_side"@) == side_value(e.from_side)
            &&& member(m, "to_side"@) == side_value(e.to_side)
        }),
{
    broadcast use group_members;

    lemma_node_keys();
    lemma_edge_keys();
}

proof fn lemma_side_member(o: Members, key: Seq<char>, side: Option<AdvanceSide>)
    requires
        member(o, key) == side_value(side),
    ensures
        side_member(settled_members(o), key) == Ok::<Option<AdvanceSide>, Seq<char>>(side),
{
    lemma_member_settled(o, key);
    lemma_edge_keys();
    if let Some(s) = side {
        law_side_name(s);
    }
}

/// An end whose resolved side is written apart.
proof fn lemma_fill_side(nodes: Seq<LaneNodeView>, end: EndView, side: Option<AdvanceSide>)
    requires
        end_side(nodes, end) == Ok::<Option<AdvanceSide>, Seq<char>>(side),
    ensures
        fill_side(bare(end), side) == end,
{
}

proof fn lemma_edge(e: LaneEdgeView, i: int, nodes: Seq<LaneNodeView>)
    requires
        sound_edge(e, nodes),
    ensures
        edge_json(settled(edge_value(e)), i, nodes_tenth(nodes)) == Ok::<
            LaneEdgeView,
            Seq<char>,
        >(edge_tenth(e)),
        writable(edge_value(e)),
{
    broadcast use group_writable;

    let m = edge_members(e);
    lemma_edge_lookup(e);
    lemma_member_settled(m, "from"@);
    lemma_member_settled(m, "to"@);
    lemma_member_settled(m, "kind"@);
    lemma_member_settled(m, "label"@);
    lemma_member_settled(m, "style"@);
    lemma_side_member(m, "from_side"@, e.from_side);
    lemma_side_member(m, "to_side"@, e.to_side);
    law_json_ref_reads_back(e.from_end);
    law_json_ref_reads_back(e.to_end);
    lemma_fill_side(nodes, e.from_end, e.from_side);
    lemma_fill_side(nodes, e.to_end, e.to_side);
    lemma_end_side_tenth(nodes, e.from_end);
    lemma_end_side_tenth(nodes, e.to_end);
    law_edge_kind_name(e.kind);
    lemma_edge_style(e.style);
    let o = settled_members(m);
    assert(edge_style_member(o) == Ok::<EdgeStyleView, Seq<char>>(edge_style_tenth(e.style))) by {
        if e.style == no_edge_style() {
            assert(edge_style_tenth(e.style) == e.style);
        }
    }
    assert(text_member(o, "label"@) == e.label);
    assert(kind_member(o) == Ok::<crate::model::EdgeKind, Seq<char>>(e.kind));
    lemma_writable_object(m);
}

proof fn lemma_edges_from(e: Seq<LaneEdgeView>, i: int, nodes: Seq<LaneNodeView>)
    requires
        forall|k: int| 0 <= k < e.len() ==> sound_edge(#[trigger] e[k], nodes),
        0 <= i <= e.len(),
    ensures
        edges_from(
            settled_items(edge_values(e)),
            i,
            edges_tenth(e).take(i),
            nodes_tenth(nodes),
        ) == Ok::<Seq<LaneEdgeView>, Seq<char>>(edges_tenth(e)),
    decreases e.len() - i,
{
    let items = settled_items(edge_values(e));
    let out = edges_tenth(e);
    if i < e.len() {
        assert(items[i] == settled(edge_value(e[i])));
        lemma_edge(e[i], i, nodes);
        assert(out.take(i).push(edge_tenth(e[i])) =~= out.take(i + 1));
        lemma_edges_from(e, i + 1, nodes);
    } else {
        assert(out.take(i) =~= out);
    }
}

proof fn lemma_diagram_style(s: StyleView, start: StyleView)
    ensures
        style_from(settled_members(style_members(s)), 0, start) == Ok::<StyleView, Seq<char>>(s),
{
    reveal_strlit("lane_fill");
    reveal_strlit("lane_stroke");
    reveal_strlit("edge_color");
    reveal_strlit("text_color");
    reveal_strlit("label_fill");
    assert("lane_fill"@.len() == 9 && "lane_stroke"@.len() == 11 && "edge_color"@.len() == 10
        && "text_color"@.len() == 10 && "label_fill"@.len() == 10);
    assert("edge_color"@[0] == 'e' && "text_color"@[0] == 't' && "label_fill"@[0] == 'l');
    let o = settled_members(style_members(s));
    assert(o =~= seq![
        ("lane_fill"@, Json::Text(s.lane_fill)),
        ("lane_stroke"@, Json::Text(s.lane_stroke)),
        ("edge_color"@, Json::Text(s.edge_color)),
        ("text_color"@, Json::Text(s.text_color)),
        ("label_fill"@, Json::Text(s.label_fill)),
    ]);
    let s1 = StyleView { lane_fill: s.lane_fill, ..start };
    let s2 = StyleView { lane_stroke: s.lane_stroke, ..s1 };
    let s3 = StyleView { edge_color: s.edge_color, ..s2 };
    let s4 = StyleView { text_color: s.text_color, ..s3 };
    assert(style_from(o, 5, s) == Ok::<StyleView, Seq<char>>(s));
    assert(style_from(o, 4, s4) == style_from(o, 5, s));
    assert(style_from(o, 3, s3) == style_from(o, 4, s4));
    assert(style_from(o, 2, s2) == style_from(o, 3, s3));
    assert(style_from(o, 1, s1) == style_from(o, 2, s2));
}

proof fn lemma_config_keys()
    ensures
        "margin"@.len() == 6,
        "lane_gap"@.len() == 8,
        "node_gap_y"@.len() == 10 && "node_gap_y"@[0] == 'n',
        "lane_pad_x"@.len() == 10 && "lane_pad_x"@[0] == 'l' && "lane_pad_x"@[9] == 'x',
        "lane_pad_y"@.len() == 10 && "lane_pad_y"@[0] == 'l' && "lane_pad_y"@[9] == 'y',
        "lane_title_h"@.len() == 12,
        "order"@.len() == 5,
        "declaration"@.len() == 11,
        "topology"@.len() == 8,
{
    reveal_strlit("margin");
    reveal_strlit("lane_gap");
    reveal_strlit("node_gap_y");
    reveal_strlit("lane_pad_x");
    reveal_strlit("lane_pad_y");
    reveal_strlit("lane_title_h");
    reveal_strlit("order");
    reveal_strlit("declaration");
    reveal_strlit("topology");
}

proof fn lemma_set_config(c: ConfigView, n: Seq<char>)
    ensures
        set_config(c, "margin"@, n) == (ConfigView { margin: n, ..c }),
        set_config(c, "lane_gap"@, n) == (ConfigView { lane_gap: n, ..c }),
        set_config(c, "node_gap_y"@, n) == (ConfigView { node_gap_y: n, ..c }),
        set_config(c, "lane_pad_x"@, n) == (ConfigView { lane_pad_x: n, ..c }),
        set_config(c, "lane_pad_y"@, n) == (ConfigView { lane_pad_y: n, ..c }),
        set_config(c, "lane_title_h"@, n) == (ConfigView { lane_title_h: n, ..c }),
{
    lemma_config_keys();
}

/// One number of a config object.
proof fn lemma_config_step(o: Members, i: int, c: ConfigView, key: Seq<char>, n: Seq<char>)
    requires
        0 <= i < o.len(),
        o[i] == (key, Json::Number(n)),
        is_config_key(key),
        non_negative(n),
    ensures
        config_from(o, i, c) == config_from(o, i + 1, set_config(c, key, n)),
{
}

proof fn lemma_tenths_writable(n: Seq<char>)
    requires
        measure(n),
    ensures
        writable(Json::Number(tenths(n))),
{
    law_tenths_read(n);
}

proof fn lemma_config_writable(c: ConfigView)
    requires
        sound_config(c),
    ensures
        writable(Json::Object(config_members(c))),
{
    broadcast use group_writable;

    lemma_tenths_writable(c.margin);
    lemma_tenths_writable(c.lane_gap);
    lemma_tenths_writable(c.node_gap_y);
    lemma_tenths_writable(c.lane_pad_x);
    lemma_tenths_writable(c.lane_pad_y);
    lemma_tenths_writable(c.lane_title_h);
    lemma_writable_object(config_members(c));
}

/// A config object written member by member.
proof fn lemma_config_items(c: ConfigView) -> (o: Members)
    ensures
        o == settled_members(config_members(c)),
        o.len() == 7,
        o[0] == ("margin"@, Json::Number(to_tenth(c.margin))),
        o[1] == ("lane_gap"@, Json::Number(to_tenth(c.lane_gap))),
        o[2] == ("node_gap_y"@, Json::Number(to_tenth(c.node_gap_y))),
        o[3] == ("lane_pad_x"@, Json::Number(to_tenth(c.lane_pad_x))),
        o[4] == ("lane_pad_y"@, Json::Number(to_tenth(c.lane_pad_y))),
        o[5] == ("lane_title_h"@, Json::Number(to_tenth(c.lane_title_h))),
        o[6] == ("order"@, Json::Text(order_name(c.order))),
{
    let m = config_members(c);
    assert(m.len() == 7);
    assert(m[0] == ("margin"@, Json::Number(tenths(c.margin))));
    assert(m[1] == ("lane_gap"@, Json::Number(tenths(c.lane_gap))));
    assert(m[2] == ("node_gap_y"@, Json::Number(tenths(c.node_gap_y))));
    assert(m[3] == ("lane_pad_x"@, Json::Number(tenths(c.lane_pad_x))));
    assert(m[4] == ("lane_pad_y"@, Json::Number(tenths(c.lane_pad_y))));
    assert(m[5] == ("lane_title_h"@, Json::Number(tenths(c.lane_title_h))));
    assert(m[6] == ("order"@, Json::Text(order_name(c.order))));
    settled_members(m)
}

proof fn lemma_config(c: ConfigView, start: ConfigView)
    requires
        sound_config(c),
    ensures
        config_from(settled_members(config_members(c)), 0, start) == Ok::<ConfigView, Seq<char>>(
            config_tenth(c),
        ),
{
    let o = lemma_config_items(c);
    let c1 = set_config(start, "margin"@, to_tenth(c.margin));
    let c2 = set_config(c1, "lane_gap"@, to_tenth(c.lane_gap));
    let c3 = set_config(c2, "node_gap_y"@, to_tenth(c.node_gap_y));
    let c4 = set_config(c3, "lane_pad_x"@, to_tenth(c.lane_pad_x));
    let c5 = set_config(c4, "lane_pad_y"@, to_tenth(c.lane_pad_y));
    let c6 = set_config(c5, "lane_title_h"@, to_tenth(c.lane_title_h));
    lemma_config_step(o, 0, start, "margin"@, to_tenth(c.margin));
    lemma_config_step(o, 1, c1, "lane_gap"@, to_tenth(c.lane_gap));
    lemma_config_step(o, 2, c2, "node_gap_y"@, to_tenth(c.node_gap_y));
    lemma_config_step(o, 3, c3, "lane_pad_x"@, to_tenth(c.lane_pad_x));
    lemma_config_step(o, 4, c4, "lane_pad_y"@, to_tenth(c.lane_pad_y));
    lemma_config_step(o, 5, c5, "lane_title_h"@, to_tenth(c.lane_title_h));
    lemma_set_config(start, to_tenth(c.margin));
    lemma_set_config(c1, to_tenth(c.lane_gap));
    lemma_set_config(c2, to_tenth(c.node_gap_y));
    lemma_set_config(c3, to_tenth(c.lane_pad_x));
    lemma_set_config(c4, to_tenth(c.lane_pad_y));
    lemma_set_config(c5, to_tenth(c.lane_title_h));
    lemma_config_keys();
    let c7 = ConfigView { order: c.order, ..c6 };
    assert(order_of(order_name(c.order)) == Ok::<AdvanceOrder, Seq<char>>(c.order));
    assert(config_from(o, 7, c7) == Ok::<ConfigView, Seq<char>>(c7));
    assert(config_from(o, 6, c6) == config_from(o, 7, c7));
    assert(c7 == config_tenth(c));
}

proof fn lemma_diagram_lookup(d: DiagramView)
    ensures
        ({
            let m = diagram_members(d);
            &&& member(m, "title"@) == text_value(d.title)
            &&& member(m, "description"@) == text_value(d.description)
            &&& member(m, "direction"@) == direction_value(d.direction)
            &&& member(m, "style"@) == Some(Json::Object(style_members(d.style)))
            &&& member(m, "config"@) == Some(Json::Object(config_members(d.config)))
            &&& member(m, "lanes"@) == Some(Json::Array(lane_values(d.lanes)))
            &&& member(m, "nodes"@) == Some(Json::Array(node_values(d.nodes)))
            &&& member(m, "edges"@) == Some(Json::Array(edge_values(d.edges)))
        }),
{
    broadcast use group_members;

    reveal_strlit("title");
    reveal_strlit("description");
    reveal_strlit("direction");
    reveal_strlit("style");
    reveal_strlit("config");
    reveal_strlit("lanes");
    reveal_strlit("nodes");
    reveal_strlit("edges");
    assert("title"@.len() == 5 && "description"@.len() == 11 && "direction"@.len() == 9
        && "style"@.len() == 5 && "config"@.len() == 6 && "lanes"@.len() == 5 && "nodes"@.len() == 5
        && "edges"@.len() == 5);
    assert("title"@[0] == 't' && "style"@[0] == 's' && "lanes"@[0] == 'l' && "nodes"@[0] == 'n'
        && "edges"@[0] == 'e');
}

proof fn lemma_partly_placed_tenth(n: Seq<LaneNodeView>)
    ensures
        partly_placed(nodes_tenth(n)) == partly_placed(n),
{
    let out = nodes_tenth(n);
    assert forall|i: int| 0 <= i < n.len() implies (#[trigger] out[i]).x is Some == n[i].x is Some by {}
    assert forall|i: int| 0 <= i < n.len() implies out[i].x is Some == (#[trigger] n[i]).x is Some by {}
}

proof fn lemma_nodes_writable(d: DiagramView)
    requires
        sound(d),
    ensures
        writable(Json::Array(node_values(d.nodes))),
{
    broadcast use group_writable;

    let nodes = node_values(d.nodes);
    assert forall|i: int| 0 <= i < nodes.len() implies writable(#[trigger] nodes[i]) by {
        lemma_node_writable(d.nodes[i], lane_ids(d.lanes));
    }
}

proof fn lemma_edges_writable(d: DiagramView)
    requires
        sound(d),
    ensures
        writable(Json::Array(edge_values(d.edges))),
{
    broadcast use group_writable;

    let edges = edge_values(d.edges);
    assert forall|i: int| 0 <= i < edges.len() implies writable(#[trigger] edges[i]) by {
        lemma_edge(d.edges[i], i, d.nodes);
    }
}

#[verifier::spinoff_prover]
proof fn lemma_diagram_writable(d: DiagramView)
    requires
        sound(d),
    ensures
        writable(diagram_value(d)),
{
    broadcast use group_writable;

    lemma_config_writable(d.config);
    lemma_writable_object(style_members(d.style));
    lemma_lanes_writable(d.lanes);
    lemma_nodes_writable(d);
    lemma_edges_writable(d);
    lemma_writable_object(diagram_members(d));
}

proof fn lemma_content(d: DiagramView)
    requires
        sound(d),
    ensures
        content_of(settled_members(diagram_members(d))) == Ok::<
            (Seq<LaneView>, Seq<LaneNodeView>, Seq<LaneEdgeView>),
            Seq<char>,
        >((d.lanes, nodes_tenth(d.nodes), edges_tenth(d.edges))),
{
    let m = diagram_members(d);
    let ids = lane_ids(d.lanes);
    lemma_diagram_lookup(d);
    lemma_member_settled(m, "lanes"@);
    lemma_member_settled(m, "nodes"@);
    lemma_member_settled(m, "edges"@);
    assert(d.lanes.skip(0) =~= d.lanes);
    assert(d.lanes.take(0) =~= Seq::empty());
    assert(Seq::<Seq<char>>::empty() + ids =~= ids);
    lemma_lanes_from(d.lanes, 0, 1, Seq::empty());
    assert(nodes_tenth(d.nodes).take(0) =~= Seq::empty());
    lemma_nodes_from(d.nodes, 0, ids);
    lemma_partly_placed_tenth(d.nodes);
    assert(edges_tenth(d.edges).take(0) =~= Seq::empty());
    lemma_edges_from(d.edges, 0, d.nodes);
    let o = settled_members(m);
    assert(items_member(o, "lanes"@) == Some(settled_items(lane_values(d.lanes))));
    assert(items_member(o, "nodes"@) == Some(settled_items(node_values(d.nodes))));
    assert(items_member(o, "edges"@) == Some(settled_items(edge_values(d.edges))));
}

/// A sound diagram that is written as JSON and read again is the same
/// diagram, with its measures rounded to a tenth.
pub proof fn law_diagram_reads_back(d: DiagramView)
    requires
        sound(d),
    ensures
        diagram_of_text(print_json(diagram_value(d))) == Ok::<DiagramView, Seq<char>>(rounded(d)),
{
    let m = diagram_members(d);
    lemma_diagram_writable(d);
    law_json_reads_back(diagram_value(d));
    lemma_diagram_lookup(d);
    lemma_member_settled(m, "title"@);
    lemma_member_settled(m, "description"@);
    lemma_member_settled(m, "direction"@);
    lemma_member_settled(m, "style"@);
    lemma_member_settled(m, "config"@);
    lemma_diagram_style(d.style, crate::advance::default_style());
    lemma_config(d.config, crate::advance::default_config());
    lemma_content(d);
    reveal_strlit("vertical");
    reveal_strlit("horizontal");
    let o = settled_members(m);
    assert(text_member(o, "title"@) == d.title);
    assert(text_member(o, "description"@) == d.description);
    assert(direction_member(o) == Ok::<AdvanceDirection, Seq<char>>(d.direction));
}

/// A sound diagram whose measures have one decimal at most survives being
/// written and read unchanged.
pub proof fn law_rounded_diagram_reads_back(d: DiagramView)
    requires
        sound(d),
        rounded(d) == d,
    ensures
        diagram_of_text(print_json(diagram_value(d))) == Ok::<DiagramView, Seq<char>>(d),
{
    law_diagram_reads_back(d);
}

} // verus!
