//! Reading a swimlane diagram from JSON.
//!
//! Each `*_of` function says what a JSON value denotes, or gives the
//! message of the first thing wrong with it.

use vstd::prelude::*;

use crate::advance::ends::{
    anchor_ids, check_id, element_ids, end_of, end_side, id_check, lane_node_ids, layout_of,
    parse_end, parse_layout_word, parse_side, resolve_end_side, side_of, anchor_index,
    element_index, lane_node_index,
};
use crate::advance::names::{
    edge_kind_of, edge_kind_of_error, parse_edge_kind, parse_shape, shape_of, shape_of_error,
};
use crate::advance::{
    adv_err, anchor_views, default_config, default_style, element_views, lane_edge_views,
    lane_node_views, lane_views, no_edge_style, AdvanceAnchor, AdvanceConfig, AdvanceDiagram,
    AdvanceDirection, AdvanceEdge, AdvanceEdgeStyle, AdvanceElement, AdvanceEnd, AdvanceError,
    AdvanceLane, AdvanceNode, AdvanceOrder, AdvanceSide, AdvanceStyle, AnchorRef, AnchorRefView,
    AnchorView, ConfigView, DiagramView, EdgeStyleView, ElementLayout, ElementView, EndView,
    LaneEdgeView, LaneNodeView, LaneView, StyleView,
};
use crate::json::{
    array_view, as_array, as_number, as_object, as_str, items_of, member, members_of, number_of,
    obj_get, object_view, parse_json, read_json, text_of, Json, JsonValue,
};
use crate::model::{
    name_index, no_style, opt_num, opt_text, EdgeKind, NodeStyle, NodeStyleView, Shape,
};
use crate::num::{finite, in_unit, non_negative, number, parse_num, positive, Num};
use crate::text::{
    cat, cat3, cat5, chars_of, decimal, decimal_string, str_eq, strings, strip_all_suffix, trim,
    trim_end_matches, trim_seq,
};

verus! {

/// A value, or the message of what is wrong.
pub type Out<T> = Result<T, Seq<char>>;

pub type Members = Seq<(Seq<char>, Json)>;

/// The text of the member `key`, where there is such a string.
pub open spec fn text_member(o: Members, key: Seq<char>) -> Option<Seq<char>> {
    match member(o, key) {
        Some(v) => text_of(v),
        None => None,
    }
}

/// The items of the member `key`, where there is such an array.
pub open spec fn items_member(o: Members, key: Seq<char>) -> Option<Seq<Json>> {
    match member(o, key) {
        Some(v) => items_of(v),
        None => None,
    }
}

/// The number of the member `key`, where there is such a number.
pub open spec fn number_member(o: Members, key: Seq<char>) -> Option<Seq<char>> {
    match member(o, key) {
        Some(v) => number_of(v),
        None => None,
    }
}

/// The text of the member `key`, or `default`.
pub open spec fn text_or(o: Members, key: Seq<char>, default: Seq<char>) -> Seq<char> {
    match text_member(o, key) {
        Some(s) => s,
        None => default,
    }
}

fn get_str<'a>(obj: &'a [(String, JsonValue)], key: &str) -> (r: Option<&'a str>)
    ensures
        match text_member(object_view(obj@), key@) {
            Some(s) => r is Some && r->Some_0@ == s,
            None => r is None,
        },
{
    match obj_get(obj, key) {
        Some(v) => as_str(v),
        None => None,
    }
}

fn get_string(obj: &[(String, JsonValue)], key: &str) -> (r: Option<String>)
    ensures
        opt_text(r) == text_member(object_view(obj@), key@),
{
    match get_str(obj, key) {
        Some(s) => Some(s.to_owned()),
        None => None,
    }
}

fn get_or(obj: &[(String, JsonValue)], key: &str, default: &str) -> (r: String)
    ensures
        r@ == text_or(object_view(obj@), key@, default@),
{
    match get_str(obj, key) {
        Some(s) => s.to_owned(),
        None => default.to_owned(),
    }
}

fn get_items<'a>(obj: &'a [(String, JsonValue)], key: &str) -> (r: Option<&'a [JsonValue]>)
    ensures
        match items_member(object_view(obj@), key@) {
            Some(a) => r is Some && array_view(r->Some_0@) == a,
            None => r is None,
        },
{
    match obj_get(obj, key) {
        Some(v) => as_array(v),
        None => None,
    }
}

fn get_number(obj: &[(String, JsonValue)], key: &str) -> (r: Option<Num>)
    ensures
        opt_num(r) == number_member(object_view(obj@), key@),
{
    match obj_get(obj, key) {
        Some(v) => as_number(v),
        None => None,
    }
}

/// A pixel quantity: a positive finite number, or a string such as `"2px"`
/// that holds one.
pub open spec fn px_of(v: Json) -> Out<Seq<char>> {
    match v {
        Json::Number(n) => if positive(n) {
            Ok(n)
        } else {
            Err("stroke-width must be a positive finite number"@)
        },
        Json::Text(s) => match number(trim_seq(strip_all_suffix(trim_seq(s), "px"@))) {
            Some(n) => if positive(n) {
                Ok(n)
            } else {
                Err("stroke-width must be a positive finite number"@)
            },
            None => Err("invalid stroke-width: '"@ + s + "'"@),
        },
        _ => Err("stroke-width must be a number or a 'Npx' string"@),
    }
}

pub fn px_number(v: &JsonValue) -> (r: Result<Num, String>)
    ensures
        match px_of(v@) {
            Ok(n) => r is Ok && r->Ok_0@ == n,
            Err(m) => r is Err && r->Err_0@ == m,
        },
{
    if let Some(n) = as_number(v) {
        if n.is_positive() {
            return Ok(n);
        }
        return Err("stroke-width must be a positive finite number".to_owned());
    }
    if let Some(s) = as_str(v) {
        let c = chars_of(s);
        let cleaned = trim(trim_end_matches(trim(c.as_slice()), "px"));
        return match parse_num(cleaned) {
            Some(n) => if n.is_positive() {
                Ok(n)
            } else {
                Err("stroke-width must be a positive finite number".to_owned())
            },
            None => Err(cat3("invalid stroke-width: '", s, "'")),
        };
    }
    Err("stroke-width must be a number or a 'Npx' string".to_owned())
}

/// The stroke width among the members of a style.
pub open spec fn width_member(o: Members) -> Out<Option<Seq<char>>> {
    match member(o, "stroke-width"@) {
        None => Ok(None),
        Some(v) => match px_of(v) {
            Ok(n) => Ok(Some(n)),
            Err(m) => Err(m),
        },
    }
}

fn get_width(obj: &[(String, JsonValue)]) -> (r: Result<Option<Num>, String>)
    ensures
        match width_member(object_view(obj@)) {
            Ok(n) => r is Ok && opt_num(r->Ok_0) == n,
            Err(m) => r is Err && r->Err_0@ == m,
        },
{
    match obj_get(obj, "stroke-width") {
        None => Ok(None),
        Some(v) => match px_number(v) {
            Ok(n) => Ok(Some(n)),
            Err(m) => Err(m),
        },
    }
}

/// The style object of a node. Unknown keys are ignored.
pub open spec fn node_style_of(v: Json) -> Out<NodeStyleView> {
    match members_of(v) {
        None => Err("node 'style' must be an object"@),
        Some(o) => match width_member(o) {
            Err(m) => Err(m),
            Ok(w) => Ok(
                NodeStyleView {
                    fill: text_member(o, "fill"@),
                    stroke: text_member(o, "stroke"@),
                    stroke_width: w,
                    color: text_member(o, "color"@),
                },
            ),
        },
    }
}

pub fn parse_node_style_json(v: &JsonValue) -> (r: Result<NodeStyle, String>)
    ensures
        match node_style_of(v@) {
            Ok(s) => r is Ok && r->Ok_0@ == s,
            Err(m) => r is Err && r->Err_0@ == m,
        },
{
    match as_object(v) {
        None => Err("node 'style' must be an object".to_owned()),
        Some(obj) => match get_width(obj) {
            Err(m) => Err(m),
            Ok(w) => Ok(
                NodeStyle {
                    fill: get_string(obj, "fill"),
                    stroke: get_string(obj, "stroke"),
                    stroke_width: w,
                    color: get_string(obj, "color"),
                },
            ),
        },
    }
}

/// The style object of an edge. Unknown keys are ignored.
pub open spec fn edge_style_of(v: Json) -> Out<EdgeStyleView> {
    match members_of(v) {
        None => Err("edge 'style' must be an object"@),
        Some(o) => match width_member(o) {
            Err(m) => Err(m),
            Ok(w) => Ok(
                EdgeStyleView {
                    color: text_member(o, "color"@),
                    stroke_width: w,
                    dash: text_member(o, "dash"@),
                    label_fill: text_member(o, "label-fill"@),
                },
            ),
        },
    }
}

pub fn parse_edge_style_json(v: &JsonValue) -> (r: Result<AdvanceEdgeStyle, String>)
    ensures
        match edge_style_of(v@) {
            Ok(s) => r is Ok && r->Ok_0@ == s,
            Err(m) => r is Err && r->Err_0@ == m,
        },
{
    match as_object(v) {
        None => Err("edge 'style' must be an object".to_owned()),
        Some(obj) => match get_width(obj) {
            Err(m) => Err(m),
            Ok(w) => Ok(
                AdvanceEdgeStyle {
                    color: get_string(obj, "color"),
                    stroke_width: w,
                    dash: get_string(obj, "dash"),
                    label_fill: get_string(obj, "label-fill"),
                },
            ),
        },
    }
}

/// The node style among the members of a node or sub-element.
pub open spec fn style_member(o: Members) -> Out<NodeStyleView> {
    match member(o, "style"@) {
        Some(v) => node_style_of(v),
        None => Ok(no_style()),
    }
}

fn get_node_style(obj: &[(String, JsonValue)]) -> (r: Result<NodeStyle, String>)
    ensures
        match style_member(object_view(obj@)) {
            Ok(s) => r is Ok && r->Ok_0@ == s,
            Err(m) => r is Err && r->Err_0@ == m,
        },
{
    match obj_get(obj, "style") {
        Some(v) => parse_node_style_json(v),
        None => Ok(NodeStyle::default()),
    }
}

/// The offset of an anchor: a half unless given.
pub open spec fn offset_member(o: Members) -> Option<Seq<char>> {
    match member(o, "offset"@) {
        None => Some("0.5"@),
        Some(v) => match number_of(v) {
            Some(n) if in_unit(n) => Some(n),
            _ => None,
        },
    }
}

/// The anchor object `{"id": .., "side": .., "offset": ..}`.
pub open spec fn anchor_json(v: Json, ctx: Seq<char>) -> Out<AnchorView> {
    match members_of(v) {
        None => Err(ctx + " anchor must be an object"@),
        Some(o) => match text_member(o, "id"@) {
            None => Err(ctx + " anchor missing 'id'"@),
            Some(id) => match id_check("anchor"@, id) {
                Err(m) => Err(m),
                Ok(_) => match text_member(o, "side"@) {
                    None => Err(ctx + " anchor '"@ + id + "' missing 'side'"@),
                    Some(word) => match side_of(word) {
                        None => Err(ctx + " anchor '"@ + id + "': unknown side '"@ + word + "'"@),
                        Some(side) => match offset_member(o) {
                            None => Err(
                                ctx + " anchor '"@ + id
                                    + "': offset must be a number in 0..=1"@,
                            ),
                            Some(offset) => Ok(AnchorView { id, side, offset }),
                        },
                    },
                },
            },
        },
    }
}

fn get_offset(obj: &[(String, JsonValue)]) -> (r: Option<Num>)
    ensures
        opt_num(r) == offset_member(object_view(obj@)),
{
    match obj_get(obj, "offset") {
        None => Some(Num::of("0.5")),
        Some(v) => match as_number(v) {
            Some(n) => if n.is_in_unit() {
                Some(n)
            } else {
                None
            },
            None => None,
        },
    }
}

pub fn parse_anchor_json(v: &JsonValue, ctx: &str) -> (r: Result<AdvanceAnchor, String>)
    ensures
        match anchor_json(v@, ctx@) {
            Ok(a) => r is Ok && r->Ok_0@ == a,
            Err(m) => r is Err && r->Err_0@ == m,
        },
{
    let obj = match as_object(v) {
        Some(o) => o,
        None => {
            return Err(cat(ctx, " anchor must be an object"));
        },
    };
    let id = match get_string(obj, "id") {
        Some(s) => s,
        None => {
            return Err(cat(ctx, " anchor missing 'id'"));
        },
    };
    match check_id("anchor", id.as_str()) {
        Ok(_) => {},
        Err(m) => {
            return Err(m);
        },
    }
    let word = match get_str(obj, "side") {
        Some(s) => s,
        None => {
            return Err(cat(cat3(ctx, " anchor '", id.as_str()).as_str(), "' missing 'side'"));
        },
    };
    let side = match parse_side(chars_of(word).as_slice()) {
        Some(s) => s,
        None => {
            return Err(
                cat(
                    cat5(ctx, " anchor '", id.as_str(), "': unknown side '", word).as_str(),
                    "'",
                ),
            );
        },
    };
    match get_offset(obj) {
        None => Err(
            cat(
                cat3(ctx, " anchor '", id.as_str()).as_str(),
                "': offset must be a number in 0..=1",
            ),
        ),
        Some(offset) => Ok(AdvanceAnchor { id, side, offset }),
    }
}

/// The anchors of an array from item `i` on, after `acc`; no id may occur
/// twice.
pub open spec fn anchors_from(
    a: Seq<Json>,
    i: int,
    acc: Seq<AnchorView>,
    ctx: Seq<char>,
) -> Out<Seq<AnchorView>>
    decreases a.len() - i,
{
    if i < 0 || i >= a.len() {
        Ok(acc)
    } else {
        match anchor_json(a[i], ctx) {
            Err(m) => Err(m),
            Ok(x) => if name_index(anchor_ids(acc), x.id) is Some {
                Err(ctx + ": duplicate anchor '"@ + x.id + "'"@)
            } else {
                anchors_from(a, i + 1, acc.push(x), ctx)
            },
        }
    }
}

/// The anchors among the members of a node or sub-element.
pub open spec fn anchors_member(o: Members, ctx: Seq<char>) -> Out<Seq<AnchorView>> {
    match items_member(o, "anchors"@) {
        None => Ok(Seq::empty()),
        Some(a) => anchors_from(a, 0, Seq::empty(), ctx),
    }
}

fn get_anchors(obj: &[(String, JsonValue)], ctx: &str) -> (r: Result<Vec<AdvanceAnchor>, String>)
    ensures
        match anchors_member(object_view(obj@), ctx@) {
            Ok(a) => r is Ok && anchor_views(r->Ok_0@) == a,
            Err(m) => r is Err && r->Err_0@ == m,
        },
{
    let mut out: Vec<AdvanceAnchor> = Vec::new();
    assert(anchor_views(out@) =~= Seq::empty());
    if let Some(arr) = get_items(obj, "anchors") {
        let ghost a = array_view(arr@);
        let mut i: usize = 0;
        while i < arr.len()
            invariant
                i <= arr@.len(),
                a == array_view(arr@),
                anchors_from(a, 0, Seq::empty(), ctx@) == anchors_from(
                    a,
                    i as int,
                    anchor_views(out@),
                    ctx@,
                ),
                anchors_member(object_view(obj@), ctx@) == anchors_from(a, 0, Seq::empty(), ctx@),
            decreases arr@.len() - i,
        {
            assert(a[i as int] == arr@[i as int]@);
            match parse_anchor_json(&arr[i], ctx) {
                Err(m) => {
                    return Err(m);
                },
                Ok(x) => {
                    if anchor_index(&out, x.id.as_str()).is_some() {
                        return Err(
                            cat(cat3(ctx, ": duplicate anchor '", x.id.as_str()).as_str(), "'"),
                        );
                    }
                    let ghost before = out@;
                    let ghost item = x@;
                    out.push(x);
                    assert(anchor_views(out@) =~= anchor_views(before).push(item));
                },
            }
            i += 1;
        }
    }
    Ok(out)
}

/// The layout among the members of a node or sub-element.
pub open spec fn layout_member(o: Members, ctx: Seq<char>) -> Out<ElementLayout> {
    match member(o, "layout"@) {
        None => Ok(ElementLayout::Column),
        Some(v) => match text_of(v) {
            None => Err(ctx + " layout must be a string"@),
            Some(w) => match layout_of(w) {
                None => Err(ctx + " layout: unknown '"@ + w + "', expected column or row"@),
                Some(l) => Ok(l),
            },
        },
    }
}

fn get_layout(obj: &[(String, JsonValue)], ctx: &str) -> (r: Result<ElementLayout, String>)
    ensures
        match layout_member(object_view(obj@), ctx@) {
            Ok(l) => r is Ok && r->Ok_0 == l,
            Err(m) => r is Err && r->Err_0@ == m,
        },
{
    match obj_get(obj, "layout") {
        None => Ok(ElementLayout::Column),
        Some(v) => match as_str(v) {
            None => Err(cat(ctx, " layout must be a string")),
            Some(w) => match parse_layout_word(chars_of(w).as_slice()) {
                None => Err(
                    cat(cat3(ctx, " layout: unknown '", w).as_str(), "', expected column or row"),
                ),
                Some(l) => Ok(l),
            },
        },
    }
}

/// A sub-element object at the given nesting depth, at most sixteen.
pub open spec fn element_json(v: Json, ctx: Seq<char>, depth: int) -> Out<ElementView>
    decreases 18 - depth, 0int,
{
    if depth > 16 {
        Err(ctx + ": sub-element nesting exceeds limit of 16"@)
    } else {
        match members_of(v) {
            None => Err(ctx + " sub-element must be an object"@),
            Some(o) => match text_member(o, "id"@) {
                None => Err(ctx + " sub-element missing 'id'"@),
                Some(id) => match id_check("sub-element"@, id) {
                    Err(m) => Err(m),
                    Ok(_) => {
                        let here = ctx + "."@ + id;
                        match anchors_member(o, here) {
                            Err(m) => Err(m),
                            Ok(anchors) => {
                                let inner = match items_member(o, "elements"@) {
                                    None => Ok(Seq::empty()),
                                    Some(a) => elements_from(a, 0, Seq::empty(), here, depth + 1),
                                };
                                match inner {
                                    Err(m) => Err(m),
                                    Ok(elements) => match layout_member(o, here) {
                                        Err(m) => Err(m),
                                        Ok(layout) => match style_member(o) {
                                            Err(m) => Err(m),
                                            Ok(style) => Ok(
                                                ElementView {
                                                    id,
                                                    label: text_or(o, "label"@, id),
                                                    anchors,
                                                    elements,
                                                    layout,
                                                    style,
                                                },
                                            ),
                                        },
                                    },
                                }
                            },
                        }
                    },
                },
            },
        }
    }
}

/// The sub-elements of an array from item `i` on, after `acc`; no id may
/// occur twice.
pub open spec fn elements_from(
    a: Seq<Json>,
    i: int,
    acc: Seq<ElementView>,
    ctx: Seq<char>,
    depth: int,
) -> Out<Seq<ElementView>>
    decreases 18 - depth, a.len() - i + 1,
{
    if i < 0 || i >= a.len() {
        Ok(acc)
    } else {
        match element_json(a[i], ctx, depth) {
            Err(m) => Err(m),
            Ok(x) => if name_index(element_ids(acc), x.id) is Some {
                Err(ctx + ": duplicate sub-element '"@ + x.id + "'"@)
            } else {
                elements_from(a, i + 1, acc.push(x), ctx, depth)
            },
        }
    }
}

/// The sub-elements among the members of a node or sub-element.
pub open spec fn elements_member(o: Members, ctx: Seq<char>, depth: int) -> Out<
    Seq<ElementView>,
> {
    match items_member(o, "elements"@) {
        None => Ok(Seq::empty()),
        Some(a) => elements_from(a, 0, Seq::empty(), ctx, depth),
    }
}

fn get_elements(obj: &[(String, JsonValue)], ctx: &str, depth: usize) -> (r: Result<
    Vec<AdvanceElement>,
    String,
>)
    requires
        depth <= 17,
    ensures
        match elements_member(object_view(obj@), ctx@, depth as int) {
            Ok(a) => r is Ok && element_views(r->Ok_0@) == a,
            Err(m) => r is Err && r->Err_0@ == m,
        },
    decreases 18 - depth, 1int,
{
    let mut out: Vec<AdvanceElement> = Vec::new();
    assert(element_views(out@) =~= Seq::empty());
    if let Some(arr) = get_items(obj, "elements") {
        let ghost a = array_view(arr@);
        let mut i: usize = 0;
        while i < arr.len()
            invariant
                i <= arr@.len(),
                depth <= 17,
                a == array_view(arr@),
                elements_from(a, 0, Seq::empty(), ctx@, depth as int) == elements_from(
                    a,
                    i as int,
                    element_views(out@),
                    ctx@,
                    depth as int,
                ),
                elements_member(object_view(obj@), ctx@, depth as int) == elements_from(
                    a,
                    0,
                    Seq::empty(),
                    ctx@,
                    depth as int,
                ),
            decreases arr@.len() - i,
        {
            assert(a[i as int] == arr@[i as int]@);
            match parse_element_json(&arr[i], ctx, depth) {
                Err(m) => {
                    return Err(m);
                },
                Ok(x) => {
                    if element_index(&out, x.id.as_str()).is_some() {
                        return Err(
                            cat(
                                cat3(ctx, ": duplicate sub-element '", x.id.as_str()).as_str(),
                                "'",
                            ),
                        );
                    }
                    let ghost before = out@;
                    let ghost item = x@;
                    out.push(x);
                    assert(element_views(out@) =~= element_views(before).push(item));
                },
            }
            i += 1;
        }
    }
    Ok(out)
}

pub fn parse_element_json(v: &JsonValue, ctx: &str, depth: usize) -> (r: Result<
    AdvanceElement,
    String,
>)
    ensures
        match element_json(v@, ctx@, depth as int) {
            Ok(e) => r is Ok && r->Ok_0@ == e,
            Err(m) => r is Err && r->Err_0@ == m,
        },
    decreases 18 - depth, 0int,
{
    if depth > 16 {
        return Err(cat(ctx, ": sub-element nesting exceeds limit of 16"));
    }
    let obj = match as_object(v) {
        Some(o) => o,
        None => {
            return Err(cat(ctx, " sub-element must be an object"));
        },
    };
    let id = match get_string(obj, "id") {
        Some(s) => s,
        None => {
            return Err(cat(ctx, " sub-element missing 'id'"));
        },
    };
    match check_id("sub-element", id.as_str()) {
        Ok(_) => {},
        Err(m) => {
            return Err(m);
        },
    }
    let here = cat3(ctx, ".", id.as_str());
    let label = get_or(obj, "label", id.as_str());
    let anchors = match get_anchors(obj, here.as_str()) {
        Ok(a) => a,
        Err(m) => {
            return Err(m);
        },
    };
    let elements = match get_elements(obj, here.as_str(), depth + 1) {
        Ok(a) => a,
        Err(m) => {
            return Err(m);
        },
    };
    let layout = match get_layout(obj, here.as_str()) {
        Ok(l) => l,
        Err(m) => {
            return Err(m);
        },
    };
    let style = match get_node_style(obj) {
        Ok(s) => s,
        Err(m) => {
            return Err(m);
        },
    };
    Ok(AdvanceElement { id, label, anchors, elements, layout, style })
}

/// A lane object at the given nesting depth, at most sixteen, and the lane
/// ids seen so far with its own added. No id may occur twice.
pub open spec fn lane_json(v: Json, depth: int, ids: Seq<Seq<char>>) -> Out<
    (LaneView, Seq<Seq<char>>),
>
    decreases 18 - depth, 0int,
{
    if depth > 16 {
        Err("lane nesting depth exceeds limit of 16"@)
    } else {
        match members_of(v) {
            None => Err("lane must be an object"@),
            Some(o) => match text_member(o, "id"@) {
                None => Err("lane missing 'id'"@),
                Some(id) => if ids.contains(id) {
                    Err("duplicate lane id '"@ + id + "'"@)
                } else {
                    let inner = match items_member(o, "children"@) {
                        None => Ok((Seq::empty(), ids.push(id))),
                        Some(a) => lanes_from(a, 0, Seq::empty(), depth + 1, ids.push(id)),
                    };
                    match inner {
                        Err(m) => Err(m),
                        Ok((children, ids)) => Ok(
                            (LaneView { id, title: text_or(o, "title"@, id), children }, ids),
                        ),
                    }
                },
            },
        }
    }
}

/// The lanes of an array from item `i` on, after `acc`.
pub open spec fn lanes_from(
    a: Seq<Json>,
    i: int,
    acc: Seq<LaneView>,
    depth: int,
    ids: Seq<Seq<char>>,
) -> Out<(Seq<LaneView>, Seq<Seq<char>>)>
    decreases 18 - depth, a.len() - i + 1,
{
    if i < 0 || i >= a.len() {
        Ok((acc, ids))
    } else {
        match lane_json(a[i], depth, ids) {
            Err(m) => Err(m),
            Ok((lane, ids)) => lanes_from(a, i + 1, acc.push(lane), depth, ids),
        }
    }
}

/// Whether `name` is among the names.
pub fn has_name(names: &Vec<String>, name: &str) -> (r: bool)
    ensures
        r == strings(names@).contains(name@),
{
    let mut i: usize = 0;
    while i < names.len()
        invariant
            i <= names@.len(),
            forall|j: int| 0 <= j < i ==> (#[trigger] names@[j])@ != name@,
        decreases names@.len() - i,
    {
        if str_eq(names[i].as_str(), name) {
            assert(strings(names@)[i as int] == name@);
            return true;
        }
        i += 1;
    }
    assert forall|j: int| 0 <= j < strings(names@).len() implies strings(names@)[j] != name@ by {
        assert(strings(names@)[j] == names@[j]@);
    }
    false
}

fn parse_lanes(arr: &[JsonValue], depth: usize, lane_ids: &mut Vec<String>) -> (r: Result<
    Vec<AdvanceLane>,
    String,
>)
    requires
        depth <= 17,
    ensures
        match lanes_from(array_view(arr@), 0, Seq::empty(), depth as int, strings(old(lane_ids)@)) {
            Ok((lanes, ids)) => r is Ok && lane_views(r->Ok_0@) == lanes && strings(
                final(lane_ids)@,
            ) == ids,
            Err(m) => r is Err && r->Err_0@ == m,
        },
    decreases 18 - depth, 1int,
{
    let ghost a = array_view(arr@);
    let ghost start = strings(lane_ids@);
    let mut out: Vec<AdvanceLane> = Vec::new();
    assert(lane_views(out@) =~= Seq::empty());
    let mut i: usize = 0;
    while i < arr.len()
        invariant
            i <= arr@.len(),
            depth <= 17,
            a == array_view(arr@),
            start == strings(old(lane_ids)@),
            lanes_from(a, 0, Seq::empty(), depth as int, start) == lanes_from(
                a,
                i as int,
                lane_views(out@),
                depth as int,
                strings(lane_ids@),
            ),
        decreases arr@.len() - i,
    {
        assert(a[i as int] == arr@[i as int]@);
        match parse_lane_recursive(&arr[i], depth, lane_ids) {
            Err(m) => {
                return Err(m);
            },
            Ok(lane) => {
                let ghost before = out@;
                let ghost item = lane@;
                out.push(lane);
                assert(lane_views(out@) =~= lane_views(before).push(item));
            },
        }
        i += 1;
    }
    Ok(out)
}

pub fn parse_lane_recursive(v: &JsonValue, depth: usize, lane_ids: &mut Vec<String>) -> (r: Result<
    AdvanceLane,
    String,
>)
    ensures
        match lane_json(v@, depth as int, strings(old(lane_ids)@)) {
            Ok((lane, ids)) => r is Ok && r->Ok_0@ == lane && strings(final(lane_ids)@) == ids,
            Err(m) => r is Err && r->Err_0@ == m,
        },
    decreases 18 - depth, 0int,
{
    if depth > 16 {
        return Err("lane nesting depth exceeds limit of 16".to_owned());
    }
    let obj = match as_object(v) {
        Some(o) => o,
        None => {
            return Err("lane must be an object".to_owned());
        },
    };
    let id = match get_string(obj, "id") {
        Some(s) => s,
        None => {
            return Err("lane missing 'id'".to_owned());
        },
    };
    if has_name(lane_ids, id.as_str()) {
        return Err(cat3("duplicate lane id '", id.as_str(), "'"));
    }
    let ghost before = lane_ids@;
    lane_ids.push(id.clone());
    assert(strings(lane_ids@) =~= strings(before).push(id@));
    let title = get_or(obj, "title", id.as_str());
    let children = match get_items(obj, "children") {
        None => Vec::new(),
        Some(arr) => match parse_lanes(arr, depth + 1, lane_ids) {
            Ok(c) => c,
            Err(m) => {
                return Err(m);
            },
        },
    };
    assert(children@.len() == 0 ==> lane_views(children@) =~= Seq::empty());
    Ok(AdvanceLane { id, title, children })
}

/// The flow direction of the diagram.
pub open spec fn direction_member(o: Members) -> Out<AdvanceDirection> {
    match text_member(o, "direction"@) {
        None => Ok(AdvanceDirection::Vertical),
        Some(d) => if d == "vertical"@ {
            Ok(AdvanceDirection::Vertical)
        } else if d == "horizontal"@ {
            Ok(AdvanceDirection::Horizontal)
        } else {
            Err("unknown direction '"@ + d + "', expected 'vertical' or 'horizontal'"@)
        },
    }
}

fn get_direction(obj: &[(String, JsonValue)]) -> (r: Result<AdvanceDirection, String>)
    ensures
        match direction_member(object_view(obj@)) {
            Ok(d) => r is Ok && r->Ok_0 == d,
            Err(m) => r is Err && r->Err_0@ == m,
        },
{
    match get_str(obj, "direction") {
        None => Ok(AdvanceDirection::Vertical),
        Some(d) => if str_eq(d, "vertical") {
            Ok(AdvanceDirection::Vertical)
        } else if str_eq(d, "horizontal") {
            Ok(AdvanceDirection::Horizontal)
        } else {
            Err(cat3("unknown direction '", d, "', expected 'vertical' or 'horizontal'"))
        },
    }
}

/// The style keys that must be strings.
pub open spec fn is_style_key(k: Seq<char>) -> bool {
    k == "lane_fill"@ || k == "lane_stroke"@ || k == "edge_color"@ || k == "text_color"@ || k
        == "label_fill"@
}

/// `st` with the entry `k` set to `s`.
pub open spec fn set_style(st: StyleView, k: Seq<char>, s: Seq<char>) -> StyleView {
    if k == "lane_fill"@ {
        StyleView { lane_fill: s, ..st }
    } else if k == "lane_stroke"@ {
        StyleView { lane_stroke: s, ..st }
    } else if k == "edge_color"@ {
        StyleView { edge_color: s, ..st }
    } else if k == "text_color"@ {
        StyleView { text_color: s, ..st }
    } else {
        StyleView { label_fill: s, ..st }
    }
}

/// The members of a style object from number `i` on, applied to `st` in
/// order. Unknown keys are ignored.
pub open spec fn style_from(o: Members, i: int, st: StyleView) -> Out<StyleView>
    decreases o.len() - i,
{
    if i < 0 || i >= o.len() {
        Ok(st)
    } else if is_style_key(o[i].0) {
        match text_of(o[i].1) {
            None => Err("style."@ + o[i].0 + " must be a string"@),
            Some(s) => style_from(o, i + 1, set_style(st, o[i].0, s)),
        }
    } else {
        style_from(o, i + 1, st)
    }
}

/// The style of the diagram.
pub open spec fn diagram_style(o: Members) -> Out<StyleView> {
    match member(o, "style"@) {
        None => Ok(default_style()),
        Some(v) => match members_of(v) {
            None => Err("'style' must be an object"@),
            Some(m) => style_from(m, 0, default_style()),
        },
    }
}

fn get_diagram_style(obj: &[(String, JsonValue)]) -> (r: Result<AdvanceStyle, String>)
    ensures
        match diagram_style(object_view(obj@)) {
            Ok(s) => r is Ok && r->Ok_0@ == s,
            Err(m) => r is Err && r->Err_0@ == m,
        },
{
    let mut st = AdvanceStyle::default();
    let v = match obj_get(obj, "style") {
        None => {
            return Ok(st);
        },
        Some(v) => v,
    };
    let m = match as_object(v) {
        None => {
            return Err("'style' must be an object".to_owned());
        },
        Some(m) => m,
    };
    let ghost o = object_view(m@);
    let mut i: usize = 0;
    while i < m.len()
        invariant
            i <= m@.len(),
            o == object_view(m@),
            diagram_style(object_view(obj@)) == style_from(o, i as int, st@),
        decreases m@.len() - i,
    {
        assert(o[i as int] == (m@[i as int].0@, m@[i as int].1@));
        let k = m[i].0.as_str();
        let a = str_eq(k, "lane_fill");
        let b = str_eq(k, "lane_stroke");
        let c = str_eq(k, "edge_color");
        let d = str_eq(k, "text_color");
        if a || b || c || d || str_eq(k, "label_fill") {
            let s = match as_str(&m[i].1) {
                None => {
                    return Err(cat3("style.", k, " must be a string"));
                },
                Some(s) => s.to_owned(),
            };
            if a {
                st.lane_fill = s;
            } else if b {
                st.lane_stroke = s;
            } else if c {
                st.edge_color = s;
            } else if d {
                st.text_color = s;
            } else {
                st.label_fill = s;
            }
        }
        i += 1;
    }
    Ok(st)
}

/// The config keys that must be non-negative numbers.
pub open spec fn is_config_key(k: Seq<char>) -> bool {
    k == "margin"@ || k == "lane_gap"@ || k == "node_gap_y"@ || k == "lane_pad_x"@ || k
        == "lane_pad_y"@ || k == "lane_title_h"@
}

/// `c` with the entry `k` set to `n`.
pub open spec fn set_config(c: ConfigView, k: Seq<char>, n: Seq<char>) -> ConfigView {
    if k == "margin"@ {
        ConfigView { margin: n, ..c }
    } else if k == "lane_gap"@ {
        ConfigView { lane_gap: n, ..c }
    } else if k == "node_gap_y"@ {
        ConfigView { node_gap_y: n, ..c }
    } else if k == "lane_pad_x"@ {
        ConfigView { lane_pad_x: n, ..c }
    } else if k == "lane_pad_y"@ {
        ConfigView { lane_pad_y: n, ..c }
    } else {
        ConfigView { lane_title_h: n, ..c }
    }
}

impl AdvanceConfig {
    /// Whether `k` is a key that takes a number.
    pub fn is_number_key(k: &str) -> (r: bool)
        ensures
            r == is_config_key(k@),
    {
        str_eq(k, "margin") || str_eq(k, "lane_gap") || str_eq(k, "node_gap_y") || str_eq(
            k,
            "lane_pad_x",
        ) || str_eq(k, "lane_pad_y") || str_eq(k, "lane_title_h")
    }

    /// Set the entry `k` to `n`.
    pub fn set_number(&mut self, k: &str, n: Num)
        requires
            is_config_key(k@),
        ensures
            final(self)@ == set_config(old(self)@, k@, n@),
    {
        if str_eq(k, "margin") {
            self.margin = n;
        } else if str_eq(k, "lane_gap") {
            self.lane_gap = n;
        } else if str_eq(k, "node_gap_y") {
            self.node_gap_y = n;
        } else if str_eq(k, "lane_pad_x") {
            self.lane_pad_x = n;
        } else if str_eq(k, "lane_pad_y") {
            self.lane_pad_y = n;
        } else {
            self.lane_title_h = n;
        }
    }
}

/// The ordering that a keyword names.
pub open spec fn order_of(s: Seq<char>) -> Out<AdvanceOrder> {
    if s == "declaration"@ {
        Ok(AdvanceOrder::Declaration)
    } else if s == "topology"@ {
        Ok(AdvanceOrder::Topology)
    } else {
        Err("unknown config.order '"@ + s + "', expected 'declaration' or 'topology'"@)
    }
}

pub fn parse_order(s: &str) -> (r: Result<AdvanceOrder, String>)
    ensures
        match order_of(s@) {
            Ok(o) => r is Ok && r->Ok_0 == o,
            Err(m) => r is Err && r->Err_0@ == m,
        },
{
    if str_eq(s, "declaration") {
        Ok(AdvanceOrder::Declaration)
    } else if str_eq(s, "topology") {
        Ok(AdvanceOrder::Topology)
    } else {
        Err(cat3("unknown config.order '", s, "', expected 'declaration' or 'topology'"))
    }
}

/// The members of a config object from number `i` on, applied to `c` in
/// order. Unknown keys are ignored.
pub open spec fn config_from(o: Members, i: int, c: ConfigView) -> Out<ConfigView>
    decreases o.len() - i,
{
    if i < 0 || i >= o.len() {
        Ok(c)
    } else if is_config_key(o[i].0) {
        match number_of(o[i].1) {
            None => Err("config."@ + o[i].0 + " must be a number"@),
            Some(n) => if non_negative(n) {
                config_from(o, i + 1, set_config(c, o[i].0, n))
            } else {
                Err("config."@ + o[i].0 + " must be a non-negative finite number"@)
            },
        }
    } else if o[i].0 == "order"@ {
        match text_of(o[i].1) {
            None => Err("config.order must be a string"@),
            Some(s) => match order_of(s) {
                Err(m) => Err(m),
                Ok(order) => config_from(o, i + 1, ConfigView { order, ..c }),
            },
        }
    } else {
        config_from(o, i + 1, c)
    }
}

/// The configuration of the diagram.
pub open spec fn diagram_config(o: Members) -> Out<ConfigView> {
    match member(o, "config"@) {
        None => Ok(default_config()),
        Some(v) => match members_of(v) {
            None => Err("'config' must be an object"@),
            Some(m) => config_from(m, 0, default_config()),
        },
    }
}

fn get_diagram_config(obj: &[(String, JsonValue)]) -> (r: Result<AdvanceConfig, String>)
    ensures
        match diagram_config(object_view(obj@)) {
            Ok(s) => r is Ok && r->Ok_0@ == s,
            Err(m) => r is Err && r->Err_0@ == m,
        },
{
    let mut cfg = AdvanceConfig::default();
    let v = match obj_get(obj, "config") {
        None => {
            return Ok(cfg);
        },
        Some(v) => v,
    };
    let m = match as_object(v) {
        None => {
            return Err("'config' must be an object".to_owned());
        },
        Some(m) => m,
    };
    let ghost o = object_view(m@);
    let mut i: usize = 0;
    while i < m.len()
        invariant
            i <= m@.len(),
            o == object_view(m@),
            diagram_config(object_view(obj@)) == config_from(o, i as int, cfg@),
        decreases m@.len() - i,
    {
        assert(o[i as int] == (m@[i as int].0@, m@[i as int].1@));
        let k = m[i].0.as_str();
        if AdvanceConfig::is_number_key(k) {
            match as_number(&m[i].1) {
                None => {
                    return Err(cat3("config.", k, " must be a number"));
                },
                Some(n) => {
                    if !n.is_non_negative() {
                        return Err(cat3("config.", k, " must be a non-negative finite number"));
                    }
                    cfg.set_number(k, n);
                },
            }
        } else if str_eq(k, "order") {
            match as_str(&m[i].1) {
                None => {
                    return Err("config.order must be a string".to_owned());
                },
                Some(s) => match parse_order(s) {
                    Err(e) => {
                        return Err(e);
                    },
                    Ok(order) => {
                        cfg.order = order;
                    },
                },
            }
        }
        i += 1;
    }
    Ok(cfg)
}

/// How node number `i` is referred to in messages.
pub open spec fn nth_node(i: int) -> Seq<char> {
    "nodes["@ + decimal(i as nat) + "]"@
}

/// The shape of a node object.
pub open spec fn shape_member(o: Members) -> Out<Shape> {
    match text_member(o, "shape"@) {
        None => Ok(Shape::Rect),
        Some(s) => match shape_of(s) {
            Some(shape) => Ok(shape),
            None => Err(shape_of_error(s)),
        },
    }
}

fn get_shape(obj: &[(String, JsonValue)]) -> (r: Result<Shape, String>)
    ensures
        match shape_member(object_view(obj@)) {
            Ok(s) => r is Ok && r->Ok_0 == s,
            Err(m) => r is Err && r->Err_0@ == m,
        },
{
    match get_str(obj, "shape") {
        None => Ok(Shape::Rect),
        Some(s) => parse_shape(s),
    }
}

/// What may be wrong with the geometry of a node object: a coordinate or a
/// size out of range, or one coordinate without the other.
pub open spec fn geometry_error(o: Members, i: int, id: Seq<char>) -> Option<Seq<char>> {
    let x = number_member(o, "x"@);
    let y = number_member(o, "y"@);
    let w = number_member(o, "w"@);
    let h = number_member(o, "h"@);
    if x is Some && !finite(x->Some_0) {
        Some(nth_node(i) + ".x must be a finite number"@)
    } else if y is Some && !finite(y->Some_0) {
        Some(nth_node(i) + ".y must be a finite number"@)
    } else if w is Some && !positive(w->Some_0) {
        Some(nth_node(i) + ".w must be a positive finite number"@)
    } else if h is Some && !positive(h->Some_0) {
        Some(nth_node(i) + ".h must be a positive finite number"@)
    } else if x is Some != y is Some {
        Some(
            nth_node(i) + " ('"@ + id
                + "') has partial explicit coordinates (both x and y are required)"@,
        )
    } else {
        None
    }
}

fn check_geometry(
    x: &Option<Num>,
    y: &Option<Num>,
    w: &Option<Num>,
    h: &Option<Num>,
    i: usize,
    id: &str,
    Ghost(o): Ghost<Members>,
) -> (r: Option<String>)
    requires
        opt_num(*x) == number_member(o, "x"@),
        opt_num(*y) == number_member(o, "y"@),
        opt_num(*w) == number_member(o, "w"@),
        opt_num(*h) == number_member(o, "h"@),
    ensures
        opt_text(r) == geometry_error(o, i as int, id@),
{
    let nth = cat3("nodes[", decimal_string(i).as_str(), "]");
    if let Some(v) = x {
        if !v.is_finite() {
            return Some(cat(nth.as_str(), ".x must be a finite number"));
        }
    }
    if let Some(v) = y {
        if !v.is_finite() {
            return Some(cat(nth.as_str(), ".y must be a finite number"));
        }
    }
    if let Some(v) = w {
        if !v.is_positive() {
            return Some(cat(nth.as_str(), ".w must be a positive finite number"));
        }
    }
    if let Some(v) = h {
        if !v.is_positive() {
            return Some(cat(nth.as_str(), ".h must be a positive finite number"));
        }
    }
    if x.is_some() != y.is_some() {
        return Some(
            cat(
                cat3(nth.as_str(), " ('", id).as_str(),
                "') has partial explicit coordinates (both x and y are required)",
            ),
        );
    }
    None
}

/// The inside of a node: anchors, sub-elements and their layout.
pub open spec fn node_inside(o: Members, ctx: Seq<char>) -> Out<
    (Seq<AnchorView>, Seq<ElementView>, ElementLayout),
> {
    match anchors_member(o, ctx) {
        Err(m) => Err(m),
        Ok(anchors) => match elements_member(o, ctx, 1) {
            Err(m) => Err(m),
            Ok(elements) => match layout_member(o, ctx) {
                Err(m) => Err(m),
                Ok(layout) => Ok((anchors, elements, layout)),
            },
        },
    }
}

fn get_inside(obj: &[(String, JsonValue)], ctx: &str) -> (r: Result<
    (Vec<AdvanceAnchor>, Vec<AdvanceElement>, ElementLayout),
    String,
>)
    ensures
        match node_inside(object_view(obj@), ctx@) {
            Ok((a, e, l)) => r is Ok && anchor_views(r->Ok_0.0@) == a && element_views(r->Ok_0.1@)
                == e && r->Ok_0.2 == l,
            Err(m) => r is Err && r->Err_0@ == m,
        },
{
    let anchors = match get_anchors(obj, ctx) {
        Ok(a) => a,
        Err(m) => {
            return Err(m);
        },
    };
    let elements = match get_elements(obj, ctx, 1) {
        Ok(a) => a,
        Err(m) => {
            return Err(m);
        },
    };
    match get_layout(obj, ctx) {
        Ok(l) => Ok((anchors, elements, l)),
        Err(m) => Err(m),
    }
}

/// The node with the given id and lane, from the other members.
pub open spec fn node_rest(o: Members, i: int, id: Seq<char>, lane: Seq<char>) -> Out<
    LaneNodeView,
> {
    match shape_member(o) {
        Err(m) => Err(m),
        Ok(shape) => match style_member(o) {
            Err(m) => Err(m),
            Ok(style) => match geometry_error(o, i, id) {
                Some(m) => Err(m),
                None => match id_check("node"@, id) {
                    Err(m) => Err(m),
                    Ok(_) => match node_inside(o, nth_node(i) + " ('"@ + id + "')"@) {
                        Err(m) => Err(m),
                        Ok((anchors, elements, layout)) => Ok(
                            LaneNodeView {
                                id,
                                label: text_or(o, "label"@, id),
                                lane,
                                shape,
                                x: number_member(o, "x"@),
                                y: number_member(o, "y"@),
                                w: number_member(o, "w"@),
                                h: number_member(o, "h"@),
                                style,
                                anchors,
                                elements,
                                layout,
                            },
                        ),
                    },
                },
            },
        },
    }
}

fn parse_node_rest(obj: &[(String, JsonValue)], i: usize, id: String, lane: String) -> (r: Result<
    AdvanceNode,
    String,
>)
    ensures
        match node_rest(object_view(obj@), i as int, id@, lane@) {
            Ok(n) => r is Ok && r->Ok_0@ == n,
            Err(m) => r is Err && r->Err_0@ == m,
        },
{
    let ghost o = object_view(obj@);
    let label = get_or(obj, "label", id.as_str());
    let shape = match get_shape(obj) {
        Ok(s) => s,
        Err(m) => {
            return Err(m);
        },
    };
    let style = match get_node_style(obj) {
        Ok(s) => s,
        Err(m) => {
            return Err(m);
        },
    };
    let x = get_number(obj, "x");
    let y = get_number(obj, "y");
    let w = get_number(obj, "w");
    let h = get_number(obj, "h");
    if let Some(m) = check_geometry(&x, &y, &w, &h, i, id.as_str(), Ghost(o)) {
        return Err(m);
    }
    match check_id("node", id.as_str()) {
        Ok(_) => {},
        Err(m) => {
            return Err(m);
        },
    }
    let nth = cat3("nodes[", decimal_string(i).as_str(), "]");
    let ctx = cat(cat3(nth.as_str(), " ('", id.as_str()).as_str(), "')");
    match get_inside(obj, ctx.as_str()) {
        Err(m) => Err(m),
        Ok((anchors, elements, layout)) => Ok(
            AdvanceNode { id, label, lane, shape, x, y, w, h, style, anchors, elements, layout },
        ),
    }
}

/// Node object number `i`, with `lanes` the declared lanes and `ids` the
/// ids of the nodes before it.
pub open spec fn node_json(v: Json, i: int, lanes: Seq<Seq<char>>, ids: Seq<Seq<char>>) -> Out<
    LaneNodeView,
> {
    match members_of(v) {
        None => Err(nth_node(i) + " must be an object"@),
        Some(o) => match text_member(o, "id"@) {
            None => Err(nth_node(i) + " missing 'id'"@),
            Some(id) => if name_index(ids, id) is Some {
                Err("duplicate node id '"@ + id + "'"@)
            } else {
                match text_member(o, "lane"@) {
                    None => Err(nth_node(i) + " missing 'lane'"@),
                    Some(lane) => if !lanes.contains(lane) {
                        Err(nth_node(i) + " references unknown lane '"@ + lane + "'"@)
                    } else {
                        node_rest(o, i, id, lane)
                    },
                }
            },
        },
    }
}

fn parse_node_json(
    v: &JsonValue,
    i: usize,
    lanes: &Vec<String>,
    nodes: &Vec<AdvanceNode>,
) -> (r: Result<AdvanceNode, String>)
    ensures
        match node_json(
            v@,
            i as int,
            strings(lanes@),
            lane_node_ids(lane_node_views(nodes@)),
        ) {
            Ok(n) => r is Ok && r->Ok_0@ == n,
            Err(m) => r is Err && r->Err_0@ == m,
        },
{
    let nth = cat3("nodes[", decimal_string(i).as_str(), "]");
    let obj = match as_object(v) {
        Some(o) => o,
        None => {
            return Err(cat(nth.as_str(), " must be an object"));
        },
    };
    let id = match get_string(obj, "id") {
        Some(s) => s,
        None => {
            return Err(cat(nth.as_str(), " missing 'id'"));
        },
    };
    if lane_node_index(nodes, id.as_str()).is_some() {
        return Err(cat3("duplicate node id '", id.as_str(), "'"));
    }
    let lane = match get_string(obj, "lane") {
        Some(s) => s,
        None => {
            return Err(cat(nth.as_str(), " missing 'lane'"));
        },
    };
    if !has_name(lanes, lane.as_str()) {
        return Err(
            cat(cat3(nth.as_str(), " references unknown lane '", lane.as_str()).as_str(), "'"),
        );
    }
    parse_node_rest(obj, i, id, lane)
}

/// The nodes of an array from item `i` on, after `acc`.
pub open spec fn nodes_from(
    a: Seq<Json>,
    i: int,
    acc: Seq<LaneNodeView>,
    lanes: Seq<Seq<char>>,
) -> Out<Seq<LaneNodeView>>
    decreases a.len() - i,
{
    if i < 0 || i >= a.len() {
        Ok(acc)
    } else {
        match node_json(a[i], i, lanes, lane_node_ids(acc)) {
            Err(m) => Err(m),
            Ok(n) => nodes_from(a, i + 1, acc.push(n), lanes),
        }
    }
}

fn parse_nodes(arr: &[JsonValue], lanes: &Vec<String>) -> (r: Result<Vec<AdvanceNode>, String>)
    ensures
        match nodes_from(array_view(arr@), 0, Seq::empty(), strings(lanes@)) {
            Ok(n) => r is Ok && lane_node_views(r->Ok_0@) == n,
            Err(m) => r is Err && r->Err_0@ == m,
        },
{
    let ghost a = array_view(arr@);
    let mut out: Vec<AdvanceNode> = Vec::new();
    assert(lane_node_views(out@) =~= Seq::empty());
    let mut i: usize = 0;
    while i < arr.len()
        invariant
            i <= arr@.len(),
            a == array_view(arr@),
            nodes_from(a, 0, Seq::empty(), strings(lanes@)) == nodes_from(
                a,
                i as int,
                lane_node_views(out@),
                strings(lanes@),
            ),
        decreases arr@.len() - i,
    {
        assert(a[i as int] == arr@[i as int]@);
        match parse_node_json(&arr[i], i, lanes, &out) {
            Err(m) => {
                return Err(m);
            },
            Ok(n) => {
                let ghost before = out@;
                let ghost item = n@;
                out.push(n);
                assert(lane_node_views(out@) =~= lane_node_views(before).push(item));
            },
        }
        i += 1;
    }
    Ok(out)
}

/// Whether some node is placed and some node is not.
pub open spec fn partly_placed(nodes: Seq<LaneNodeView>) -> bool {
    (exists|i: int| 0 <= i < nodes.len() && (#[trigger] nodes[i]).x is Some) && (exists|i: int|
        0 <= i < nodes.len() && (#[trigger] nodes[i]).x is None)
}

fn is_partly_placed(nodes: &Vec<AdvanceNode>) -> (r: bool)
    ensures
        r == partly_placed(lane_node_views(nodes@)),
{
    let ghost views = lane_node_views(nodes@);
    let mut some = false;
    let mut none = false;
    let mut i: usize = 0;
    while i < nodes.len()
        invariant
            i <= nodes@.len(),
            views == lane_node_views(nodes@),
            some <==> exists|j: int| 0 <= j < i && (#[trigger] views[j]).x is Some,
            none <==> exists|j: int| 0 <= j < i && (#[trigger] views[j]).x is None,
        decreases nodes@.len() - i,
    {
        assert(views[i as int] == nodes@[i as int]@);
        if nodes[i].x.is_some() {
            some = true;
        } else {
            none = true;
        }
        i += 1;
    }
    some && none
}

/// How edge number `i` is referred to in messages.
pub open spec fn nth_edge(i: int) -> Seq<char> {
    "edges["@ + decimal(i as nat) + "]"@
}

/// The side that the member `key` of an edge object asks for; `auto` asks
/// for none.
pub open spec fn side_member(o: Members, key: Seq<char>) -> Out<Option<AdvanceSide>> {
    match member(o, key) {
        None => Ok(None),
        Some(v) => match text_of(v) {
            None => Err("side must be a string"@),
            Some(s) => if s == "auto"@ {
                Ok(None)
            } else {
                match side_of(s) {
                    Some(side) => Ok(Some(side)),
                    None => Err(
                        "unknown side '"@ + s
                            + "', expected one of left, right, top, bottom, auto"@,
                    ),
                }
            },
        },
    }
}

pub fn parse_side_json(v: &JsonValue) -> (r: Result<Option<AdvanceSide>, String>)
    ensures
        match text_of(v@) {
            None => r is Err && r->Err_0@ == "side must be a string"@,
            Some(s) => if s == "auto"@ {
                r == Ok::<Option<AdvanceSide>, String>(None)
            } else {
                match side_of(s) {
                    Some(side) => r == Ok::<Option<AdvanceSide>, String>(Some(side)),
                    None => r is Err && r->Err_0@ == "unknown side '"@ + s
                        + "', expected one of left, right, top, bottom, auto"@,
                }
            },
        },
{
    match as_str(v) {
        None => Err("side must be a string".to_owned()),
        Some(s) => if str_eq(s, "auto") {
            Ok(None)
        } else {
            match parse_side(chars_of(s).as_slice()) {
                Some(side) => Ok(Some(side)),
                None => Err(
                    cat3(
                        "unknown side '",
                        s,
                        "', expected one of left, right, top, bottom, auto",
                    ),
                ),
            }
        },
    }
}

fn get_side(obj: &[(String, JsonValue)], key: &str) -> (r: Result<Option<AdvanceSide>, String>)
    ensures
        match side_member(object_view(obj@), key@) {
            Ok(s) => r is Ok && r->Ok_0 == s,
            Err(m) => r is Err && r->Err_0@ == m,
        },
{
    match obj_get(obj, key) {
        None => Ok(None),
        Some(v) => parse_side_json(v),
    }
}

/// `end` with the side filled in where it names neither side nor anchor.
pub open spec fn fill_side(end: EndView, side: Option<AdvanceSide>) -> EndView {
    if end.at is None && side is Some {
        EndView { at: Some(AnchorRefView::Side(side->Some_0)), ..end }
    } else {
        end
    }
}

fn fill_end(end: AdvanceEnd, side: Option<AdvanceSide>) -> (r: AdvanceEnd)
    ensures
        r@ == fill_side(end@, side),
{
    let mut end = end;
    if let Some(s) = side {
        if end.at.is_none() {
            end.at = Some(AnchorRef::Side(s));
        }
    }
    end
}

/// The kind of an edge object.
pub open spec fn kind_member(o: Members) -> Out<EdgeKind> {
    match text_member(o, "kind"@) {
        None => Ok(EdgeKind::Arrow),
        Some(s) => match edge_kind_of(s) {
            Some(k) => Ok(k),
            None => Err(edge_kind_of_error(s)),
        },
    }
}

fn get_kind(obj: &[(String, JsonValue)]) -> (r: Result<EdgeKind, String>)
    ensures
        match kind_member(object_view(obj@)) {
            Ok(s) => r is Ok && r->Ok_0 == s,
            Err(m) => r is Err && r->Err_0@ == m,
        },
{
    match get_str(obj, "kind") {
        None => Ok(EdgeKind::Arrow),
        Some(s) => parse_edge_kind(s),
    }
}

/// The style among the members of an edge.
pub open spec fn edge_style_member(o: Members) -> Out<EdgeStyleView> {
    match member(o, "style"@) {
        Some(v) => edge_style_of(v),
        None => Ok(no_edge_style()),
    }
}

fn get_edge_style(obj: &[(String, JsonValue)]) -> (r: Result<AdvanceEdgeStyle, String>)
    ensures
        match edge_style_member(object_view(obj@)) {
            Ok(s) => r is Ok && r->Ok_0@ == s,
            Err(m) => r is Err && r->Err_0@ == m,
        },
{
    match obj_get(obj, "style") {
        Some(v) => parse_edge_style_json(v),
        None => Ok(AdvanceEdgeStyle::default()),
    }
}

/// The edge whose ends `from` and `to` are, once their sides are resolved.
pub open spec fn edge_rest(
    o: Members,
    i: int,
    nodes: Seq<LaneNodeView>,
    from: EndView,
    to: EndView,
) -> Out<LaneEdgeView> {
    match kind_member(o) {
        Err(m) => Err(m),
        Ok(kind) => match edge_style_member(o) {
            Err(m) => Err(m),
            Ok(style) => match side_member(o, "from_side"@) {
                Err(m) => Err(m),
                Ok(fs) => match side_member(o, "to_side"@) {
                    Err(m) => Err(m),
                    Ok(ts) => {
                        let from_end = fill_side(from, fs);
                        let to_end = fill_side(to, ts);
                        match end_side(nodes, from_end) {
                            Err(m) => Err(nth_edge(i) + ": "@ + m),
                            Ok(from_side) => match end_side(nodes, to_end) {
                                Err(m) => Err(nth_edge(i) + ": "@ + m),
                                Ok(to_side) => Ok(
                                    LaneEdgeView {
                                        from: from_end.node,
                                        to: to_end.node,
                                        label: text_member(o, "label"@),
                                        kind,
                                        style,
                                        from_side,
                                        to_side,
                                        from_end,
                                        to_end,
                                    },
                                ),
                            },
                        }
                    },
                },
            },
        },
    }
}

fn parse_edge_rest(
    obj: &[(String, JsonValue)],
    i: usize,
    nodes: &Vec<AdvanceNode>,
    from: AdvanceEnd,
    to: AdvanceEnd,
) -> (r: Result<AdvanceEdge, String>)
    ensures
        match edge_rest(object_view(obj@), i as int, lane_node_views(nodes@), from@, to@) {
            Ok(e) => r is Ok && r->Ok_0@ == e,
            Err(m) => r is Err && r->Err_0@ == m,
        },
{
    let label = get_string(obj, "label");
    let kind = match get_kind(obj) {
        Ok(k) => k,
        Err(m) => {
            return Err(m);
        },
    };
    let style = match get_edge_style(obj) {
        Ok(s) => s,
        Err(m) => {
            return Err(m);
        },
    };
    let from_end = match get_side(obj, "from_side") {
        Ok(s) => fill_end(from, s),
        Err(m) => {
            return Err(m);
        },
    };
    let to_end = match get_side(obj, "to_side") {
        Ok(s) => fill_end(to, s),
        Err(m) => {
            return Err(m);
        },
    };
    let nth = cat3("edges[", decimal_string(i).as_str(), "]");
    let from_side = match resolve_end_side(nodes, &from_end) {
        Ok(s) => s,
        Err(m) => {
            return Err(cat3(nth.as_str(), ": ", m.as_str()));
        },
    };
    let to_side = match resolve_end_side(nodes, &to_end) {
        Ok(s) => s,
        Err(m) => {
            return Err(cat3(nth.as_str(), ": ", m.as_str()));
        },
    };
    Ok(
        AdvanceEdge {
            from: from_end.node.clone(),
            to: to_end.node.clone(),
            label,
            kind,
            style,
            from_side,
            to_side,
            from_end,
            to_end,
        },
    )
}

/// Edge object number `i` over the given nodes.
pub open spec fn edge_json(v: Json, i: int, nodes: Seq<LaneNodeView>) -> Out<LaneEdgeView> {
    match members_of(v) {
        None => Err(nth_edge(i) + " must be an object"@),
        Some(o) => match text_member(o, "from"@) {
            None => Err(nth_edge(i) + " missing 'from'"@),
            Some(from) => match text_member(o, "to"@) {
                None => Err(nth_edge(i) + " missing 'to'"@),
                Some(to) => match end_of(from) {
                    Err(m) => Err(nth_edge(i) + ": "@ + m),
                    Ok(from) => match end_of(to) {
                        Err(m) => Err(nth_edge(i) + ": "@ + m),
                        Ok(to) => edge_rest(o, i, nodes, from, to),
                    },
                },
            },
        },
    }
}

fn parse_edge_json(v: &JsonValue, i: usize, nodes: &Vec<AdvanceNode>) -> (r: Result<
    AdvanceEdge,
    String,
>)
    ensures
        match edge_json(v@, i as int, lane_node_views(nodes@)) {
            Ok(e) => r is Ok && r->Ok_0@ == e,
            Err(m) => r is Err && r->Err_0@ == m,
        },
{
    let nth = cat3("edges[", decimal_string(i).as_str(), "]");
    let obj = match as_object(v) {
        Some(o) => o,
        None => {
            return Err(cat(nth.as_str(), " must be an object"));
        },
    };
    let from = match get_str(obj, "from") {
        Some(s) => s,
        None => {
            return Err(cat(nth.as_str(), " missing 'from'"));
        },
    };
    let to = match get_str(obj, "to") {
        Some(s) => s,
        None => {
            return Err(cat(nth.as_str(), " missing 'to'"));
        },
    };
    let from_end = match parse_end(chars_of(from).as_slice()) {
        Ok(e) => e,
        Err(m) => {
            return Err(cat3(nth.as_str(), ": ", m.as_str()));
        },
    };
    let to_end = match parse_end(chars_of(to).as_slice()) {
        Ok(e) => e,
        Err(m) => {
            return Err(cat3(nth.as_str(), ": ", m.as_str()));
        },
    };
    parse_edge_rest(obj, i, nodes, from_end, to_end)
}

/// The edges of an array from item `i` on, after `acc`.
pub open spec fn edges_from(
    a: Seq<Json>,
    i: int,
    acc: Seq<LaneEdgeView>,
    nodes: Seq<LaneNodeView>,
) -> Out<Seq<LaneEdgeView>>
    decreases a.len() - i,
{
    if i < 0 || i >= a.len() {
        Ok(acc)
    } else {
        match edge_json(a[i], i, nodes) {
            Err(m) => Err(m),
            Ok(e) => edges_from(a, i + 1, acc.push(e), nodes),
        }
    }
}

fn parse_edges(arr: &[JsonValue], nodes: &Vec<AdvanceNode>) -> (r: Result<Vec<AdvanceEdge>, String>)
    ensures
        match edges_from(array_view(arr@), 0, Seq::empty(), lane_node_views(nodes@)) {
            Ok(e) => r is Ok && lane_edge_views(r->Ok_0@) == e,
            Err(m) => r is Err && r->Err_0@ == m,
        },
{
    let ghost a = array_view(arr@);
    let ghost views = lane_node_views(nodes@);
    let mut out: Vec<AdvanceEdge> = Vec::new();
    assert(lane_edge_views(out@) =~= Seq::empty());
    let mut i: usize = 0;
    while i < arr.len()
        invariant
            i <= arr@.len(),
            a == array_view(arr@),
            views == lane_node_views(nodes@),
            edges_from(a, 0, Seq::empty(), views) == edges_from(
                a,
                i as int,
                lane_edge_views(out@),
                views,
            ),
        decreases arr@.len() - i,
    {
        assert(a[i as int] == arr@[i as int]@);
        match parse_edge_json(&arr[i], i, nodes) {
            Err(m) => {
                return Err(m);
            },
            Ok(e) => {
                let ghost before = out@;
                let ghost item = e@;
                out.push(e);
                assert(lane_edge_views(out@) =~= lane_edge_views(before).push(item));
            },
        }
        i += 1;
    }
    Ok(out)
}

/// The lanes, nodes and edges of a diagram object.
pub open spec fn content_of(o: Members) -> Out<
    (Seq<LaneView>, Seq<LaneNodeView>, Seq<LaneEdgeView>),
> {
    match items_member(o, "lanes"@) {
        None => Err("advance source must have a 'lanes' array"@),
        Some(la) => match items_member(o, "nodes"@) {
            None => Err("advance source must have a 'nodes' array"@),
            Some(na) => {
                let ea = match items_member(o, "edges"@) {
                    Some(a) => a,
                    None => Seq::empty(),
                };
                match lanes_from(la, 0, Seq::empty(), 1, Seq::empty()) {
                    Err(m) => Err(m),
                    Ok((lanes, ids)) => match nodes_from(na, 0, Seq::empty(), ids) {
                        Err(m) => Err(m),
                        Ok(nodes) => if partly_placed(nodes) {
                            Err(
                                "if any node specifies explicit coordinates (x, y), all nodes must specify them"@,
                            )
                        } else {
                            match edges_from(ea, 0, Seq::empty(), nodes) {
                                Err(m) => Err(m),
                                Ok(edges) => Ok((lanes, nodes, edges)),
                            }
                        },
                    },
                }
            },
        },
    }
}

fn get_content(obj: &[(String, JsonValue)]) -> (r: Result<
    (Vec<AdvanceLane>, Vec<AdvanceNode>, Vec<AdvanceEdge>),
    String,
>)
    ensures
        match content_of(object_view(obj@)) {
            Ok((l, n, e)) => r is Ok && lane_views(r->Ok_0.0@) == l && lane_node_views(r->Ok_0.1@)
                == n && lane_edge_views(r->Ok_0.2@) == e,
            Err(m) => r is Err && r->Err_0@ == m,
        },
{
    let la = match get_items(obj, "lanes") {
        Some(a) => a,
        None => {
            return Err("advance source must have a 'lanes' array".to_owned());
        },
    };
    let na = match get_items(obj, "nodes") {
        Some(a) => a,
        None => {
            return Err("advance source must have a 'nodes' array".to_owned());
        },
    };
    let ea = get_items(obj, "edges");
    let mut ids: Vec<String> = Vec::new();
    assert(strings(ids@) =~= Seq::empty());
    let lanes = match parse_lanes(la, 1, &mut ids) {
        Ok(l) => l,
        Err(m) => {
            return Err(m);
        },
    };
    let nodes = match parse_nodes(na, &ids) {
        Ok(n) => n,
        Err(m) => {
            return Err(m);
        },
    };
    if is_partly_placed(&nodes) {
        return Err(
            "if any node specifies explicit coordinates (x, y), all nodes must specify them".to_owned(),
        );
    }
    let mut edges: Vec<AdvanceEdge> = Vec::new();
    assert(lane_edge_views(edges@) =~= Seq::empty());
    if let Some(a) = ea {
        edges = match parse_edges(a, &nodes) {
            Ok(e) => e,
            Err(m) => {
                return Err(m);
            },
        };
    }
    Ok((lanes, nodes, edges))
}

/// The diagram that a JSON value denotes.
pub open spec fn diagram_of(v: Json) -> Out<DiagramView> {
    match members_of(v) {
        None => Err("advance source must be a JSON object"@),
        Some(o) => match direction_member(o) {
            Err(m) => Err(m),
            Ok(direction) => match diagram_style(o) {
                Err(m) => Err(m),
                Ok(style) => match diagram_config(o) {
                    Err(m) => Err(m),
                    Ok(config) => match content_of(o) {
                        Err(m) => Err(m),
                        Ok((lanes, nodes, edges)) => Ok(
                            DiagramView {
                                title: text_member(o, "title"@),
                                description: text_member(o, "description"@),
                                direction,
                                style,
                                config,
                                lanes,
                                nodes,
                                edges,
                            },
                        ),
                    },
                },
            },
        },
    }
}

/// The diagram that a JSON text denotes.
pub open spec fn diagram_of_text(s: Seq<char>) -> Out<DiagramView> {
    match read_json(s) {
        Err(m) => Err(m),
        Ok(v) => diagram_of(v),
    }
}

fn parse_diagram(v: &JsonValue) -> (r: Result<AdvanceDiagram, String>)
    ensures
        match diagram_of(v@) {
            Ok(d) => r is Ok && r->Ok_0@ == d,
            Err(m) => r is Err && r->Err_0@ == m,
        },
{
    let obj = match as_object(v) {
        Some(o) => o,
        None => {
            return Err("advance source must be a JSON object".to_owned());
        },
    };
    let title = get_string(obj, "title");
    let description = get_string(obj, "description");
    let direction = match get_direction(obj) {
        Ok(d) => d,
        Err(m) => {
            return Err(m);
        },
    };
    let style = match get_diagram_style(obj) {
        Ok(s) => s,
        Err(m) => {
            return Err(m);
        },
    };
    let config = match get_diagram_config(obj) {
        Ok(c) => c,
        Err(m) => {
            return Err(m);
        },
    };
    match get_content(obj) {
        Err(m) => Err(m),
        Ok((lanes, nodes, edges)) => Ok(
            AdvanceDiagram { title, description, direction, style, config, lanes, nodes, edges },
        ),
    }
}

impl AdvanceDiagram {
    /// Read a diagram from JSON.
    pub fn parse(source: &str) -> (r: Result<Self, AdvanceError>)
        ensures
            match diagram_of_text(source@) {
                Ok(d) => r is Ok && r->Ok_0@ == d,
                Err(m) => r is Err && r->Err_0.message@ == m,
            },
    {
        match parse_json(source) {
            Err(e) => Err(e),
            Ok(v) => match parse_diagram(&v) {
                Ok(d) => Ok(d),
                Err(m) => Err(adv_err(m)),
            },
        }
    }
}

} // verus!
