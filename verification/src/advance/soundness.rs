//! Diagrams that were read survive being written and read again.

use vstd::prelude::*;

use crate::advance::end_laws::{clear_end, ends_in_side, plain_anchor, plain_name};
use crate::advance::ends::{
    anchor_ids, cut_anchor, dotted, element_ids, end_host, end_of, end_side, has_empty, id_check,
    lane_node_ids, reserved_from, trimmed, walk, Exposed,
};
use crate::advance::read_json::{
    anchor_json, anchors_from, anchors_member, config_from, content_of, diagram_of_text, edge_json,
    edge_style_member, edges_from, element_json, elements_from, is_config_key, items_member,
    lane_json, lanes_from, node_inside, node_json, node_rest, nodes_from, number_member, px_of,
    set_config, style_member, text_member, width_member, Members,
};
use crate::advance::round_trip::{
    edge_tenth, edges_tenth, element_tenth, elements_tenth, lane_ids, lanes_fit,
    law_diagram_reads_back, node_tenth, nodes_tenth, opt_tenth, rounded, sound, sound_anchors,
    sound_config, sound_edge, sound_element, sound_elements, sound_node, sound_size,
};
use crate::advance::write_json::diagram_value;
use crate::advance::{
    default_config, AdvanceSide, AnchorRefView, AnchorView, ConfigView, DiagramView, ElementLayout,
    ElementView, EndView, LaneEdgeView, LaneNodeView, LaneView,
};
use crate::json::{
    at, lemma_read_chars, lemma_read_value, lemma_skip_white, member, members_of, print_json,
    read_items, read_json, read_members, read_string, read_value, skip_white, Json,
};
use crate::model::{distinct, lemma_name_from, lemma_push_name, name_index};
use crate::num::{finite, in_unit, non_negative, number, positive};
use crate::num_laws::{law_number_reads_back, lemma_half, lemma_two_digits, measure};
use crate::text::{
    has_char, is_digit, is_white, last_index, lemma_last_index, split_seq, trim_end_seq, trim_seq,
    trim_start_seq,
};

verus! {

/// Whether all finite numbers of a value are in canonical form.
pub open spec fn canon(v: Json) -> bool
    decreases v,
{
    match v {
        Json::Number(n) => finite(n) ==> measure(n),
        Json::Array(a) => forall|i: int| 0 <= i < a.len() ==> canon(#[trigger] a[i]),
        Json::Object(o) => forall|i: int| 0 <= i < o.len() ==> canon((#[trigger] o[i]).1),
        _ => true,
    }
}

spec fn canon_items(a: Seq<Json>) -> bool {
    forall|i: int| 0 <= i < a.len() ==> canon(#[trigger] a[i])
}

spec fn canon_members(o: Members) -> bool {
    forall|i: int| 0 <= i < o.len() ==> canon((#[trigger] o[i]).1)
}

proof fn lemma_canon_value(s: Seq<char>, p: int)
    requires
        0 <= p <= s.len(),
    ensures
        read_value(s, p) matches Ok((v, e)) ==> canon(v),
    decreases s.len() - p, 1int,
{
    lemma_skip_white(s, p);
    let q = skip_white(s, p);
    if q < s.len() {
        lemma_skip_white(s, q + 1);
        let r = skip_white(s, q + 1);
        if s[q] == '{' {
            lemma_canon_members(s, r, Seq::empty());
        } else if s[q] == '[' {
            lemma_canon_items(s, r, Seq::empty());
        } else if s[q] == '-' || is_digit(s[q]) {
            let t = s.subrange(q, crate::json::number_end(s, q));
            if let Some(n) = number(t) {
                if finite(n) {
                    law_number_reads_back(t, n);
                }
            }
        }
    }
}

proof fn lemma_canon_items(s: Seq<char>, p: int, acc: Seq<Json>)
    requires
        0 <= p <= s.len(),
        canon_items(acc),
    ensures
        read_items(s, p, acc) matches Ok((v, e)) ==> canon(v),
    decreases s.len() - p, 2int,
{
    lemma_read_value(s, p);
    lemma_canon_value(s, p);
    if let Ok((v, e)) = read_value(s, p) {
        lemma_skip_white(s, e);
        let q = skip_white(s, e);
        let more = acc.push(v);
        assert(canon_items(more)) by {
            assert forall|i: int| 0 <= i < more.len() implies canon(#[trigger] more[i]) by {
                if i < acc.len() {
                    assert(more[i] == acc[i]);
                }
            }
        }
        if at(s, q) == Some(',') {
            lemma_canon_items(s, q + 1, more);
        }
    }
}

proof fn lemma_canon_members(s: Seq<char>, p: int, acc: Members)
    requires
        0 <= p <= s.len(),
        canon_members(acc),
    ensures
        read_members(s, p, acc) matches Ok((v, e)) ==> canon(v),
    decreases s.len() - p, 2int,
{
    lemma_skip_white(s, p);
    let p1 = skip_white(s, p);
    if p1 < s.len() {
        lemma_read_chars(s, p1 + 1, Seq::empty());
    }
    if let Ok((key, e)) = read_string(s, p1) {
        lemma_skip_white(s, e);
        let q = skip_white(s, e);
        if at(s, q) == Some(':') {
            lemma_read_value(s, q + 1);
            lemma_canon_value(s, q + 1);
            if let Ok((v, e2)) = read_value(s, q + 1) {
                lemma_skip_white(s, e2);
                let r = skip_white(s, e2);
                let more = acc.push((key, v));
                assert(canon_members(more)) by {
                    assert forall|i: int| 0 <= i < more.len() implies canon(
                        (#[trigger] more[i]).1,
                    ) by {
                        if i < acc.len() {
                            assert(more[i] == acc[i]);
                        }
                    }
                }
                if at(s, r) == Some(',') {
                    lemma_canon_members(s, r + 1, more);
                }
            }
        }
    }
}

/// Numbers that were read are in canonical form.
pub proof fn law_read_numbers_are_canonical(s: Seq<char>)
    ensures
        read_json(s) matches Ok(v) ==> canon(v),
{
    lemma_canon_value(s, 0);
}

proof fn lemma_member_canon(o: Members, key: Seq<char>)
    requires
        canon_members(o),
    ensures
        member(o, key) matches Some(v) ==> canon(v),
    decreases o.len(),
{
    if o.len() > 0 {
        if o[0].0 == key {
            assert(canon(o[0].1));
        } else {
            let rest = o.skip(1);
            assert forall|i: int| 0 <= i < rest.len() implies canon((#[trigger] rest[i]).1) by {
                assert(rest[i] == o[i + 1]);
            }
            lemma_member_canon(rest, key);
        }
    }
}

proof fn lemma_inside(v: Json)
    requires
        canon(v),
    ensures
        members_of(v) matches Some(o) ==> canon_members(o),
{
}

proof fn lemma_items_canon(o: Members, key: Seq<char>)
    requires
        canon_members(o),
    ensures
        items_member(o, key) matches Some(a) ==> canon_items(a),
{
    lemma_member_canon(o, key);
}

proof fn lemma_number_canon(o: Members, key: Seq<char>)
    requires
        canon_members(o),
    ensures
        number_member(o, key) matches Some(n) ==> (finite(n) ==> measure(n)),
{
    lemma_member_canon(o, key);
}

/// A size as it is read: positive, in canonical form.
pub open spec fn size_read(n: Option<Seq<char>>) -> bool {
    n matches Some(n) ==> measure(n) && positive(n)
}

proof fn lemma_width(o: Members)
    requires
        canon_members(o),
    ensures
        width_member(o) matches Ok(n) ==> size_read(n),
{
    lemma_member_canon(o, "stroke-width"@);
    if let Some(v) = member(o, "stroke-width"@) {
        if let Ok(n) = px_of(v) {
            match v {
                Json::Text(s) => {
                    let t = trim_seq(
                        crate::text::strip_all_suffix(trim_seq(s), "px"@),
                    );
                    law_number_reads_back(t, n);
                },
                _ => {},
            }
        }
    }
}

proof fn lemma_style(o: Members)
    requires
        canon_members(o),
    ensures
        style_member(o) matches Ok(s) ==> size_read(s.stroke_width),
        edge_style_member(o) matches Ok(s) ==> size_read(s.stroke_width),
{
    lemma_member_canon(o, "style"@);
    if let Some(v) = member(o, "style"@) {
        lemma_inside(v);
        if let Some(m) = members_of(v) {
            lemma_width(m);
        }
    }
}

proof fn lemma_anchor(v: Json, ctx: Seq<char>)
    requires
        canon(v),
    ensures
        anchor_json(v, ctx) matches Ok(a) ==> id_check("anchor"@, a.id) is Ok && measure(a.offset)
            && in_unit(a.offset),
{
    lemma_inside(v);
    lemma_half();
    if let Some(o) = members_of(v) {
        lemma_member_canon(o, "offset"@);
    }
}

proof fn lemma_anchors(a: Seq<Json>, i: int, acc: Seq<AnchorView>, ctx: Seq<char>)
    requires
        canon_items(a),
        0 <= i,
        sound_anchors(acc),
    ensures
        anchors_from(a, i, acc, ctx) matches Ok(s) ==> sound_anchors(s),
    decreases a.len() - i,
{
    if i < a.len() {
        lemma_anchor(a[i], ctx);
        if let Ok(x) = anchor_json(a[i], ctx) {
            if name_index(anchor_ids(acc), x.id) is None {
                let more = acc.push(x);
                lemma_push_name(anchor_ids(acc), x.id);
                assert(anchor_ids(more) =~= anchor_ids(acc).push(x.id));
                assert(sound_anchors(more));
                lemma_anchors(a, i + 1, more, ctx);
            }
        }
    }
}

proof fn lemma_anchors_member(o: Members, ctx: Seq<char>)
    requires
        canon_members(o),
    ensures
        anchors_member(o, ctx) matches Ok(s) ==> sound_anchors(s),
{
    lemma_items_canon(o, "anchors"@);
    if let Some(a) = items_member(o, "anchors"@) {
        lemma_anchors(a, 0, Seq::empty(), ctx);
    }
}

/// A sub-element as it is read.
pub open spec fn element_read(e: ElementView, room: int) -> bool
    decreases e,
{
    &&& room > 0
    &&& id_check("sub-element"@, e.id) is Ok
    &&& sound_anchors(e.anchors)
    &&& elements_read(e.elements, room - 1)
    &&& size_read(e.style.stroke_width)
}

pub open spec fn elements_read(s: Seq<ElementView>, room: int) -> bool
    decreases s,
{
    distinct(element_ids(s)) && forall|i: int|
        0 <= i < s.len() ==> element_read(#[trigger] s[i], room)
}

proof fn lemma_element(v: Json, ctx: Seq<char>, depth: int)
    requires
        canon(v),
    ensures
        element_json(v, ctx, depth) matches Ok(e) ==> element_read(e, 17 - depth),
    decreases 18 - depth, 0int,
{
    lemma_inside(v);
    if depth <= 16 {
        if let Some(o) = members_of(v) {
            if let Some(id) = text_member(o, "id"@) {
                let here = ctx + "."@ + id;
                lemma_anchors_member(o, here);
                lemma_items_canon(o, "elements"@);
                lemma_style(o);
                if let Some(a) = items_member(o, "elements"@) {
                    lemma_elements(a, 0, Seq::empty(), here, depth + 1);
                }
                if let Ok(e) = element_json(v, ctx, depth) {
                    assert(elements_read(e.elements, 16 - depth)) by {
                        assert(elements_read(Seq::empty(), 16 - depth));
                    }
                }
            }
        }
    }
}

proof fn lemma_elements(
    a: Seq<Json>,
    i: int,
    acc: Seq<ElementView>,
    ctx: Seq<char>,
    depth: int,
)
    requires
        canon_items(a),
        0 <= i,
        elements_read(acc, 17 - depth),
    ensures
        elements_from(a, i, acc, ctx, depth) matches Ok(s) ==> elements_read(s, 17 - depth),
    decreases 18 - depth, a.len() - i + 1,
{
    if i < a.len() && depth <= 16 {
        lemma_element(a[i], ctx, depth);
        if let Ok(x) = element_json(a[i], ctx, depth) {
            if name_index(element_ids(acc), x.id) is None {
                let more = acc.push(x);
                lemma_push_name(element_ids(acc), x.id);
                assert(element_ids(more) =~= element_ids(acc).push(x.id));
                assert(elements_read(more, 17 - depth)) by {
                    assert forall|j: int| 0 <= j < more.len() implies element_read(
                        #[trigger] more[j],
                        17 - depth,
                    ) by {
                        if j < acc.len() {
                            assert(element_read(acc[j], 17 - depth));
                        }
                    }
                }
                lemma_elements(a, i + 1, more, ctx, depth);
            }
        }
    }
}

/// A size that rounding keeps is sound.
proof fn lemma_size(n: Option<Seq<char>>)
    requires
        size_read(n),
        opt_tenth(n) == n,
    ensures
        sound_size(n),
{
}

proof fn lemma_exact_element(e: ElementView, room: int)
    requires
        element_read(e, room),
        element_tenth(e) == e,
    ensures
        sound_element(e, room),
    decreases e,
{
    lemma_size(e.style.stroke_width);
    assert(elements_tenth(e.elements) == e.elements);
    lemma_exact_elements(e.elements, room - 1);
}

proof fn lemma_exact_elements(s: Seq<ElementView>, room: int)
    requires
        elements_read(s, room),
        elements_tenth(s) == s,
    ensures
        sound_elements(s, room),
    decreases s,
{
    assert forall|i: int| 0 <= i < s.len() implies sound_element(#[trigger] s[i], room) by {
        assert(elements_tenth(s)[i] == element_tenth(s[i]));
        assert(element_read(s[i], room));
        lemma_exact_element(s[i], room);
    }
}

/// Reading a lane adds its ids in their order.
proof fn lemma_lane(v: Json, depth: int, ids: Seq<Seq<char>>)
    requires
        distinct(ids),
    ensures
        lane_json(v, depth, ids) matches Ok((lane, more)) ==> {
            &&& more == ids + (seq![lane.id] + lane_ids(lane.children))
            &&& distinct(more)
            &&& depth <= 16
            &&& lanes_fit(lane.children, 16 - depth)
        },
    decreases 18 - depth, 0int,
{
    if depth <= 16 {
        if let Some(o) = members_of(v) {
            if let Some(id) = text_member(o, "id"@) {
                if !ids.contains(id) {
                    let with = ids.push(id);
                    assert(distinct(with)) by {
                        assert forall|i: int, j: int| 0 <= i < j < with.len() implies with[i]
                            != with[j] by {
                            if j == ids.len() {
                                assert(ids.contains(ids[i]));
                            }
                        }
                    }
                    if let Some(a) = items_member(o, "children"@) {
                        lemma_lanes(a, 0, Seq::empty(), depth + 1, with);
                        if let Ok((children, more)) = lanes_from(
                            a,
                            0,
                            Seq::empty(),
                            depth + 1,
                            with,
                        ) {
                            assert(children.skip(0) =~= children);
                            assert(more =~= ids + (seq![id] + lane_ids(children)));
                        }
                    } else {
                        assert(lane_ids(Seq::empty()) =~= Seq::empty());
                        assert(with =~= ids + (seq![id] + lane_ids(Seq::empty())));
                    }
                }
            }
        }
    }
}

proof fn lemma_lanes(
    a: Seq<Json>,
    i: int,
    acc: Seq<LaneView>,
    depth: int,
    ids: Seq<Seq<char>>,
)
    requires
        0 <= i,
        distinct(ids),
        lanes_fit(acc, 17 - depth),
    ensures
        lanes_from(a, i, acc, depth, ids) matches Ok((lanes, more)) ==> {
            &&& acc.len() <= lanes.len()
            &&& more == ids + lane_ids(lanes.skip(acc.len() as int))
            &&& lanes.take(acc.len() as int) == acc
            &&& distinct(more)
            &&& lanes_fit(lanes, 17 - depth)
        },
    decreases 18 - depth, a.len() - i + 1,
{
    if i < a.len() {
        if depth <= 16 {
            lemma_lane(a[i], depth, ids);
            if let Ok((lane, more)) = lane_json(a[i], depth, ids) {
                let next = acc.push(lane);
                assert(lanes_fit(next, 17 - depth)) by {
                    assert forall|j: int| 0 <= j < next.len() implies 17 - depth > 0 && lanes_fit(
                        (#[trigger] next[j]).children,
                        16 - depth,
                    ) by {
                        if j < acc.len() {
                            assert(lanes_fit(acc[j].children, 17 - depth - 1));
                        }
                    }
                }
                lemma_lanes(a, i + 1, next, depth, more);
                if let Ok((lanes, all)) = lanes_from(a, i + 1, next, depth, more) {
                    let k = acc.len() as int;
                    let part = lanes.skip(k);
                    assert(lanes.take(k + 1)[k] == lane);
                    assert(part[0] == lane);
                    assert(part.skip(1) =~= lanes.skip(k + 1));
                    assert(lane_ids(part) == seq![lane.id] + lane_ids(lane.children) + lane_ids(
                        part.skip(1),
                    ));
                    assert(all =~= ids + lane_ids(part));
                    assert(lanes.take(k) =~= acc) by {
                        assert forall|j: int| 0 <= j < k implies lanes[j] == acc[j] by {
                            assert(lanes.take(k + 1)[j] == next[j]);
                        }
                    }
                }
            }
        }
    } else {
        assert(acc.skip(acc.len() as int) =~= Seq::empty());
        assert(ids =~= ids + lane_ids(Seq::empty()));
        assert(acc.take(acc.len() as int) =~= acc);
    }
}

/// A node as it is read.
pub open spec fn node_read(n: LaneNodeView, lanes: Seq<Seq<char>>) -> bool {
    &&& lanes.contains(n.lane)
    &&& id_check("node"@, n.id) is Ok
    &&& n.x matches Some(x) ==> measure(x)
    &&& n.y matches Some(y) ==> measure(y)
    &&& n.x is Some == n.y is Some
    &&& size_read(n.w)
    &&& size_read(n.h)
    &&& size_read(n.style.stroke_width)
    &&& sound_anchors(n.anchors)
    &&& elements_read(n.elements, 16)
}

proof fn lemma_node(v: Json, i: int, lanes: Seq<Seq<char>>, ids: Seq<Seq<char>>)
    requires
        canon(v),
    ensures
        node_json(v, i, lanes, ids) matches Ok(n) ==> node_read(n, lanes) && name_index(ids, n.id)
            is None,
{
    lemma_inside(v);
    if let Some(o) = members_of(v) {
        if let Ok(n) = node_json(v, i, lanes, ids) {
            let id = n.id;
            let ctx = crate::advance::read_json::nth_node(i) + " ('"@ + id + "')"@;
            assert(node_rest(o, i, id, n.lane) == Ok::<LaneNodeView, Seq<char>>(n));
            lemma_number_canon(o, "x"@);
            lemma_number_canon(o, "y"@);
            lemma_number_canon(o, "w"@);
            lemma_number_canon(o, "h"@);
            lemma_style(o);
            lemma_anchors_member(o, ctx);
            lemma_items_canon(o, "elements"@);
            if let Some(a) = items_member(o, "elements"@) {
                lemma_elements(a, 0, Seq::empty(), ctx, 1);
            }
            assert(elements_read(Seq::empty(), 16));
            assert(node_inside(o, ctx) is Ok);
        }
    }
}

/// Nodes as they are read.
pub open spec fn nodes_read(n: Seq<LaneNodeView>, lanes: Seq<Seq<char>>) -> bool {
    distinct(lane_node_ids(n)) && forall|i: int|
        0 <= i < n.len() ==> node_read(#[trigger] n[i], lanes)
}

proof fn lemma_nodes(a: Seq<Json>, i: int, acc: Seq<LaneNodeView>, lanes: Seq<Seq<char>>)
    requires
        canon_items(a),
        0 <= i,
        nodes_read(acc, lanes),
    ensures
        nodes_from(a, i, acc, lanes) matches Ok(n) ==> nodes_read(n, lanes),
    decreases a.len() - i,
{
    if i < a.len() {
        lemma_node(a[i], i, lanes, lane_node_ids(acc));
        if let Ok(n) = node_json(a[i], i, lanes, lane_node_ids(acc)) {
            let more = acc.push(n);
            lemma_push_name(lane_node_ids(acc), n.id);
            assert(lane_node_ids(more) =~= lane_node_ids(acc).push(n.id));
            assert(nodes_read(more, lanes)) by {
                assert forall|j: int| 0 <= j < more.len() implies node_read(
                    #[trigger] more[j],
                    lanes,
                ) by {
                    if j < acc.len() {
                        assert(node_read(acc[j], lanes));
                    }
                }
            }
            lemma_nodes(a, i + 1, more, lanes);
        }
    }
}

proof fn lemma_exact_node(n: LaneNodeView, lanes: Seq<Seq<char>>)
    requires
        node_read(n, lanes),
        node_tenth(n) == n,
    ensures
        sound_node(n, lanes),
{
    lemma_size(n.w);
    lemma_size(n.h);
    assert(opt_tenth(n.x) == n.x && opt_tenth(n.y) == n.y);
    assert(n.style.stroke_width == opt_tenth(n.style.stroke_width));
    lemma_size(n.style.stroke_width);
    assert(elements_tenth(n.elements) == n.elements);
    lemma_exact_elements(n.elements, 16);
}

proof fn lemma_trim_start(s: Seq<char>)
    ensures
        trim_start_seq(s).len() > 0 ==> !is_white(trim_start_seq(s)[0]),
    decreases s.len(),
{
    if s.len() > 0 && is_white(s[0]) {
        lemma_trim_start(s.skip(1));
    }
}

proof fn lemma_trim_end(s: Seq<char>)
    ensures
        trim_end_seq(s).len() > 0 ==> !is_white(trim_end_seq(s).last()) && trim_end_seq(s)[0]
            == s[0],
    decreases s.len(),
{
    if s.len() > 0 && is_white(s.last()) {
        lemma_trim_end(s.drop_last());
    }
}

/// A trimmed text has no white space around it.
proof fn lemma_trimmed(s: Seq<char>)
    ensures
        trim_seq(s).len() > 0 ==> !is_white(trim_seq(s)[0]) && !is_white(trim_seq(s).last()),
{
    lemma_trim_start(s);
    lemma_trim_end(trim_start_seq(s));
}

/// Whether no name of an end is empty or has white space around it.
pub open spec fn trimmed_end(e: EndView) -> bool {
    &&& e.node.len() > 0 && !is_white(e.node[0]) && !is_white(e.node.last())
    &&& forall|i: int|
        0 <= i < e.path.len() ==> (#[trigger] e.path[i]).len() > 0 && !is_white(e.path[i][0])
            && !is_white(e.path[i].last())
    &&& e.at matches Some(AnchorRefView::Named(a)) ==> plain_anchor(a)
}

proof fn lemma_end(text: Seq<char>)
    ensures
        end_of(text) matches Ok(e) ==> trimmed_end(e),
{
    let s = trim_seq(text);
    lemma_trimmed(text);
    if let Ok(e) = end_of(text) {
        let (head, at) = cut_anchor(s)->Ok_0;
        let parts = split_seq(head, '.');
        let names = trimmed(parts);
        lemma_parts(head, '.');
        lemma_trimmed(parts[0]);
        assert(names[0] == trim_seq(parts[0]));
        assert forall|i: int| 0 <= i < e.path.len() implies (#[trigger] e.path[i]).len() > 0
            && !is_white(e.path[i][0]) && !is_white(e.path[i].last()) by {
            let rest = names.skip(1);
            assert(e.path[i] == rest[i]);
            assert(rest[i] == names[i + 1]);
            assert(names[i + 1] == trim_seq(parts[i + 1]));
            lemma_trimmed(parts[i + 1]);
            assert(!has_empty(rest));
            assert(rest[i].len() != 0);
        }
        lemma_last_index(s, '@');
        if let Some(k) = last_index(s, '@') {
            let a = s.skip(k + 1);
            assert(at == Some(AnchorRefView::Named(a)));
            assert(a.last() == s.last());
            assert forall|j: int| 0 <= j < a.len() implies a[j] != '@' by {
                assert(a[j] == s[k + 1 + j]);
            }
        }
    }
}

proof fn lemma_parts(s: Seq<char>, c: char)
    ensures
        split_seq(s, c).len() > 0,
    decreases s.len(),
{
}

proof fn lemma_reserved(s: Seq<char>, i: int)
    requires
        0 <= i,
        reserved_from(s, i) is None,
    ensures
        forall|j: int| i <= j < s.len() ==> s[j] != '.' && s[j] != '@',
    decreases s.len() - i,
{
    if i < s.len() {
        lemma_reserved(s, i + 1);
    }
}

/// Whether a name holds none of the separators of references.
spec fn unreserved(name: Seq<char>) -> bool {
    !has_char(name, '.') && !has_char(name, '@')
}

proof fn lemma_unreserved(kind: Seq<char>, id: Seq<char>)
    requires
        id_check(kind, id) is Ok,
    ensures
        unreserved(id),
{
    lemma_reserved(id, 0);
}

proof fn lemma_walk(
    node: Seq<char>,
    elems: Seq<ElementView>,
    layout: ElementLayout,
    exposed: Exposed,
    path: Seq<Seq<char>>,
    room: int,
)
    requires
        elements_read(elems, room),
        walk(node, elems, layout, exposed, path) is Ok,
    ensures
        forall|i: int| 0 <= i < path.len() ==> unreserved(#[trigger] path[i]),
    decreases path.len(),
{
    let ids = element_ids(elems);
    lemma_name_from(ids, path[0], 0);
    let k = name_index(ids, path[0])->Some_0;
    let e = elems[k];
    assert(ids[k] == e.id);
    assert(element_read(e, room));
    lemma_unreserved("sub-element"@, e.id);
    let here = crate::advance::ends::both_exposed(
        exposed,
        crate::advance::ends::exposed_child(layout, elems.len() as int, k),
    );
    if path.len() > 1 {
        lemma_walk(node, e.elements, e.layout, here, path.skip(1), room - 1);
    }
    assert forall|i: int| 0 <= i < path.len() implies unreserved(#[trigger] path[i]) by {
        if i > 0 {
            assert(path.skip(1)[i - 1] == path[i]);
        }
    }
}

/// The names of an end that was found hold no separators.
proof fn lemma_found(nodes: Seq<LaneNodeView>, lanes: Seq<Seq<char>>, end: EndView)
    requires
        nodes_read(nodes, lanes),
        end_side(nodes, end) is Ok,
    ensures
        unreserved(end.node),
        forall|i: int| 0 <= i < end.path.len() ==> unreserved(#[trigger] end.path[i]),
{
    let ids = lane_node_ids(nodes);
    assert(end_host(nodes, end) is Ok);
    lemma_name_from(ids, end.node, 0);
    let k = name_index(ids, end.node)->Some_0;
    assert(ids[k] == nodes[k].id);
    assert(node_read(nodes[k], lanes));
    lemma_unreserved("node"@, nodes[k].id);
    if end.path.len() > 0 {
        lemma_walk(
            nodes[k].id,
            nodes[k].elements,
            nodes[k].layout,
            crate::advance::ends::all_exposed(),
            end.path,
            16,
        );
    }
}

/// Whether the names of an end do not read as if they named a side: they end
/// in no colon and side keyword, or an anchor follows.
pub open spec fn side_free(e: EndView) -> bool {
    e.at matches Some(AnchorRefView::Named(_)) || !ends_in_side(dotted(e.node, e.path))
}

/// Whether no end of an edge reads as if it named a side.
pub open spec fn sides_clear(d: DiagramView) -> bool {
    forall|i: int|
        0 <= i < d.edges.len() ==> side_free((#[trigger] d.edges[i]).from_end) && side_free(
            d.edges[i].to_end,
        )
}

/// An edge as it is read.
pub open spec fn edge_read(e: LaneEdgeView, nodes: Seq<LaneNodeView>) -> bool {
    &&& trimmed_end(e.from_end)
    &&& trimmed_end(e.to_end)
    &&& e.from == e.from_end.node
    &&& e.to == e.to_end.node
    &&& end_side(nodes, e.from_end) == Ok::<Option<AdvanceSide>, Seq<char>>(e.from_side)
    &&& end_side(nodes, e.to_end) == Ok::<Option<AdvanceSide>, Seq<char>>(e.to_side)
    &&& size_read(e.style.stroke_width)
}

proof fn lemma_edge(v: Json, i: int, nodes: Seq<LaneNodeView>)
    requires
        canon(v),
    ensures
        edge_json(v, i, nodes) matches Ok(e) ==> edge_read(e, nodes),
{
    lemma_inside(v);
    if let Some(o) = members_of(v) {
        lemma_style(o);
        if let Some(from) = text_member(o, "from"@) {
            lemma_end(from);
        }
        if let Some(to) = text_member(o, "to"@) {
            lemma_end(to);
        }
    }
}

proof fn lemma_edges(a: Seq<Json>, i: int, acc: Seq<LaneEdgeView>, nodes: Seq<LaneNodeView>)
    requires
        canon_items(a),
        0 <= i,
        forall|k: int| 0 <= k < acc.len() ==> edge_read(#[trigger] acc[k], nodes),
    ensures
        edges_from(a, i, acc, nodes) matches Ok(s) ==> forall|k: int|
            0 <= k < s.len() ==> edge_read(#[trigger] s[k], nodes),
    decreases a.len() - i,
{
    if i < a.len() {
        lemma_edge(a[i], i, nodes);
        if let Ok(e) = edge_json(a[i], i, nodes) {
            lemma_edges(a, i + 1, acc.push(e), nodes);
        }
    }
}

proof fn lemma_exact_edge(e: LaneEdgeView, nodes: Seq<LaneNodeView>, lanes: Seq<Seq<char>>)
    requires
        nodes_read(nodes, lanes),
        edge_read(e, nodes),
        edge_tenth(e) == e,
        side_free(e.from_end),
        side_free(e.to_end),
    ensures
        sound_edge(e, nodes),
{
    lemma_found(nodes, lanes, e.from_end);
    lemma_found(nodes, lanes, e.to_end);
    assert(e.style.stroke_width == opt_tenth(e.style.stroke_width));
    lemma_size(e.style.stroke_width);
    lemma_clear(e.from_end);
    lemma_clear(e.to_end);
}

proof fn lemma_clear(e: EndView)
    requires
        trimmed_end(e),
        unreserved(e.node),
        forall|i: int| 0 <= i < e.path.len() ==> unreserved(#[trigger] e.path[i]),
        side_free(e),
    ensures
        clear_end(e),
{
    assert forall|i: int| 0 <= i < e.path.len() implies plain_name(#[trigger] e.path[i]) by {
        assert(unreserved(e.path[i]));
    }
}

/// Distances as they are read.
pub open spec fn config_read(c: ConfigView) -> bool {
    &&& measure(c.margin) && non_negative(c.margin)
    &&& measure(c.lane_gap) && non_negative(c.lane_gap)
    &&& measure(c.node_gap_y) && non_negative(c.node_gap_y)
    &&& measure(c.lane_pad_x) && non_negative(c.lane_pad_x)
    &&& measure(c.lane_pad_y) && non_negative(c.lane_pad_y)
    &&& measure(c.lane_title_h) && non_negative(c.lane_title_h)
}

proof fn lemma_default_config()
    ensures
        config_read(default_config()),
{
    reveal_strlit("24");
    reveal_strlit("40");
    reveal_strlit("48");
    reveal_strlit("20");
    reveal_strlit("26");
    lemma_two_digits("24"@);
    lemma_two_digits("40"@);
    lemma_two_digits("48"@);
    lemma_two_digits("20"@);
    lemma_two_digits("26"@);
}

proof fn lemma_config(o: Members, i: int, c: ConfigView)
    requires
        canon_members(o),
        0 <= i,
        config_read(c),
    ensures
        config_from(o, i, c) matches Ok(r) ==> config_read(r),
    decreases o.len() - i,
{
    if i < o.len() {
        assert(canon(o[i].1));
        if is_config_key(o[i].0) {
            if let Json::Number(n) = o[i].1 {
                if non_negative(n) {
                    lemma_config(o, i + 1, set_config(c, o[i].0, n));
                }
            }
        } else {
            lemma_config(o, i + 1, c);
            if let Json::Text(s) = o[i].1 {
                if let Ok(order) = crate::advance::read_json::order_of(s) {
                    lemma_config(o, i + 1, ConfigView { order, ..c });
                }
            }
        }
    }
}

/// What is read of the distances, the lanes, the nodes and the edges of a
/// diagram.
pub proof fn lemma_read_parts(text: Seq<char>, d: DiagramView)
    requires
        diagram_of_text(text) == Ok::<DiagramView, Seq<char>>(d),
    ensures
        config_read(d.config),
        lanes_fit(d.lanes, 16),
        distinct(lane_ids(d.lanes)),
        nodes_read(d.nodes, lane_ids(d.lanes)),
        forall|i: int| 0 <= i < d.edges.len() ==> edge_read(#[trigger] d.edges[i], d.nodes),
{
    law_read_numbers_are_canonical(text);
    let v = read_json(text)->Ok_0;
    lemma_inside(v);
    let o = members_of(v)->Some_0;
    lemma_default_config();
    lemma_member_canon(o, "config"@);
    if let Some(m) = member(o, "config"@) {
        lemma_inside(m);
        if let Some(c) = members_of(m) {
            lemma_config(c, 0, default_config());
        }
    }
    assert(config_read(d.config));
    lemma_items_canon(o, "lanes"@);
    lemma_items_canon(o, "nodes"@);
    lemma_items_canon(o, "edges"@);
    let la = items_member(o, "lanes"@)->Some_0;
    let na = items_member(o, "nodes"@)->Some_0;
    let ea = match items_member(o, "edges"@) {
        Some(a) => a,
        None => Seq::empty(),
    };
    assert(content_of(o) is Ok);
    lemma_lanes(la, 0, Seq::empty(), 1, Seq::empty());
    let ids = lanes_from(la, 0, Seq::empty(), 1, Seq::empty())->Ok_0.1;
    assert(d.lanes.skip(0) =~= d.lanes);
    assert(Seq::<Seq<char>>::empty() + lane_ids(d.lanes) =~= lane_ids(d.lanes));
    lemma_nodes(na, 0, Seq::empty(), ids);
    lemma_edges(ea, 0, Seq::empty(), d.nodes);
}

/// A diagram that was read and whose measures have one decimal at most is
/// sound, as long as no end of an edge reads as if it named a side.
pub proof fn law_parsed_diagram_is_sound(text: Seq<char>, d: DiagramView)
    requires
        diagram_of_text(text) == Ok::<DiagramView, Seq<char>>(d),
        rounded(d) == d,
        sides_clear(d),
    ensures
        sound(d),
{
    lemma_read_parts(text, d);
    let ids = lane_ids(d.lanes);
    assert(rounded(d).config == d.config);
    assert(sound_config(d.config));
    assert(nodes_tenth(d.nodes) == d.nodes);
    assert forall|i: int| 0 <= i < d.nodes.len() implies sound_node(#[trigger] d.nodes[i], ids) by {
        assert(nodes_tenth(d.nodes)[i] == node_tenth(d.nodes[i]));
        assert(node_read(d.nodes[i], ids));
        lemma_exact_node(d.nodes[i], ids);
    }
    assert(edges_tenth(d.edges) == d.edges);
    assert forall|i: int| 0 <= i < d.edges.len() implies sound_edge(#[trigger] d.edges[i], d.nodes) by {
        assert(edges_tenth(d.edges)[i] == edge_tenth(d.edges[i]));
        lemma_exact_edge(d.edges[i], d.nodes, ids);
    }
}

/// No distance of a diagram that was read is negative, and every width and
/// height that it gives a node is positive.
pub proof fn law_read_sizes_are_not_negative(text: Seq<char>, d: DiagramView)
    requires
        diagram_of_text(text) == Ok::<DiagramView, Seq<char>>(d),
    ensures
        non_negative(d.config.margin),
        non_negative(d.config.lane_gap),
        non_negative(d.config.node_gap_y),
        non_negative(d.config.lane_pad_x),
        non_negative(d.config.lane_pad_y),
        non_negative(d.config.lane_title_h),
        forall|i: int|
            0 <= i < d.nodes.len() ==> ((#[trigger] d.nodes[i]).w matches Some(w) ==> positive(w)) && (
            d.nodes[i].h matches Some(h) ==> positive(h)),
{
    lemma_read_parts(text, d);
    assert forall|i: int| 0 <= i < d.nodes.len() implies ((#[trigger] d.nodes[i]).w matches Some(w)
        ==> positive(w)) && (d.nodes[i].h matches Some(h) ==> positive(h)) by {
        assert(node_read(d.nodes[i], lane_ids(d.lanes)));
    }
}

/// A diagram that was read and whose measures have one decimal at most
/// survives being written and read again, as long as no end of an edge reads
/// as if it named a side.
pub proof fn law_parsed_diagram_reads_back(text: Seq<char>, d: DiagramView)
    requires
        diagram_of_text(text) == Ok::<DiagramView, Seq<char>>(d),
        rounded(d) == d,
        sides_clear(d),
    ensures
        diagram_of_text(print_json(diagram_value(d))) == Ok::<DiagramView, Seq<char>>(d),
{
    law_parsed_diagram_is_sound(text, d);
    law_diagram_reads_back(d);
}

} // verus!
