//! Arrowheads of pictures that share a counter have ids of their own.

use vstd::prelude::*;

use crate::advance::place::measure::text_px;
use crate::advance::placed_laws::lemma_placed_readable;
use crate::advance::read_json::diagram_of_text;
use crate::advance::render::{pictures, scene_of};
use crate::advance::scene::{
    shown, Point, Px, SceneEdgeView, SceneElementView, SceneLaneView, SceneNodeView, SceneView,
};
use crate::advance::scene_laws::{lemma_shown, node_readable, readable, width_readable};
use crate::advance::svg::{
    aspect, dash_attr, definitions, description, edge_colour, edge_label, edge_svg, edge_width,
    edges_svg, label_place, lane_svg, lanes_svg, marker, marker_colours, marker_id, marker_number,
    marker_ref, markers, nodes_svg, opening, path, path_to, root_size, scene_colours, scene_svg,
    title_place,
};
use crate::advance::svg_node::{
    circle, compartment, compartments, corners, cylinder, half_band, half_block, has_children,
    label_block, least, length, node_paint, node_svg, outline, paint_attrs, pixels, polygon, rect,
    shape_colours, sides, stroke_attrs, stroke_width, text_line, text_lines, upright, Paint, Sides,
    ThemeView, FONT_SIZE, LINE_H,
};
use crate::advance::{AdvanceDirection, DiagramView, StyleView};
use crate::json::{at, skip_digits};
use crate::json_laws::number_text;
use crate::markup::{
    attribute, escaped, inert, is_markup, law_escaped_is_inert, or_default, style_text,
};
use crate::model::{arrowed, name_index, EdgeKind, Shape};
use crate::num::tenths;
use crate::num_laws::law_tenths_read;
use crate::text::{decimal, digit_char, is_digit, lemma_decimal_differs, occurs_at, split_seq};

verus! {

/// The id of arrowhead `n` as it is written in its definition.
pub open spec fn id_attribute(n: nat) -> Seq<char> {
    "id=\"advance-arrow-"@ + decimal(n) + "\""@
}

/// Whether a text defines arrowhead `n`.
pub open spec fn defines(text: Seq<char>, n: nat) -> bool {
    exists|p: int| #[trigger] occurs_at(text, id_attribute(n), p)
}

/// What every id of an arrowhead begins with, from its second letter on.
spec fn starts_at(s: Seq<char>, q: int) -> bool {
    0 <= q && q + 3 < s.len() && s[q] == 'd' && s[q + 1] == '=' && s[q + 2] == '"' && s[q + 3]
        == 'a'
}

/// The id of arrowhead `n` from its second letter on.
spec fn rest_of_id(n: nat) -> Seq<char> {
    id_attribute(n).skip(1)
}

spec fn told(s: Seq<char>, q: int, ns: Set<nat>) -> bool {
    exists|n: nat| ns.contains(n) && #[trigger] occurs_at(s, rest_of_id(n), q)
}

/// Whether `s` defines no arrowhead but those in `ns`, wherever it is
/// appended to another such text.
#[verifier::opaque]
spec fn lists_only(s: Seq<char>, ns: Set<nat>) -> bool {
    &&& s.len() > 0 ==> s[0] != '=' && s[0] != 'a'
    &&& s.len() > 1 && s[0] == '"' ==> s[1] != 'a'
    &&& forall|q: int| #[trigger] starts_at(s, q) ==> told(s, q, ns)
}

broadcast proof fn lemma_join(a: Seq<char>, b: Seq<char>, ns: Set<nat>)
    requires
        lists_only(a, ns),
        lists_only(b, ns),
    ensures
        #[trigger] lists_only(a + b, ns),
{
    reveal(lists_only);
    let s = a + b;
    assert forall|q: int| #[trigger] starts_at(s, q) implies told(s, q, ns) by {
        if q + 3 < a.len() {
            assert(starts_at(a, q));
            let n = choose|n: nat| ns.contains(n) && #[trigger] occurs_at(a, rest_of_id(n), q);
            let t = rest_of_id(n);
            assert(s.subrange(q, q + t.len()) =~= a.subrange(q, q + t.len()));
            assert(occurs_at(s, t, q));
        } else if q >= a.len() {
            let r = q - a.len();
            assert(starts_at(b, r));
            let n = choose|n: nat| ns.contains(n) && #[trigger] occurs_at(b, rest_of_id(n), r);
            let t = rest_of_id(n);
            assert(s.subrange(q, q + t.len()) =~= b.subrange(r, r + t.len()));
            assert(occurs_at(s, t, q));
        }
    }
}

proof fn lemma_text(a: Seq<char>, u: Seq<char>, ns: Set<nat>)
    requires
        lists_only(a, ns),
        a.len() > 0,
        a.last() == '>',
        inert(u),
    ensures
        lists_only(a + u, ns),
{
    reveal(lists_only);
    let s = a + u;
    assert forall|q: int| #[trigger] starts_at(s, q) implies told(s, q, ns) by {
        if q + 2 >= a.len() {
            if q + 2 >= a.len() {
                assert(!is_markup(u[q + 2 - a.len()]));
            }
        } else if q + 2 == a.len() - 1 {
        } else {
            assert(starts_at(a, q));
            let n = choose|n: nat| ns.contains(n) && #[trigger] occurs_at(a, rest_of_id(n), q);
            let t = rest_of_id(n);
            assert(s.subrange(q, q + t.len()) =~= a.subrange(q, q + t.len()));
            assert(occurs_at(s, t, q));
        }
    }
}

/// A name whose value may be any text without markup.
spec fn fit_name(name: Seq<char>) -> bool {
    inert(name) && name.len() > 0 && name.last() != 'd'
}

proof fn lemma_any_attribute(name: Seq<char>, value: Seq<char>, ns: Set<nat>)
    requires
        inert(name),
        name.len() > 0,
        inert(value),
        name.last() != 'd' || value.len() == 0 || value[0] != 'a',
    ensures
        lists_only(attribute(name, value), ns),
{
    reveal(lists_only);
    reveal_strlit(" ");
    reveal_strlit("=\"");
    reveal_strlit("\"");
    let s = attribute(name, value);
    let k = name.len() + 2;
    assert forall|q: int| starts_at(s, q) implies told(s, q, ns) by {
        let p = q + 2;
        if p < 1 + name.len() {
            assert(s[p] == name[p - 1]);
            assert(!is_markup(name[p - 1]));
        } else if p == k {
            assert(s[q] == name.last());
            assert(value.len() > 0 ==> s[q + 3] == value[0]);
        } else if k < p < k + 1 + value.len() {
            assert(s[p] == value[p - k - 1]);
            assert(!is_markup(value[p - k - 1]));
        }
    }
}

broadcast proof fn lemma_attribute(name: Seq<char>, value: Seq<char>, ns: Set<nat>)
    requires
        fit_name(name),
        inert(value),
    ensures
        #[trigger] lists_only(attribute(name, value), ns),
{
    lemma_any_attribute(name, value, ns);
}

proof fn lemma_digits_inert(t: Seq<char>, i: int)
    requires
        0 <= i,
    ensures
        i <= skip_digits(t, i),
        skip_digits(t, i) > i ==> skip_digits(t, i) <= t.len(),
        forall|j: int| i <= j < skip_digits(t, i) ==> !is_markup(#[trigger] t[j]),
    decreases t.len() - i,
{
    if i < t.len() && is_digit(t[i]) {
        lemma_digits_inert(t, i + 1);
        assert(!is_markup(t[i]));
        assert forall|j: int| i <= j < skip_digits(t, i) implies !is_markup(#[trigger] t[j]) by {
            if j > i {
                assert(i + 1 <= j < skip_digits(t, i + 1));
            }
        }
    }
}

proof fn lemma_number_inert(t: Seq<char>)
    requires
        number_text(t),
    ensures
        inert(t),
{
    let p: int = if at(t, 0) == Some('-') {
        1
    } else {
        0
    };
    lemma_digits_inert(t, p);
    let q = skip_digits(t, p);
    lemma_digits_inert(t, q + 1);
    let r = if at(t, q) == Some('.') {
        skip_digits(t, q + 1)
    } else {
        q
    };
    lemma_digits_inert(t, r + 1);
    lemma_digits_inert(t, r + 2);
}

pub broadcast proof fn lemma_shown_inert(q: int)
    ensures
        inert(#[trigger] shown(q)),
        shown(q).len() > 0,
        shown(q)[0] == '-' || is_digit(shown(q)[0]),
{
    lemma_shown(q);
    lemma_number_inert(shown(q));
}

/// Text without markup tells nothing.
broadcast proof fn lemma_inert(s: Seq<char>, ns: Set<nat>)
    requires
        inert(s),
        s.len() > 0 ==> s[0] != '=' && s[0] != 'a',
    ensures
        #[trigger] lists_only(s, ns),
{
    reveal(lists_only);
    assert forall|q: int| #[trigger] starts_at(s, q) implies told(s, q, ns) by {
        assert(!is_markup(s[q + 2]));
    }
}

broadcast proof fn lemma_escaped(s: Seq<char>)
    ensures
        inert(#[trigger] escaped(s)),
{
    law_escaped_is_inert(s);
}

broadcast group group_tell {
    lemma_join,
    lemma_attribute,
    lemma_shown_inert,
    lemma_inert,
    lemma_escaped,
}

proof fn lemma_names()
    ensures
        fit_name("width"@),
        fit_name("height"@),
        fit_name("preserveAspectRatio"@),
        fit_name("fill"@),
        fit_name("stroke"@),
        fit_name("stroke-width"@),
        fit_name("stroke-dasharray"@),
        fit_name("x"@),
        fit_name("y"@),
        fit_name("rx"@),
        fit_name("cx"@),
        fit_name("cy"@),
        fit_name("r"@),
        fit_name("points"@),
        fit_name("x1"@),
        fit_name("y1"@),
        fit_name("x2"@),
        fit_name("y2"@),
{
    reveal_strlit("width");
    reveal_strlit("height");
    reveal_strlit("preserveAspectRatio");
    reveal_strlit("fill");
    reveal_strlit("stroke");
    reveal_strlit("stroke-width");
    reveal_strlit("stroke-dasharray");
    reveal_strlit("x");
    reveal_strlit("y");
    reveal_strlit("rx");
    reveal_strlit("cx");
    reveal_strlit("cy");
    reveal_strlit("r");
    reveal_strlit("points");
    reveal_strlit("x1");
    reveal_strlit("y1");
    reveal_strlit("x2");
    reveal_strlit("y2");
}

proof fn lemma_values()
    ensures
        inert("100%"@),
        inert("3"@),
        inert("4"@),
        inert("1"@),
        inert("5 4"@),
        inert("1.6"@),
        inert("1.7"@),
        inert("3.4"@),
        inert("M "@),
        inert(","@),
        inert(" "@),
        inert(""@),
        inert(" L "@),
        inert("advance-arrow-"@),
        inert("#ffffff"@),
{
    reveal_strlit("100%");
    reveal_strlit("3");
    reveal_strlit("4");
    reveal_strlit("1");
    reveal_strlit("5 4");
    reveal_strlit("1.6");
    reveal_strlit("1.7");
    reveal_strlit("3.4");
    reveal_strlit("M ");
    reveal_strlit(",");
    reveal_strlit(" ");
    reveal_strlit("");
    reveal_strlit(" L ");
    reveal_strlit("advance-arrow-");
    reveal_strlit("#ffffff");
}

proof fn lemma_literals_a(ns: Set<nat>)
    ensures
        lists_only("<svg xmlns=\"http://www.w3.org/2000/svg\""@, ns),
        lists_only(" viewBox=\"0 0 "@, ns),
        lists_only(" "@, ns),
        lists_only("\""@, ns),
        lists_only(" font-family=\"Helvetica, Arial, sans-serif\" font-size=\""@, ns),
        lists_only("\">\n<title>"@, ns),
        lists_only("</title>\n"@, ns),
        lists_only("<desc>"@, ns),
        lists_only("</desc>\n"@, ns),
        lists_only("</svg>\n"@, ns),
        lists_only("<defs>"@, ns),
{
    reveal(lists_only);
    reveal_strlit("<svg xmlns=\"http://www.w3.org/2000/svg\"");
    reveal_strlit(" viewBox=\"0 0 ");
    reveal_strlit(" ");
    reveal_strlit("\"");
    reveal_strlit(" font-family=\"Helvetica, Arial, sans-serif\" font-size=\"");
    reveal_strlit("\">\n<title>");
    reveal_strlit("</title>\n");
    reveal_strlit("<desc>");
    reveal_strlit("</desc>\n");
    reveal_strlit("</svg>\n");
    reveal_strlit("<defs>");
}

proof fn lemma_literals_b(ns: Set<nat>)
    ensures
        lists_only("</defs>\n"@, ns),
        lists_only("<marker"@, ns),
        lists_only(" viewBox=\"0 0 10 10\" refX=\"8.5\" refY=\"5\" markerWidth=\"7\" markerHeight=\"7\" orient=\"auto\"><path d=\"M 0 1 L 9 5 L 0 9 z\""@, ns),
        lists_only("/></marker>"@, ns),
        lists_only("<rect"@, ns),
        lists_only("/>\n"@, ns),
        lists_only(" />\n"@, ns),
        lists_only("<circle"@, ns),
        lists_only("<polygon"@, ns),
        lists_only("<path d=\"M "@, ns),
        lists_only(" A "@, ns),
{
    reveal(lists_only);
    reveal_strlit("</defs>\n");
    reveal_strlit("<marker");
    reveal_strlit(" viewBox=\"0 0 10 10\" refX=\"8.5\" refY=\"5\" markerWidth=\"7\" markerHeight=\"7\" orient=\"auto\"><path d=\"M 0 1 L 9 5 L 0 9 z\"");
    reveal_strlit("/></marker>");
    reveal_strlit("<rect");
    reveal_strlit("/>\n");
    reveal_strlit(" />\n");
    reveal_strlit("<circle");
    reveal_strlit("<polygon");
    reveal_strlit("<path d=\"M ");
    reveal_strlit(" A ");
}

proof fn lemma_literals_c(ns: Set<nat>)
    ensures
        lists_only(" 0 0 0 "@, ns),
        lists_only(" L "@, ns),
        lists_only(" 0 0 1 "@, ns),
        lists_only(" Z\""@, ns),
        lists_only("/>\n<path d=\"M "@, ns),
        lists_only("\" fill=\"none\""@, ns),
        lists_only("<line"@, ns),
        lists_only("<text"@, ns),
        lists_only(" dy=\"0.33em\" text-anchor=\"middle\" font-size=\""@, ns),
        lists_only(">"@, ns),
        lists_only("</text>\n"@, ns),
{
    reveal(lists_only);
    reveal_strlit(" 0 0 0 ");
    reveal_strlit(" L ");
    reveal_strlit(" 0 0 1 ");
    reveal_strlit(" Z\"");
    reveal_strlit("/>\n<path d=\"M ");
    reveal_strlit("\" fill=\"none\"");
    reveal_strlit("<line");
    reveal_strlit("<text");
    reveal_strlit(" dy=\"0.33em\" text-anchor=\"middle\" font-size=\"");
    reveal_strlit(">");
    reveal_strlit("</text>\n");
}

proof fn lemma_literals_d(ns: Set<nat>)
    ensures
        lists_only(" stroke-width=\"2\" rx=\"8\""@, ns),
        lists_only(" font-size=\""@, ns),
        lists_only("\" font-weight=\"bold\""@, ns),
        lists_only(" height=\"18\""@, ns),
        lists_only(" stroke-width=\"1\" rx=\"3\"/>\n"@, ns),
        lists_only("<path"@, ns),
        lists_only(" fill=\"none\""@, ns),
        lists_only(""@, ns),
        lists_only(" marker-end=\"url(#"@, ns),
        lists_only(")\""@, ns),
        lists_only("13"@, ns),
{
    reveal(lists_only);
    reveal_strlit(" stroke-width=\"2\" rx=\"8\"");
    reveal_strlit(" font-size=\"");
    reveal_strlit("\" font-weight=\"bold\"");
    reveal_strlit(" height=\"18\"");
    reveal_strlit(" stroke-width=\"1\" rx=\"3\"/>\n");
    reveal_strlit("<path");
    reveal_strlit(" fill=\"none\"");
    reveal_strlit("");
    reveal_strlit(" marker-end=\"url(#");
    reveal_strlit(")\"");
    reveal_strlit("13");
}

proof fn lemma_literals(ns: Set<nat>)
    ensures
        lists_only("<svg xmlns=\"http://www.w3.org/2000/svg\""@, ns),
        lists_only(" viewBox=\"0 0 "@, ns),
        lists_only(" "@, ns),
        lists_only("\""@, ns),
        lists_only(" font-family=\"Helvetica, Arial, sans-serif\" font-size=\""@, ns),
        lists_only("\">\n<title>"@, ns),
        lists_only("</title>\n"@, ns),
        lists_only("<desc>"@, ns),
        lists_only("</desc>\n"@, ns),
        lists_only("</svg>\n"@, ns),
        lists_only("<defs>"@, ns),
        lists_only("</defs>\n"@, ns),
        lists_only("<marker"@, ns),
        lists_only(" viewBox=\"0 0 10 10\" refX=\"8.5\" refY=\"5\" markerWidth=\"7\" markerHeight=\"7\" orient=\"auto\"><path d=\"M 0 1 L 9 5 L 0 9 z\""@, ns),
        lists_only("/></marker>"@, ns),
        lists_only("<rect"@, ns),
        lists_only("/>\n"@, ns),
        lists_only(" />\n"@, ns),
        lists_only("<circle"@, ns),
        lists_only("<polygon"@, ns),
        lists_only("<path d=\"M "@, ns),
        lists_only(" A "@, ns),
        lists_only(" 0 0 0 "@, ns),
        lists_only(" L "@, ns),
        lists_only(" 0 0 1 "@, ns),
        lists_only(" Z\""@, ns),
        lists_only("/>\n<path d=\"M "@, ns),
        lists_only("\" fill=\"none\""@, ns),
        lists_only("<line"@, ns),
        lists_only("<text"@, ns),
        lists_only(" dy=\"0.33em\" text-anchor=\"middle\" font-size=\""@, ns),
        lists_only(">"@, ns),
        lists_only("</text>\n"@, ns),
        lists_only(" stroke-width=\"2\" rx=\"8\""@, ns),
        lists_only(" font-size=\""@, ns),
        lists_only("\" font-weight=\"bold\""@, ns),
        lists_only(" height=\"18\""@, ns),
        lists_only(" stroke-width=\"1\" rx=\"3\"/>\n"@, ns),
        lists_only("<path"@, ns),
        lists_only(" fill=\"none\""@, ns),
        lists_only(""@, ns),
        lists_only(" marker-end=\"url(#"@, ns),
        lists_only(")\""@, ns),
        lists_only("13"@, ns),
{
    lemma_literals_a(ns);
    lemma_literals_b(ns);
    lemma_literals_c(ns);
    lemma_literals_d(ns);
}

proof fn lemma_opening(
    w: Px,
    h: Px,
    title: Seq<char>,
    responsive: bool,
    ratio: Option<Seq<char>>,
    ns: Set<nat>,
)
    ensures
        lists_only(opening(w, h, title, responsive, ratio), ns),
{
    broadcast use group_tell;

    lemma_names();
    lemma_values();
    lemma_literals(ns);
    reveal_strlit("\">\n<title>");
    assert(lists_only(length("width"@, 4 * w), ns));
    assert(lists_only(length("height"@, 4 * h), ns));
    assert(lists_only(root_size(w, h, responsive), ns));
    assert(lists_only(aspect(ratio), ns));
    assert(lists_only(shown(4 * w), ns) && lists_only(shown(4 * h), ns));
    assert(FONT_SIZE@ == "13"@);
    let head = "<svg xmlns=\"http://www.w3.org/2000/svg\""@ + root_size(w, h, responsive)
        + " viewBox=\"0 0 "@ + shown(4 * w) + " "@ + shown(4 * h) + "\""@ + aspect(ratio)
        + " font-family=\"Helvetica, Arial, sans-serif\" font-size=\""@ + FONT_SIZE@
        + "\">\n<title>"@;
    assert(lists_only(head, ns));
    lemma_text(head, escaped(title), ns);
}

proof fn lemma_description(d: Option<Seq<char>>, ns: Set<nat>)
    ensures
        lists_only(description(d), ns),
{
    broadcast use group_tell;

    lemma_literals(ns);
    reveal_strlit("<desc>");
    if let Some(s) = d {
        lemma_text("<desc>"@, escaped(s), ns);
    }
}

proof fn lemma_rect(x: int, y: int, w: int, h: int, more: Seq<char>, ns: Set<nat>)
    requires
        lists_only(more, ns),
    ensures
        lists_only(rect(x, y, w, h, more), ns),
{
    broadcast use group_tell;

    lemma_names();
    lemma_literals(ns);
    assert(lists_only(length("x"@, x), ns));
    assert(lists_only(length("y"@, y), ns));
    assert(lists_only(length("width"@, w), ns));
    assert(lists_only(length("height"@, h), ns));
}

proof fn lemma_circle(x: int, y: int, r: int, more: Seq<char>, ns: Set<nat>)
    requires
        lists_only(more, ns),
    ensures
        lists_only(circle(x, y, r, more), ns),
{
    broadcast use group_tell;

    lemma_names();
    lemma_literals(ns);
    assert(lists_only(length("cx"@, x), ns));
    assert(lists_only(length("cy"@, y), ns));
    assert(lists_only(length("r"@, r), ns));
}

proof fn lemma_inert_join(a: Seq<char>, b: Seq<char>)
    requires
        inert(a),
        inert(b),
    ensures
        inert(a + b),
{
    let s = a + b;
    assert forall|i: int| 0 <= i < s.len() implies !is_markup(#[trigger] s[i]) by {
        if i < a.len() {
            assert(!is_markup(a[i]));
        } else {
            assert(!is_markup(b[i - a.len()]));
        }
    }
}

proof fn lemma_corners(p: Seq<(i128, i128)>)
    ensures
        inert(corners(p)),
    decreases p.len(),
{
    broadcast use lemma_shown_inert;

    lemma_values();
    if p.len() > 0 {
        lemma_corners(p.drop_last());
        let gap = if p.len() > 1 {
            " "@
        } else {
            ""@
        };
        let x = shown(p.last().0 as int);
        let y = shown(p.last().1 as int);
        lemma_inert_join(corners(p.drop_last()), gap);
        lemma_inert_join(corners(p.drop_last()) + gap, x);
        lemma_inert_join(corners(p.drop_last()) + gap + x, ","@);
        lemma_inert_join(corners(p.drop_last()) + gap + x + ","@, y);
    }
}

proof fn lemma_polygon(p: Seq<(i128, i128)>, more: Seq<char>, close: Seq<char>, ns: Set<nat>)
    requires
        lists_only(more, ns),
        lists_only(close, ns),
    ensures
        lists_only(polygon(p, more, close), ns),
{
    broadcast use group_tell;

    lemma_names();
    lemma_literals(ns);
    lemma_corners(p);
}

/// Whether a paint holds no markup.
spec fn plain_paint(p: Paint) -> bool {
    inert(p.fill) && inert(p.stroke) && inert(p.width)
}

proof fn lemma_paint(p: Paint, ns: Set<nat>)
    requires
        plain_paint(p),
    ensures
        lists_only(paint_attrs(p), ns),
        lists_only(stroke_attrs(p.stroke, p.width), ns),
{
    broadcast use group_tell;

    lemma_names();
}

proof fn lemma_upright(x: int, t: int, b: int, p: Paint, ns: Set<nat>)
    requires
        plain_paint(p),
    ensures
        lists_only(upright(x, t, b, p), ns),
{
    broadcast use group_tell;

    lemma_names();
    lemma_literals(ns);
    lemma_paint(p, ns);
    assert(lists_only(length("x1"@, x), ns));
    assert(lists_only(length("y1"@, t), ns));
    assert(lists_only(length("x2"@, x), ns));
    assert(lists_only(length("y2"@, b), ns));
}

proof fn lemma_pair(a: Seq<char>, lead: Seq<char>, x: int, y: int, ns: Set<nat>)
    requires
        lists_only(a, ns),
        lists_only(lead, ns),
    ensures
        lists_only(a + lead + shown(x) + " "@ + shown(y), ns),
{
    broadcast use group_tell;

    lemma_literals(ns);
}

proof fn lemma_cylinder(s: Sides, w: int, h: int, p: Paint, ns: Set<nat>)
    requires
        plain_paint(p),
    ensures
        lists_only(cylinder(s, w, h, p), ns),
{
    let ry = least(pixels(8), h);
    let (ty, by) = (s.t + ry, s.b - ry);
    let (l, r) = (s.l as int, s.r as int);
    lemma_literals(ns);
    lemma_paint(p, ns);
    let a = "<path d=\"M "@ + shown(l) + " "@ + shown(ty);
    assert(a =~= ""@ + "<path d=\"M "@ + shown(l) + " "@ + shown(ty)) by {
        reveal_strlit("");
    }
    lemma_pair(""@, "<path d=\"M "@, l, ty, ns);
    let b = a + " A "@ + shown(2 * w) + " "@ + shown(ry);
    lemma_pair(a, " A "@, 2 * w, ry, ns);
    let c = b + " 0 0 0 "@ + shown(r) + " "@ + shown(ty);
    lemma_pair(b, " 0 0 0 "@, r, ty, ns);
    let d = c + " L "@ + shown(r) + " "@ + shown(by);
    lemma_pair(c, " L "@, r, by, ns);
    let e = d + " A "@ + shown(2 * w) + " "@ + shown(ry);
    lemma_pair(d, " A "@, 2 * w, ry, ns);
    let f = e + " 0 0 1 "@ + shown(l) + " "@ + shown(by);
    lemma_pair(e, " 0 0 1 "@, l, by, ns);
    lemma_join(f, " Z\""@, ns);
    let g = f + " Z\""@ + paint_attrs(p);
    lemma_join(f + " Z\""@, paint_attrs(p), ns);
    let i = g + "/>\n<path d=\"M "@ + shown(l) + " "@ + shown(ty);
    lemma_pair(g, "/>\n<path d=\"M "@, l, ty, ns);
    let j = i + " A "@ + shown(2 * w) + " "@ + shown(ry);
    lemma_pair(i, " A "@, 2 * w, ry, ns);
    let k = j + " 0 0 1 "@ + shown(r) + " "@ + shown(ty);
    lemma_pair(j, " 0 0 1 "@, r, ty, ns);
    let m = k + "\" fill=\"none\""@;
    lemma_join(k, "\" fill=\"none\""@, ns);
    lemma_join(m, stroke_attrs(p.stroke, p.width), ns);
    lemma_join(m + stroke_attrs(p.stroke, p.width), "/>\n"@, ns);
    assert(cylinder(s, w, h, p) == m + stroke_attrs(p.stroke, p.width) + "/>\n"@);
}

proof fn lemma_length(name: Seq<char>, q: int, ns: Set<nat>)
    requires
        fit_name(name),
    ensures
        lists_only(length(name, q), ns),
{
    lemma_shown_inert(q);
    lemma_attribute(name, shown(q), ns);
}

#[verifier::spinoff_prover]
proof fn lemma_outline(n: SceneNodeView, p: Paint, ns: Set<nat>)
    requires
        plain_paint(p),
    ensures
        lists_only(outline(n, p), ns),
{
    assert(fit_name("rx"@) && inert("3"@)) by {
        lemma_names();
        lemma_values();
    }
    assert(lists_only("/>\n"@, ns) && lists_only(" />\n"@, ns)) by {
        lemma_literals(ns);
    }
    lemma_paint(p, ns);
    let s = sides(n.x, n.y, n.w, n.h);
    let (x, y) = ((4 * n.x) as i128, (4 * n.y) as i128);
    let (w, h) = (4 * n.w, 4 * n.h);
    let k = least(pixels(14), n.w as int) as i128;
    let paint = paint_attrs(p);
    lemma_attribute("rx"@, "3"@, ns);
    lemma_join(attribute("rx"@, "3"@), paint, ns);
    match n.shape {
        Shape::Rect => {
            lemma_length("rx"@, pixels(3), ns);
            lemma_join(length("rx"@, pixels(3)), paint, ns);
            lemma_rect(s.l as int, s.t as int, w, h, length("rx"@, pixels(3)) + paint, ns);
        },
        Shape::Rounded => {
            lemma_length("rx"@, pixels(9), ns);
            lemma_join(length("rx"@, pixels(9)), paint, ns);
            lemma_rect(s.l as int, s.t as int, w, h, length("rx"@, pixels(9)) + paint, ns);
        },
        Shape::Stadium => {
            lemma_length("rx"@, 2 * n.h, ns);
            lemma_join(length("rx"@, 2 * n.h), paint, ns);
            lemma_rect(s.l as int, s.t as int, w, h, length("rx"@, 2 * n.h) + paint, ns);
        },
        Shape::Circle => {
            lemma_circle(x as int, y as int, 2 * n.w, paint, ns);
        },
        Shape::Diamond => {
            lemma_polygon(seq![(x, s.t), (s.r, y), (x, s.b), (s.l, y)], paint, "/>\n"@, ns);
        },
        Shape::DoubleCircle => {
            lemma_circle(x as int, y as int, 2 * n.w, paint, ns);
            lemma_circle(x as int, y as int, 2 * n.w - pixels(4), paint, ns);
            lemma_join(
                circle(x as int, y as int, 2 * n.w, paint),
                circle(x as int, y as int, 2 * n.w - pixels(4), paint),
                ns,
            );
        },
        Shape::Cylinder => {
            lemma_cylinder(s, n.w as int, n.h as int, p, ns);
        },
        Shape::Subroutine => {
            lemma_rect(s.l as int, s.t as int, w, h, attribute("rx"@, "3"@) + paint, ns);
            lemma_upright(s.l + pixels(8), s.t as int, s.b as int, p, ns);
            lemma_upright(s.r - pixels(8), s.t as int, s.b as int, p, ns);
            let frame = rect(s.l as int, s.t as int, w, h, attribute("rx"@, "3"@) + paint);
            let left = upright(s.l + pixels(8), s.t as int, s.b as int, p);
            lemma_join(frame, left, ns);
            lemma_join(frame + left, upright(s.r - pixels(8), s.t as int, s.b as int, p), ns);
        },
        Shape::Hexagon => {
            let c = seq![
                (s.l, y),
                ((s.l + k) as i128, s.t),
                ((s.r - k) as i128, s.t),
                (s.r, y),
                ((s.r - k) as i128, s.b),
                ((s.l + k) as i128, s.b),
            ];
            lemma_polygon(c, paint, "/>\n"@, ns);
        },
        Shape::Parallelogram => {
            let c = seq![
                ((s.l + k) as i128, s.t),
                (s.r, s.t),
                ((s.r - k) as i128, s.b),
                (s.l, s.b),
            ];
            lemma_polygon(c, paint, " />\n"@, ns);
        },
        Shape::ParallelogramAlt => {
            let c = seq![
                (s.l, s.t),
                ((s.r - k) as i128, s.t),
                (s.r, s.b),
                ((s.l + k) as i128, s.b),
            ];
            lemma_polygon(c, paint, " />\n"@, ns);
        },
        Shape::StateStart | Shape::StateEnd | Shape::ForkBar => {
            lemma_rect(s.l as int, s.t as int, w, h, attribute("rx"@, "3"@) + paint, ns);
        },
    }
}

proof fn lemma_text_line(x: int, y: int, colour: Seq<char>, line: Seq<char>, ns: Set<nat>)
    requires
        inert(colour),
    ensures
        lists_only(text_line(x, y, colour, line), ns),
{
    broadcast use group_tell;

    lemma_names();
    lemma_literals(ns);
    reveal_strlit(">");
    assert(lists_only(length("x"@, x), ns));
    assert(lists_only(length("y"@, y), ns));
    assert(FONT_SIZE@ == "13"@);
    let head = "<text"@ + length("x"@, x) + length("y"@, y)
        + " dy=\"0.33em\" text-anchor=\"middle\" font-size=\""@ + FONT_SIZE@ + "\""@
        + attribute("fill"@, colour) + ">"@;
    assert(lists_only(head, ns));
    lemma_text(head, escaped(line), ns);
}

proof fn lemma_text_lines(
    lines: Seq<Seq<char>>,
    x: int,
    y: int,
    colour: Seq<char>,
    k: int,
    ns: Set<nat>,
)
    requires
        inert(colour),
    ensures
        lists_only(text_lines(lines, x, y, colour, k), ns),
    decreases k,
{
    lemma_literals(ns);
    if k > 0 {
        lemma_text_lines(lines, x, y, colour, k - 1, ns);
        let at = y + (k - 1) * pixels(LINE_H as int);
        lemma_text_line(x, at, colour, lines[k - 1], ns);
        lemma_join(
            text_lines(lines, x, y, colour, k - 1),
            text_line(x, at, colour, lines[k - 1]),
            ns,
        );
    }
}

proof fn lemma_label_block(
    label: Seq<char>,
    x: Px,
    y: Px,
    h: Px,
    top: bool,
    colour: Seq<char>,
    ns: Set<nat>,
)
    requires
        inert(colour),
    ensures
        lists_only(label_block(label, x, y, h, top, colour), ns),
{
    let lines = split_seq(label, '\n');
    let n = lines.len() as int;
    let cy = if top {
        4 * y - 2 * h + half_band(n)
    } else {
        4 * y
    };
    lemma_text_lines(lines, 4 * x, cy - half_block(n), colour, n, ns);
}

proof fn lemma_compartment(
    s: Seq<SceneElementView>,
    i: int,
    stroke: Seq<char>,
    text: Seq<char>,
    ns: Set<nat>,
)
    ensures
        lists_only(compartment(s, i, stroke, text), ns),
{
    broadcast use lemma_join, lemma_attribute, lemma_escaped;

    lemma_names();
    lemma_values();
    let e = s[i];
    let b = sides(e.x, e.y, e.w, e.h);
    let more = attribute("rx"@, "4"@) + attribute("fill"@, style_text(e.style.fill, "#ffffff"@))
        + attribute("stroke"@, style_text(e.style.stroke, stroke)) + attribute(
        "stroke-width"@,
        "1"@,
    );
    assert(lists_only(more, ns));
    lemma_rect(b.l as int, b.t as int, 4 * e.w, 4 * e.h, more, ns);
    let colour = style_text(e.style.color, text);
    assert(inert(colour));
    lemma_label_block(e.label, e.x, e.y, e.h, has_children(s, i), colour, ns);
}

proof fn lemma_compartments(
    s: Seq<SceneElementView>,
    stroke: Seq<char>,
    text: Seq<char>,
    k: int,
    ns: Set<nat>,
)
    ensures
        lists_only(compartments(s, stroke, text, k), ns),
    decreases k,
{
    lemma_literals(ns);
    if k > 0 {
        lemma_compartments(s, stroke, text, k - 1, ns);
        lemma_compartment(s, k - 1, stroke, text, ns);
        lemma_join(
            compartments(s, stroke, text, k - 1),
            compartment(s, k - 1, stroke, text),
            ns,
        );
    }
}

proof fn lemma_stroke_width(w: Option<Seq<char>>, default: Seq<char>)
    requires
        width_readable(w),
        inert(default),
    ensures
        inert(stroke_width(w, default)),
{
    if let Some(n) = w {
        law_tenths_read(n);
        lemma_number_inert(tenths(n));
    }
}

proof fn lemma_node(n: SceneNodeView, t: ThemeView, text_color: Seq<char>, ns: Set<nat>)
    requires
        width_readable(n.style.stroke_width),
    ensures
        lists_only(node_svg(n, t, text_color), ns),
{
    broadcast use lemma_join, lemma_escaped;

    lemma_values();
    let p = node_paint(n, t);
    lemma_stroke_width(n.style.stroke_width, "1.6"@);
    lemma_outline(n, p, ns);
    let colour = style_text(n.style.color, text_color);
    assert(inert(colour));
    lemma_label_block(n.label, n.x, n.y, n.h, n.elements.len() > 0, colour, ns);
    lemma_compartments(
        n.elements,
        or_default(n.style.stroke, shape_colours(t, n.shape, 0).1),
        or_default(n.style.color, text_color),
        n.elements.len() as int,
        ns,
    );
}

proof fn lemma_lane(l: SceneLaneView, d: AdvanceDirection, s: StyleView, ns: Set<nat>)
    ensures
        lists_only(lane_svg(l, d, s), ns),
{
    broadcast use lemma_join, lemma_attribute, lemma_shown_inert, lemma_escaped;

    lemma_names();
    lemma_literals(ns);
    reveal_strlit(">");
    let (x, y) = title_place(l, d);
    let more = attribute("fill"@, escaped(s.lane_fill)) + attribute(
        "stroke"@,
        escaped(s.lane_stroke),
    ) + " stroke-width=\"2\" rx=\"8\""@;
    assert(lists_only(more, ns));
    lemma_rect(4 * l.x, 4 * l.y, 4 * l.w, 4 * l.h, more, ns);
    assert(lists_only(length("x"@, x), ns));
    assert(lists_only(length("y"@, y), ns));
    assert(FONT_SIZE@ == "13"@);
    let head = rect(4 * l.x, 4 * l.y, 4 * l.w, 4 * l.h, more) + "<text"@ + length("x"@, x) + length(
        "y"@,
        y,
    ) + " font-size=\""@ + FONT_SIZE@ + "\" font-weight=\"bold\""@ + attribute(
        "fill"@,
        escaped(s.text_color),
    ) + ">"@;
    assert(lists_only(head, ns));
    lemma_text(head, escaped(l.title), ns);
}

proof fn lemma_path(p: Seq<Point>, k: int)
    ensures
        inert(path_to(p, k)),
        path_to(p, k).len() > 0,
        path_to(p, k)[0] == 'M',
    decreases k,
{
    broadcast use lemma_shown_inert;

    lemma_values();
    reveal_strlit("M ");
    if k <= 1 {
        let x = shown(4 * p[0].x);
        let y = shown(4 * p[0].y);
        lemma_inert_join("M "@, x);
        lemma_inert_join("M "@ + x, " "@);
        lemma_inert_join("M "@ + x + " "@, y);
    } else {
        lemma_path(p, k - 1);
        let x = shown(4 * p[k - 1].x);
        let y = shown(4 * p[k - 1].y);
        let s = path_to(p, k - 1);
        lemma_inert_join(s, " L "@);
        lemma_inert_join(s + " L "@, x);
        lemma_inert_join(s + " L "@ + x, " "@);
        lemma_inert_join(s + " L "@ + x + " "@, y);
    }
}

proof fn lemma_decimal_inert(n: nat)
    ensures
        decimal(n).len() > 0,
        forall|i: int| 0 <= i < decimal(n).len() ==> is_digit(#[trigger] decimal(n)[i]),
        inert(decimal(n)),
    decreases n,
{
    if n >= 10 {
        lemma_decimal_inert(n / 10);
    }
    assert(is_digit(digit_char((n % 10) as int)));
    assert forall|i: int| 0 <= i < decimal(n).len() implies is_digit(#[trigger] decimal(n)[i]) by {
        if n >= 10 && i < decimal(n).len() - 1 {
            assert(decimal(n)[i] == decimal(n / 10)[i]);
        }
    }
}

proof fn lemma_marker_id(first: usize, i: int)
    ensures
        inert(marker_id(first, i)),
{
    lemma_values();
    lemma_decimal_inert(marker_number(first, i));
    lemma_inert_join("advance-arrow-"@, decimal(marker_number(first, i)));
}

proof fn lemma_marker_ref(
    e: SceneEdgeView,
    style: StyleView,
    colours: Seq<Seq<char>>,
    first: usize,
    ns: Set<nat>,
)
    ensures
        lists_only(marker_ref(e, style, colours, first), ns),
{
    reveal(lists_only);
    lemma_literals(ns);
    if arrowed(e.kind) {
        if let Some(i) = name_index(colours, edge_colour(e, style)) {
            let a = " marker-end=\"url(#"@;
            let id = marker_id(first, i);
            reveal_strlit(" marker-end=\"url(#");
            reveal_strlit(")\"");
            lemma_marker_id(first, i);
            let s = a + id + ")\""@;
            assert forall|q: int| starts_at(s, q) implies told(s, q, ns) by {
                let p = q + 2;
                if p < a.len() {
                    assert(s[p] == a[p]);
                } else if p < a.len() + id.len() {
                    assert(s[p] == id[p - a.len()]);
                    assert(!is_markup(id[p - a.len()]));
                }
            }
        }
    }
}

proof fn lemma_edge_label(e: SceneEdgeView, s: StyleView, label: Seq<char>, ns: Set<nat>)
    ensures
        lists_only(edge_label(e, s, label), ns),
{
    broadcast use lemma_join, lemma_attribute, lemma_shown_inert, lemma_escaped;

    lemma_names();
    lemma_literals(ns);
    let (x, y) = label_place(e);
    let w = 4 * text_px(label) + pixels(14);
    assert(lists_only(length("x"@, x - w / 2), ns));
    assert(lists_only(length("y"@, y - pixels(9)), ns));
    assert(lists_only(length("width"@, w), ns));
    lemma_text_line(x, y, escaped(s.text_color), label, ns);
}

proof fn lemma_edge(
    e: SceneEdgeView,
    s: StyleView,
    colours: Seq<Seq<char>>,
    first: usize,
    ns: Set<nat>,
)
    requires
        width_readable(e.style.stroke_width),
    ensures
        lists_only(edge_svg(e, s, colours, first), ns),
{
    broadcast use lemma_join, lemma_attribute, lemma_escaped;

    lemma_names();
    lemma_values();
    lemma_literals(ns);
    if e.kind != EdgeKind::Invisible {
        if e.points.len() >= 2 {
            lemma_path(e.points, e.points.len() as int);
        }
        reveal_strlit("d");
        reveal_strlit("");
        lemma_any_attribute("d"@, path(e.points), ns);
        lemma_stroke_width(e.style.stroke_width, "3.4"@);
        lemma_stroke_width(e.style.stroke_width, "1.7"@);
        assert(inert(edge_width(e)));
        assert(lists_only(dash_attr(e), ns));
        lemma_marker_ref(e, s, colours, first, ns);
        if let Some(label) = e.label {
            lemma_edge_label(e, s, label, ns);
        }
    }
}

proof fn lemma_lanes(sc: SceneView, k: int, ns: Set<nat>)
    ensures
        lists_only(lanes_svg(sc, k), ns),
    decreases k,
{
    lemma_literals(ns);
    if k > 0 {
        lemma_lanes(sc, k - 1, ns);
        let part = lane_svg(sc.lanes[k - 1], sc.direction, sc.style);
        lemma_lane(sc.lanes[k - 1], sc.direction, sc.style, ns);
        lemma_join(lanes_svg(sc, k - 1), part, ns);
    }
}

proof fn lemma_edges(sc: SceneView, colours: Seq<Seq<char>>, first: usize, k: int, ns: Set<nat>)
    requires
        readable(sc),
        k <= sc.edges.len(),
    ensures
        lists_only(edges_svg(sc, colours, first, k), ns),
    decreases k,
{
    lemma_literals(ns);
    if k > 0 {
        lemma_edges(sc, colours, first, k - 1, ns);
        let e = sc.edges[k - 1];
        lemma_edge(e, sc.style, colours, first, ns);
        lemma_join(edges_svg(sc, colours, first, k - 1), edge_svg(e, sc.style, colours, first), ns);
    }
}

proof fn lemma_nodes(sc: SceneView, t: ThemeView, k: int, ns: Set<nat>)
    requires
        readable(sc),
        k <= sc.nodes.len(),
    ensures
        lists_only(nodes_svg(sc, t, k), ns),
    decreases k,
{
    lemma_literals(ns);
    if k > 0 {
        lemma_nodes(sc, t, k - 1, ns);
        let n = sc.nodes[k - 1];
        assert(node_readable(n));
        lemma_node(n, t, sc.style.text_color, ns);
        lemma_join(nodes_svg(sc, t, k - 1), node_svg(n, t, sc.style.text_color), ns);
    }
}

/// The numbers of `k` arrowheads.
pub open spec fn numbers(first: usize, k: int) -> Set<nat> {
    Set::new(|n: nat| exists|i: int| 0 <= i < k && n == #[trigger] marker_number(first, i))
}

proof fn lemma_id_told(n: nat, ns: Set<nat>)
    requires
        ns.contains(n),
    ensures
        lists_only(attribute("id"@, "advance-arrow-"@ + decimal(n)), ns),
{
    reveal(lists_only);
    reveal_strlit("id");
    reveal_strlit(" ");
    reveal_strlit("=\"");
    reveal_strlit("\"");
    reveal_strlit("advance-arrow-");
    reveal_strlit("id=\"advance-arrow-");
    let id = "advance-arrow-"@ + decimal(n);
    let s = attribute("id"@, id);
    lemma_values();
    lemma_decimal_inert(n);
    lemma_inert_join("advance-arrow-"@, decimal(n));
    assert(s =~= seq![' '] + id_attribute(n));
    let t = rest_of_id(n);
    assert(s.subrange(2, 2 + t.len() as int) =~= t);
    assert(occurs_at(s, t, 2));
    assert forall|q: int| starts_at(s, q) implies told(s, q, ns) by {
        let p = q + 2;
        if 5 <= p < 5 + id.len() {
            assert(s[p] == id[p - 5]);
            assert(!is_markup(id[p - 5]));
        }
        assert(q == 2);
    }
}

proof fn lemma_marker(n: nat, colour: Seq<char>, ns: Set<nat>)
    requires
        ns.contains(n),
        inert(colour),
    ensures
        lists_only(marker("advance-arrow-"@ + decimal(n), colour), ns),
{
    broadcast use lemma_join, lemma_attribute;

    lemma_names();
    lemma_literals(ns);
    lemma_id_told(n, ns);
}

proof fn lemma_markers(colours: Seq<Seq<char>>, first: usize, k: int, ns: Set<nat>)
    requires
        k <= colours.len(),
        forall|i: int| 0 <= i < colours.len() ==> inert(#[trigger] colours[i]),
        forall|i: int| 0 <= i < k ==> ns.contains(#[trigger] marker_number(first, i)),
    ensures
        lists_only(markers(colours, first, k), ns),
    decreases k,
{
    lemma_literals(ns);
    if k > 0 {
        lemma_markers(colours, first, k - 1, ns);
        lemma_marker(marker_number(first, k - 1), colours[k - 1], ns);
        lemma_join(
            markers(colours, first, k - 1),
            marker(marker_id(first, k - 1), colours[k - 1]),
            ns,
        );
    }
}

proof fn lemma_colours(edges: Seq<SceneEdgeView>, style: StyleView, k: int)
    ensures
        forall|i: int|
            0 <= i < marker_colours(edges, style, k).len() ==> inert(
                #[trigger] marker_colours(edges, style, k)[i],
            ),
    decreases k,
{
    if k > 0 {
        lemma_colours(edges, style, k - 1);
        law_escaped_is_inert(or_default(edges[k - 1].style.color, style.edge_color));
        let before = marker_colours(edges, style, k - 1);
        let now = marker_colours(edges, style, k);
        assert(inert(edge_colour(edges[k - 1], style)));
        assert forall|i: int| 0 <= i < now.len() implies inert(#[trigger] now[i]) by {
            if i < before.len() {
                assert(now[i] == before[i]);
            }
        }
    }
}

proof fn lemma_few_colours(edges: Seq<SceneEdgeView>, style: StyleView, k: int)
    requires
        0 <= k,
    ensures
        marker_colours(edges, style, k).len() <= k,
    decreases k,
{
    if k > 0 {
        lemma_few_colours(edges, style, k - 1);
    }
}

/// The picture of a scene defines the arrowheads of its counter and no
/// others.
proof fn lemma_scene_lists(
    sc: SceneView,
    t: ThemeView,
    responsive: bool,
    ratio: Option<Seq<char>>,
    first: usize,
)
    requires
        readable(sc),
    ensures
        lists_only(
            scene_svg(sc, t, responsive, ratio, first),
            numbers(first, scene_colours(sc).len() as int),
        ),
{
    let colours = scene_colours(sc);
    let ns = numbers(first, colours.len() as int);
    lemma_literals(ns);
    let title = or_default(sc.title, "Advance diagram"@);
    lemma_opening(sc.width, sc.height, title, responsive, ratio, ns);
    lemma_description(sc.description, ns);
    lemma_colours(sc.edges, sc.style, sc.edges.len() as int);
    lemma_markers(colours, first, colours.len() as int, ns);
    assert(lists_only(definitions(colours, first), ns)) by {
        broadcast use lemma_join;

    }
    lemma_lanes(sc, sc.lanes.len() as int, ns);
    lemma_edges(sc, colours, first, sc.edges.len() as int, ns);
    lemma_nodes(sc, t, sc.nodes.len() as int, ns);
    broadcast use lemma_join;

}

proof fn lemma_same_number(s: Seq<char>, p: int, n: nat, m: nat)
    requires
        occurs_at(s, id_attribute(n), p),
        occurs_at(s, rest_of_id(m), p + 1),
    ensures
        n == m,
{
    reveal_strlit("id=\"advance-arrow-");
    reveal_strlit("\"");
    let a = decimal(n);
    let b = decimal(m);
    let k = p + 18;
    lemma_decimal_inert(n);
    lemma_decimal_inert(m);
    let x = id_attribute(n);
    let y = rest_of_id(m);
    let sx = s.subrange(p, p + x.len());
    let sy = s.subrange(p + 1, p + 1 + y.len());
    assert forall|i: int| 0 <= i < a.len() implies s[k + i] == a[i] by {
        assert(sx[18 + i] == x[18 + i]);
    }
    assert forall|i: int| 0 <= i < b.len() implies s[k + i] == b[i] by {
        assert(sy[17 + i] == y[17 + i]);
    }
    assert(s[k + a.len()] == '"') by {
        assert(sx[18 + a.len() as int] == x[18 + a.len() as int]);
    }
    assert(s[k + b.len()] == '"') by {
        assert(sy[17 + b.len() as int] == y[17 + b.len() as int]);
    }
    if a.len() < b.len() {
        assert(is_digit(b[a.len() as int]));
    }
    if b.len() < a.len() {
        assert(is_digit(a[b.len() as int]));
    }
    assert(a =~= b);
    if n != m {
        lemma_decimal_differs(n, m);
    }
}

proof fn lemma_defined(s: Seq<char>, ns: Set<nat>, n: nat)
    requires
        lists_only(s, ns),
        defines(s, n),
    ensures
        ns.contains(n),
{
    reveal(lists_only);
    reveal_strlit("id=\"advance-arrow-");
    let p = choose|p: int| #[trigger] occurs_at(s, id_attribute(n), p);
    let x = id_attribute(n);
    let sx = s.subrange(p, p + x.len());
    assert(sx[1] == x[1] && sx[2] == x[2] && sx[3] == x[3] && sx[4] == x[4]);
    assert(starts_at(s, p + 1));
    let m = choose|m: nat| ns.contains(m) && #[trigger] occurs_at(s, rest_of_id(m), p + 1);
    lemma_same_number(s, p, n, m);
}

/// Two pictures that are drawn one after the other with one counter define
/// no arrowhead of the same id, as long as the numbers of the counter do not
/// start again, so that both can stand on one page.
pub proof fn law_pictures_share_no_arrowhead(
    texts: (Seq<char>, Seq<char>),
    d: (DiagramView, DiagramView),
    themes: (ThemeView, ThemeView),
    counter: (usize, usize, usize),
    svg: (Seq<char>, Seq<char>),
    n: nat,
)
    requires
        diagram_of_text(texts.0) == Ok::<DiagramView, Seq<char>>(d.0),
        diagram_of_text(texts.1) == Ok::<DiagramView, Seq<char>>(d.1),
        d.0.nodes.len() <= usize::MAX,
        d.1.nodes.len() <= usize::MAX,
        d.0.edges.len() <= usize::MAX,
        d.1.edges.len() <= usize::MAX,
        pictures(|sc: SceneView| scene_of(sc, d.0), themes.0, counter.0, svg.0, counter.1),
        pictures(|sc: SceneView| scene_of(sc, d.1), themes.1, counter.1, svg.1, counter.2),
        counter.0 <= counter.1 <= counter.2,
    ensures
        !(defines(svg.0, n) && defines(svg.1, n)),
{
    let a = choose|sc: SceneView|
        {
            &&& #[trigger] scene_of(sc, d.0)
            &&& svg.0 == scene_svg(sc, themes.0, false, None, counter.0)
            &&& counter.1 == marker_number(counter.0, scene_colours(sc).len() as int)
        };
    let b = choose|sc: SceneView|
        {
            &&& #[trigger] scene_of(sc, d.1)
            &&& svg.1 == scene_svg(sc, themes.1, false, None, counter.1)
            &&& counter.2 == marker_number(counter.1, scene_colours(sc).len() as int)
        };
    let j = scene_colours(a).len() as int;
    let k = scene_colours(b).len() as int;
    lemma_placed_readable(texts.0, d.0, a);
    lemma_placed_readable(texts.1, d.1, b);
    lemma_few_colours(a.edges, a.style, a.edges.len() as int);
    lemma_few_colours(b.edges, b.style, b.edges.len() as int);
    lemma_scene_lists(a, themes.0, false, None, counter.0);
    lemma_scene_lists(b, themes.1, false, None, counter.1);
    if defines(svg.0, n) && defines(svg.1, n) {
        lemma_defined(svg.0, numbers(counter.0, j), n);
        lemma_defined(svg.1, numbers(counter.1, k), n);
        let i = choose|i: int| 0 <= i < j && n == #[trigger] marker_number(counter.0, i);
        let h = choose|h: int| 0 <= h < k && n == #[trigger] marker_number(counter.1, h);
        assert(n == counter.0 + i);
        assert(n == counter.1 + h);
    }
}

} // verus!
