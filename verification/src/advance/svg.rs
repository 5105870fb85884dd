//! Drawing a placed diagram as SVG.

use vstd::prelude::*;

use crate::advance::place::measure::{text_px, width_px};
use crate::advance::route::geometry::course;
use crate::advance::route::label_spots::{find_upright, longest_upright, MIN_UPRIGHT};
use crate::advance::scene::{
    scene_edges, show, shown, AdvanceScene, AdvanceSceneEdge, AdvanceSceneLane, Point, Px,
    SceneEdgeView, SceneLaneView, SceneView, QUARTERS,
};
use crate::advance::svg_node::{
    length, length_attr, node_svg, pixels, rect, rect_tag, render_node, stroke_width,
    stroke_width_text, text_line, text_line_tag, Theme, ThemeView, FONT_SIZE,
};
use crate::advance::{AdvanceDirection, AdvanceStyle, StyleView};
use crate::markup::{attr, attribute, escape, escaped, or_default, style_attr, style_text};
use crate::model::{arrowed, lemma_name_from, name_from, name_index, opt_text, EdgeKind};
use crate::text::{decimal, decimal_string, lemma_decimal_differs, str_eq, strings};

verus! {

/// How the root element fits its surroundings.
#[derive(Debug, Clone, PartialEq)]
pub struct SvgOptions {
    /// Take the full width of the surroundings in place of a fixed size.
    pub responsive: bool,
    /// A `preserveAspectRatio` of its own.
    pub preserve_aspect_ratio: Option<String>,
}

impl Default for SvgOptions {
    fn default() -> (r: Self)
        ensures
            !r.responsive,
            r.preserve_aspect_ratio is None,
    {
        SvgOptions { responsive: false, preserve_aspect_ratio: None }
    }
}

/// The size of the root element.
pub open spec fn root_size(w: Px, h: Px, responsive: bool) -> Seq<char> {
    if responsive {
        attribute("width"@, "100%"@)
    } else {
        length("width"@, 4 * w) + length("height"@, 4 * h)
    }
}

pub open spec fn aspect(v: Option<Seq<char>>) -> Seq<char> {
    match v {
        Some(s) => attribute("preserveAspectRatio"@, escaped(s)),
        None => ""@,
    }
}

/// The root element and the title of the picture.
pub open spec fn opening(
    w: Px,
    h: Px,
    title: Seq<char>,
    responsive: bool,
    ratio: Option<Seq<char>>,
) -> Seq<char> {
    "<svg xmlns=\"http://www.w3.org/2000/svg\""@ + root_size(w, h, responsive)
        + " viewBox=\"0 0 "@ + shown(4 * w) + " "@ + shown(4 * h) + "\""@ + aspect(ratio)
        + " font-family=\"Helvetica, Arial, sans-serif\" font-size=\""@ + FONT_SIZE@
        + "\">\n<title>"@ + escaped(title) + "</title>\n"@
}

pub fn svg_open(w: Px, h: Px, title: &str, opts: &SvgOptions) -> (r: String)
    ensures
        r@ == opening(w, h, title@, opts.responsive, opt_text(opts.preserve_aspect_ratio)),
{
    let w4: i128 = 4 * (w as i128);
    let h4: i128 = 4 * (h as i128);
    let size = if opts.responsive {
        attr("width", "100%")
    } else {
        let mut t = length_attr("width", w4);
        t.append(length_attr("height", h4).as_str());
        t
    };
    let ratio = match &opts.preserve_aspect_ratio {
        Some(v) => attr("preserveAspectRatio", escape(v.as_str()).as_str()),
        None => "".to_owned(),
    };
    let mut s = "<svg xmlns=\"http://www.w3.org/2000/svg\"".to_owned();
    s.append(size.as_str());
    s.append(" viewBox=\"0 0 ");
    s.append(show(w4).as_str());
    s.append(" ");
    s.append(show(h4).as_str());
    s.append("\"");
    s.append(ratio.as_str());
    s.append(" font-family=\"Helvetica, Arial, sans-serif\" font-size=\"");
    s.append(FONT_SIZE);
    s.append("\">\n<title>");
    s.append(escape(title).as_str());
    s.append("</title>\n");
    s
}

/// The description of the picture.
pub open spec fn description(d: Option<Seq<char>>) -> Seq<char> {
    match d {
        Some(s) => "<desc>"@ + escaped(s) + "</desc>\n"@,
        None => ""@,
    }
}

/// Whether an edge is drawn with an arrowhead.
pub open spec fn pointed(e: SceneEdgeView) -> bool {
    e.kind != EdgeKind::Invisible && arrowed(e.kind)
}

/// The colour of an edge.
pub open spec fn edge_colour(e: SceneEdgeView, style: StyleView) -> Seq<char> {
    style_text(e.style.color, style.edge_color)
}

/// The arrowhead colours of the edges before number `k`, each once, in the
/// order in which they first occur.
pub open spec fn marker_colours(edges: Seq<SceneEdgeView>, style: StyleView, k: int) -> Seq<
    Seq<char>,
>
    decreases k,
{
    if k <= 0 {
        Seq::empty()
    } else {
        let before = marker_colours(edges, style, k - 1);
        let c = edge_colour(edges[k - 1], style);
        if pointed(edges[k - 1]) && !before.contains(c) {
            before.push(c)
        } else {
            before
        }
    }
}

/// Numbers that no two arrowheads share.
#[derive(Debug, Clone, PartialEq)]
pub struct MarkerCounter {
    pub next: usize,
}

impl Default for MarkerCounter {
    fn default() -> (r: Self)
        ensures
            r.next == 1,
    {
        MarkerCounter { next: 1 }
    }
}

/// The `i`-th number from `first` on; the numbers start again from zero
/// when they run out.
pub open spec fn marker_number(first: usize, i: int) -> nat {
    if first + i <= usize::MAX {
        (first + i) as nat
    } else {
        (first + i - usize::MAX - 1) as nat
    }
}

/// The id of the `i`-th arrowhead.
pub open spec fn marker_id(first: usize, i: int) -> Seq<char> {
    "advance-arrow-"@ + decimal(marker_number(first, i))
}

/// Arrowheads of one picture have ids of their own, and so have those of two
/// pictures that are drawn with one counter, as long as its numbers do not
/// start again: the second picture starts at the number behind the last one
/// of the first.
pub proof fn law_arrowheads_share_no_id(first: usize, n: int, m: int, i: int, j: int)
    requires
        0 <= n,
        0 <= m,
        first + n + m <= usize::MAX,
    ensures
        0 <= i < j < n ==> marker_id(first, i) != marker_id(first, j),
        0 <= i < n && 0 <= j < m ==> marker_id(first, i) != marker_id(
            marker_number(first, n) as usize,
            j,
        ),
{
    let prefix = "advance-arrow-"@;
    let second = marker_number(first, n) as usize;
    if 0 <= i < j < n {
        lemma_id_differs(prefix, marker_number(first, i), marker_number(first, j));
    }
    if 0 <= i < n && 0 <= j < m {
        lemma_id_differs(prefix, marker_number(first, i), marker_number(second, j));
    }
}

proof fn lemma_id_differs(prefix: Seq<char>, a: nat, b: nat)
    requires
        a != b,
    ensures
        prefix + decimal(a) != prefix + decimal(b),
{
    if prefix + decimal(a) == prefix + decimal(b) {
        assert(decimal(a) =~= (prefix + decimal(a)).skip(prefix.len() as int));
        assert(decimal(b) =~= (prefix + decimal(b)).skip(prefix.len() as int));
        lemma_decimal_differs(a, b);
    }
}

/// The definition of one arrowhead.
pub open spec fn marker(id: Seq<char>, colour: Seq<char>) -> Seq<char> {
    "<marker"@ + attribute("id"@, id)
        + " viewBox=\"0 0 10 10\" refX=\"8.5\" refY=\"5\" markerWidth=\"7\" markerHeight=\"7\" orient=\"auto\"><path d=\"M 0 1 L 9 5 L 0 9 z\""@
        + attribute("fill"@, colour) + "/></marker>"@
}

fn marker_tag(id: &str, colour: &str) -> (r: String)
    ensures
        r@ == marker(id@, colour@),
{
    let mut s = "<marker".to_owned();
    s.append(attr("id", id).as_str());
    s.append(
        " viewBox=\"0 0 10 10\" refX=\"8.5\" refY=\"5\" markerWidth=\"7\" markerHeight=\"7\" orient=\"auto\"><path d=\"M 0 1 L 9 5 L 0 9 z\"",
    );
    s.append(attr("fill", colour).as_str());
    s.append("/></marker>");
    s
}

/// The definitions of the first `k` arrowheads.
pub open spec fn markers(colours: Seq<Seq<char>>, first: usize, k: int) -> Seq<char>
    decreases k,
{
    if k <= 0 {
        ""@
    } else {
        markers(colours, first, k - 1) + marker(marker_id(first, k - 1), colours[k - 1])
    }
}

/// The definitions that the edges refer to.
pub open spec fn definitions(colours: Seq<Seq<char>>, first: usize) -> Seq<char> {
    if colours.len() == 0 {
        ""@
    } else {
        "<defs>"@ + markers(colours, first, colours.len() as int) + "</defs>\n"@
    }
}

proof fn lemma_named(names: Seq<Seq<char>>, name: Seq<char>)
    ensures
        name_index(names, name) is Some == names.contains(name),
        name_index(names, name) matches Some(k) ==> 0 <= k < names.len(),
{
    lemma_name_from(names, name, 0);
}

fn position(names: &Vec<String>, name: &str) -> (r: Option<usize>)
    ensures
        match name_index(strings(names@), name@) {
            Some(k) => r is Some && r->Some_0 == k && 0 <= k < names@.len(),
            None => r is None,
        },
        r is Some == strings(names@).contains(name@),
{
    let ghost all = strings(names@);
    proof {
        lemma_named(all, name@);
    }
    let mut i: usize = 0;
    while i < names.len()
        invariant
            i <= names@.len(),
            all == strings(names@),
            name_index(all, name@) == name_from(all, name@, i as int),
            name_index(all, name@) is Some == all.contains(name@),
        decreases names@.len() - i,
    {
        assert(all[i as int] == names@[i as int]@);
        if str_eq(names[i].as_str(), name) {
            return Some(i);
        }
        i += 1;
    }
    None
}

fn collect_colours(edges: &Vec<AdvanceSceneEdge>, style: &AdvanceStyle) -> (r: Vec<String>)
    ensures
        strings(r@) == marker_colours(scene_edges(edges@), style@, edges@.len() as int),
{
    let ghost all = scene_edges(edges@);
    let mut out: Vec<String> = Vec::new();
    let mut i: usize = 0;
    assert(strings(out@) =~= Seq::empty());
    while i < edges.len()
        invariant
            i <= edges@.len(),
            all == scene_edges(edges@),
            strings(out@) == marker_colours(all, style@, i as int),
        decreases edges@.len() - i,
    {
        assert(all[i as int] == edges@[i as int]@);
        let e = &edges[i];
        if e.kind != EdgeKind::Invisible && e.kind.has_arrow() {
            let c = style_attr(&e.style.color, style.edge_color.as_str());
            if position(&out, c.as_str()).is_none() {
                let ghost before = out@;
                let ghost item = c@;
                out.push(c);
                assert(strings(out@) =~= strings(before).push(item));
            }
        }
        i += 1;
    }
    out
}

fn numbered(first: usize, i: usize) -> (r: usize)
    ensures
        r == marker_number(first, i as int),
{
    first.wrapping_add(i)
}

fn marker_name(first: usize, i: usize) -> (r: String)
    ensures
        r@ == marker_id(first, i as int),
{
    let mut s = "advance-arrow-".to_owned();
    s.append(decimal_string(numbered(first, i)).as_str());
    s
}

fn definition_tags(colours: &Vec<String>, first: usize) -> (r: String)
    ensures
        r@ == definitions(strings(colours@), first),
{
    if colours.len() == 0 {
        return "".to_owned();
    }
    let ghost all = strings(colours@);
    let mut inner = "".to_owned();
    let mut i: usize = 0;
    while i < colours.len()
        invariant
            i <= colours@.len(),
            all == strings(colours@),
            inner@ == markers(all, first, i as int),
        decreases colours@.len() - i,
    {
        assert(all[i as int] == colours@[i as int]@);
        inner.append(marker_tag(marker_name(first, i).as_str(), colours[i].as_str()).as_str());
        i += 1;
    }
    let mut s = "<defs>".to_owned();
    s.append(inner.as_str());
    s.append("</defs>\n");
    s
}

/// Where the title of a lane stands.
pub open spec fn title_place(l: SceneLaneView, d: AdvanceDirection) -> (int, int) {
    if d == AdvanceDirection::Horizontal {
        (4 * l.x + pixels(12), 4 * l.y + 2 * l.h)
    } else {
        (4 * l.x + pixels(20), 4 * l.y + pixels(20))
    }
}

/// A lane: background and title.
pub open spec fn lane_svg(l: SceneLaneView, d: AdvanceDirection, s: StyleView) -> Seq<char> {
    let (x, y) = title_place(l, d);
    rect(
        4 * l.x,
        4 * l.y,
        4 * l.w,
        4 * l.h,
        attribute("fill"@, escaped(s.lane_fill)) + attribute("stroke"@, escaped(s.lane_stroke))
            + " stroke-width=\"2\" rx=\"8\""@,
    ) + "<text"@ + length("x"@, x) + length("y"@, y) + " font-size=\""@ + FONT_SIZE@
        + "\" font-weight=\"bold\""@ + attribute("fill"@, escaped(s.text_color)) + ">"@ + escaped(
        l.title,
    ) + "</text>\n"@
}

fn lane_tags(l: &AdvanceSceneLane, d: AdvanceDirection, s: &AdvanceStyle) -> (r: String)
    ensures
        r@ == lane_svg(l@, d, s@),
{
    let x4: i128 = 4 * (l.x as i128);
    let y4: i128 = 4 * (l.y as i128);
    let (x, y): (i128, i128) = if d == AdvanceDirection::Horizontal {
        (x4 + 12 * QUARTERS, y4 + 2 * (l.h as i128))
    } else {
        (x4 + 20 * QUARTERS, y4 + 20 * QUARTERS)
    };
    let mut more = attr("fill", escape(s.lane_fill.as_str()).as_str());
    more.append(attr("stroke", escape(s.lane_stroke.as_str()).as_str()).as_str());
    more.append(" stroke-width=\"2\" rx=\"8\"");
    let mut o = rect_tag(x4, y4, 4 * (l.w as i128), 4 * (l.h as i128), more.as_str());
    o.append("<text");
    o.append(length_attr("x", x).as_str());
    o.append(length_attr("y", y).as_str());
    o.append(" font-size=\"");
    o.append(FONT_SIZE);
    o.append("\" font-weight=\"bold\"");
    o.append(attr("fill", escape(s.text_color.as_str()).as_str()).as_str());
    o.append(">");
    o.append(escape(l.title.as_str()).as_str());
    o.append("</text>\n");
    o
}

/// The dash pattern of an edge: its own, else that of its kind.
pub open spec fn dash_attr(e: SceneEdgeView) -> Seq<char> {
    match e.style.dash {
        Some(d) => attribute("stroke-dasharray"@, escaped(d)),
        None => if e.kind == EdgeKind::Dotted || e.kind == EdgeKind::DottedOpen {
            attribute("stroke-dasharray"@, "5 4"@)
        } else {
            ""@
        },
    }
}

/// The stroke width of an edge: its own, else that of its kind.
pub open spec fn edge_width(e: SceneEdgeView) -> Seq<char> {
    stroke_width(
        e.style.stroke_width,
        if e.kind == EdgeKind::Thick || e.kind == EdgeKind::ThickOpen {
            "3.4"@
        } else {
            "1.7"@
        },
    )
}

/// The reference of an edge to its arrowhead.
pub open spec fn marker_ref(
    e: SceneEdgeView,
    style: StyleView,
    colours: Seq<Seq<char>>,
    first: usize,
) -> Seq<char> {
    if !arrowed(e.kind) {
        ""@
    } else {
        match name_index(colours, edge_colour(e, style)) {
            Some(i) => " marker-end=\"url(#"@ + marker_id(first, i) + ")\""@,
            None => ""@,
        }
    }
}

/// The way through the first `k` points.
pub open spec fn path_to(p: Seq<Point>, k: int) -> Seq<char>
    decreases k,
{
    if k <= 1 {
        "M "@ + shown(4 * p[0].x) + " "@ + shown(4 * p[0].y)
    } else {
        path_to(p, k - 1) + " L "@ + shown(4 * p[k - 1].x) + " "@ + shown(4 * p[k - 1].y)
    }
}

/// The way through all points; a single point is no way.
pub open spec fn path(p: Seq<Point>) -> Seq<char> {
    if p.len() >= 2 {
        path_to(p, p.len() as int)
    } else {
        ""@
    }
}

fn path_text(p: &Vec<Point>) -> (r: String)
    ensures
        r@ == path(p@),
{
    if p.len() < 2 {
        return "".to_owned();
    }
    let mut s = "M ".to_owned();
    s.append(show(4 * (p[0].x as i128)).as_str());
    s.append(" ");
    s.append(show(4 * (p[0].y as i128)).as_str());
    let mut i: usize = 1;
    while i < p.len()
        invariant
            1 <= i <= p@.len(),
            s@ == path_to(p@, i as int),
        decreases p@.len() - i,
    {
        s.append(" L ");
        s.append(show(4 * (p[i].x as i128)).as_str());
        s.append(" ");
        s.append(show(4 * (p[i].y as i128)).as_str());
        i += 1;
    }
    s
}

/// The place of an edge's label: where it was put, else beside the longest
/// upright piece, else at the middle point.
pub open spec fn label_place(e: SceneEdgeView) -> (int, int) {
    let p = e.points;
    let mid = p[p.len() as int / 2];
    match e.label_pos {
        Some(at) => (4 * at.x, 4 * at.y),
        None => match longest_upright(course(p), p.len() - 1) {
            Some((i, len)) if len >= MIN_UPRIGHT => (
                4 * p[i].x + pixels(8),
                2 * (p[i].y + p[i + 1].y),
            ),
            _ => (4 * mid.x, 4 * mid.y),
        },
    }
}

/// Whether a label that is drawn has a place.
pub open spec fn label_placed(e: SceneEdgeView) -> bool {
    e.kind == EdgeKind::Invisible || e.label is None || e.label_pos is Some || e.points.len() > 0
}

fn label_place_of(e: &AdvanceSceneEdge) -> (r: (i128, i128))
    requires
        e@.label_pos is Some || e@.points.len() > 0,
    ensures
        (r.0 as int, r.1 as int) == label_place(e@),
        -0x100_0000_0000_0000_0000 <= r.0 <= 0x100_0000_0000_0000_0000,
        -0x100_0000_0000_0000_0000 <= r.1 <= 0x100_0000_0000_0000_0000,
{
    if let Some(at) = e.label_pos {
        return (4 * (at.x as i128), 4 * (at.y as i128));
    }
    let n: usize = e.points.len();
    if let Some((i, len)) = find_upright(&e.points) {
        let (a, b) = (e.points[i], e.points[i + 1]);
        if len >= MIN_UPRIGHT as i128 {
            return (4 * (a.x as i128) + 8 * QUARTERS, 2 * (a.y as i128 + b.y as i128));
        }
    }
    let mid = e.points[n / 2];
    (4 * (mid.x as i128), 4 * (mid.y as i128))
}

/// The label of an edge, on a plate of its own.
pub open spec fn edge_label(e: SceneEdgeView, s: StyleView, label: Seq<char>) -> Seq<char> {
    let (x, y) = label_place(e);
    let w = 4 * text_px(label) + pixels(14);
    "<rect"@ + length("x"@, x - w / 2) + length("y"@, y - pixels(9)) + length("width"@, w)
        + " height=\"18\""@ + attribute("fill"@, style_text(e.style.label_fill, s.label_fill))
        + attribute("stroke"@, escaped(s.lane_stroke)) + " stroke-width=\"1\" rx=\"3\"/>\n"@
        + text_line(x, y, escaped(s.text_color), label)
}

#[verifier::spinoff_prover]
#[verifier::rlimit(40)]
fn edge_label_tags(e: &AdvanceSceneEdge, s: &AdvanceStyle, label: &str) -> (r: String)
    requires
        e@.label_pos is Some || e@.points.len() > 0,
    ensures
        r@ == edge_label(e@, s@, label@),
{
    let (x, y) = label_place_of(e);
    let half: i128 = 2 * (width_px(label) as i128) + 7 * QUARTERS;
    assert(2 * half == 4 * text_px(label@) + pixels(14));
    let mut o = "<rect".to_owned();
    o.append(length_attr("x", x - half).as_str());
    o.append(length_attr("y", y - 9 * QUARTERS).as_str());
    o.append(length_attr("width", 2 * half).as_str());
    o.append(" height=\"18\"");
    o.append(
        attr("fill", style_attr(&e.style.label_fill, s.label_fill.as_str()).as_str()).as_str(),
    );
    o.append(attr("stroke", escape(s.lane_stroke.as_str()).as_str()).as_str());
    o.append(" stroke-width=\"1\" rx=\"3\"/>\n");
    o.append(text_line_tag(x, y, escape(s.text_color.as_str()).as_str(), label).as_str());
    o
}

/// An edge: its way, then its label.
pub open spec fn edge_svg(
    e: SceneEdgeView,
    s: StyleView,
    colours: Seq<Seq<char>>,
    first: usize,
) -> Seq<char> {
    if e.kind == EdgeKind::Invisible {
        ""@
    } else {
        let way = "<path"@ + attribute("d"@, path(e.points)) + " fill=\"none\""@ + attribute(
            "stroke"@,
            edge_colour(e, s),
        ) + attribute("stroke-width"@, edge_width(e)) + dash_attr(e) + marker_ref(
            e,
            s,
            colours,
            first,
        ) + "/>\n"@;
        match e.label {
            Some(label) => way + edge_label(e, s, label),
            None => way,
        }
    }
}

fn edge_tags(e: &AdvanceSceneEdge, s: &AdvanceStyle, colours: &Vec<String>, first: usize) -> (r:
    String)
    requires
        label_placed(e@),
    ensures
        r@ == edge_svg(e@, s@, strings(colours@), first),
{
    if e.kind == EdgeKind::Invisible {
        return "".to_owned();
    }
    let colour = style_attr(&e.style.color, s.edge_color.as_str());
    let dash = match &e.style.dash {
        Some(d) => attr("stroke-dasharray", escape(d.as_str()).as_str()),
        None => {
            if e.kind == EdgeKind::Dotted || e.kind == EdgeKind::DottedOpen {
                attr("stroke-dasharray", "5 4")
            } else {
                "".to_owned()
            }
        },
    };
    let width = stroke_width_text(
        &e.style.stroke_width,
        if e.kind == EdgeKind::Thick || e.kind == EdgeKind::ThickOpen {
            "3.4"
        } else {
            "1.7"
        },
    );
    let mut head = "".to_owned();
    if e.kind.has_arrow() {
        if let Some(i) = position(colours, colour.as_str()) {
            head = " marker-end=\"url(#".to_owned();
            head.append(marker_name(first, i).as_str());
            head.append(")\"");
        }
    }
    let mut o = "<path".to_owned();
    o.append(attr("d", path_text(&e.points).as_str()).as_str());
    o.append(" fill=\"none\"");
    o.append(attr("stroke", colour.as_str()).as_str());
    o.append(attr("stroke-width", width.as_str()).as_str());
    o.append(dash.as_str());
    o.append(head.as_str());
    o.append("/>\n");
    if let Some(label) = &e.label {
        o.append(edge_label_tags(e, s, label.as_str()).as_str());
    }
    o
}

/// The lanes before number `k`.
pub open spec fn lanes_svg(sc: SceneView, k: int) -> Seq<char>
    decreases k,
{
    if k <= 0 {
        ""@
    } else {
        lanes_svg(sc, k - 1) + lane_svg(sc.lanes[k - 1], sc.direction, sc.style)
    }
}

/// The edges before number `k`.
pub open spec fn edges_svg(sc: SceneView, colours: Seq<Seq<char>>, first: usize, k: int) -> Seq<char>
    decreases k,
{
    if k <= 0 {
        ""@
    } else {
        edges_svg(sc, colours, first, k - 1) + edge_svg(sc.edges[k - 1], sc.style, colours, first)
    }
}

/// The nodes before number `k`.
pub open spec fn nodes_svg(sc: SceneView, t: ThemeView, k: int) -> Seq<char>
    decreases k,
{
    if k <= 0 {
        ""@
    } else {
        nodes_svg(sc, t, k - 1) + node_svg(sc.nodes[k - 1], t, sc.style.text_color)
    }
}

/// The arrowhead colours of a scene.
pub open spec fn scene_colours(sc: SceneView) -> Seq<Seq<char>> {
    marker_colours(sc.edges, sc.style, sc.edges.len() as int)
}

/// The picture of a scene. Lanes lie below edges, edges below nodes.
pub open spec fn scene_svg(
    sc: SceneView,
    t: ThemeView,
    responsive: bool,
    ratio: Option<Seq<char>>,
    first: usize,
) -> Seq<char> {
    let colours = scene_colours(sc);
    opening(sc.width, sc.height, or_default(sc.title, "Advance diagram"@), responsive, ratio)
        + description(sc.description) + definitions(colours, first) + lanes_svg(
        sc,
        sc.lanes.len() as int,
    ) + edges_svg(sc, colours, first, sc.edges.len() as int) + nodes_svg(
        sc,
        t,
        sc.nodes.len() as int,
    ) + "</svg>\n"@
}

/// Whether every label that is drawn has a place.
pub open spec fn labels_placed(sc: SceneView) -> bool {
    forall|i: int| 0 <= i < sc.edges.len() ==> label_placed(#[trigger] sc.edges[i])
}

fn lane_part(sc: &AdvanceScene) -> (r: String)
    ensures
        r@ == lanes_svg(sc@, sc@.lanes.len() as int),
{
    let mut s = "".to_owned();
    let mut i: usize = 0;
    while i < sc.lanes.len()
        invariant
            i <= sc.lanes@.len(),
            s@ == lanes_svg(sc@, i as int),
        decreases sc.lanes@.len() - i,
    {
        assert(sc@.lanes[i as int] == sc.lanes@[i as int]@);
        s.append(lane_tags(&sc.lanes[i], sc.direction, &sc.style).as_str());
        i += 1;
    }
    s
}

fn edge_part(sc: &AdvanceScene, colours: &Vec<String>, first: usize) -> (r: String)
    requires
        labels_placed(sc@),
    ensures
        r@ == edges_svg(sc@, strings(colours@), first, sc@.edges.len() as int),
{
    let mut s = "".to_owned();
    let mut i: usize = 0;
    while i < sc.edges.len()
        invariant
            i <= sc.edges@.len(),
            labels_placed(sc@),
            s@ == edges_svg(sc@, strings(colours@), first, i as int),
        decreases sc.edges@.len() - i,
    {
        assert(sc@.edges[i as int] == sc.edges@[i as int]@);
        s.append(edge_tags(&sc.edges[i], &sc.style, colours, first).as_str());
        i += 1;
    }
    s
}

fn node_part(sc: &AdvanceScene, theme: &Theme) -> (r: String)
    ensures
        r@ == nodes_svg(sc@, theme@, sc@.nodes.len() as int),
{
    let mut s = "".to_owned();
    let mut i: usize = 0;
    while i < sc.nodes.len()
        invariant
            i <= sc.nodes@.len(),
            s@ == nodes_svg(sc@, theme@, i as int),
        decreases sc.nodes@.len() - i,
    {
        assert(sc@.nodes[i as int] == sc.nodes@[i as int]@);
        s.append(render_node(&sc.nodes[i], theme, sc.style.text_color.as_str()).as_str());
        i += 1;
    }
    s
}

/// Render with explicit viewport options. The arrowheads take their
/// numbers from `counter`.
pub fn to_svg_with(
    sc: &AdvanceScene,
    theme: &Theme,
    opts: &SvgOptions,
    counter: &mut MarkerCounter,
) -> (r: String)
    requires
        labels_placed(sc@),
    ensures
        r@ == scene_svg(
            sc@,
            theme@,
            opts.responsive,
            opt_text(opts.preserve_aspect_ratio),
            old(counter).next,
        ),
        final(counter).next == marker_number(old(counter).next, scene_colours(sc@).len() as int),
{
    let first: usize = counter.next;
    let title = match &sc.title {
        Some(t) => t.as_str(),
        None => "Advance diagram",
    };
    let mut s = svg_open(sc.width, sc.height, title, opts);
    let desc = match &sc.description {
        Some(d) => {
            let mut t = "<desc>".to_owned();
            t.append(escape(d.as_str()).as_str());
            t.append("</desc>\n");
            t
        },
        None => "".to_owned(),
    };
    s.append(desc.as_str());
    let colours = collect_colours(&sc.edges, &sc.style);
    s.append(definition_tags(&colours, first).as_str());
    s.append(lane_part(sc).as_str());
    s.append(edge_part(sc, &colours, first).as_str());
    s.append(node_part(sc, theme).as_str());
    s.append("</svg>\n");
    counter.next = numbered(first, colours.len());
    s
}

/// Render an advance scene to an SVG string.
pub fn to_svg(sc: &AdvanceScene, theme: &Theme, counter: &mut MarkerCounter) -> (r: String)
    requires
        labels_placed(sc@),
    ensures
        r@ == scene_svg(sc@, theme@, false, None, old(counter).next),
        final(counter).next == marker_number(old(counter).next, scene_colours(sc@).len() as int),
{
    let opts = SvgOptions::default();
    to_svg_with(sc, theme, &opts, counter)
}

} // verus!
