//! Relationship lines of class diagrams.

use vstd::prelude::*;

use crate::advance::scene::{show, shown, Px};
use crate::advance::svg_node::{length, length_attr};
use crate::class::RelStyle;
use crate::markup::{attr, attribute, escape, escaped};
use crate::mindmap::svg::{points_text, write_points, write_spot};
use crate::mindmap::scene::corners;
use crate::mindmap::svg::spot;
use crate::model::{opt_text, RelKind};
use crate::style::{EDGE_COLOR, TEXT_COLOR};
use crate::tangent::{beside, point_beside};

verus! {

/// The symbol at the end of a relationship.
#[derive(Debug)]
pub struct Head {
    /// A triangle or a diamond; empty where there is none.
    pub polygon: Vec<(Px, Px)>,
    /// Whether the polygon is filled.
    pub filled: bool,
    /// The strokes of an open arrow.
    pub segments: Vec<((Px, Px), (Px, Px))>,
}

/// A [`Head`] in mathematical terms.
#[verifier::ext_equal]
pub struct HeadView {
    pub polygon: Seq<(int, int)>,
    pub filled: bool,
    pub segments: Seq<((int, int), (int, int))>,
}

/// Strokes over whole numbers.
pub open spec fn strokes(v: Seq<((Px, Px), (Px, Px))>) -> Seq<((int, int), (int, int))> {
    v.map_values(
        |s: ((Px, Px), (Px, Px))| ((s.0.0 as int, s.0.1 as int), (s.1.0 as int, s.1.1 as int)),
    )
}

impl View for Head {
    type V = HeadView;

    open spec fn view(&self) -> HeadView {
        HeadView {
            polygon: corners(self.polygon@),
            filled: self.filled,
            segments: strokes(self.segments@),
        }
    }
}

/// The symbol at the end `e` of a curve that comes from `c`: a triangle at a
/// parent, a diamond at a whole, an open arrow, or none.
pub open spec fn head_of(e: (Px, Px), c: (Px, Px), kind: RelKind) -> HeadView {
    let tip = (e.0 as int, e.1 as int);
    match kind {
        RelKind::Inheritance | RelKind::Realization => HeadView {
            polygon: seq![tip, beside(e, c, 896000, -512000), beside(e, c, 896000, 512000)],
            filled: false,
            segments: Seq::empty(),
        },
        RelKind::Composition | RelKind::Aggregation => HeadView {
            polygon: seq![
                tip,
                beside(e, c, 576000, -416000),
                beside(e, c, 1152000, 0),
                beside(e, c, 576000, 416000),
            ],
            filled: kind == RelKind::Composition,
            segments: Seq::empty(),
        },
        RelKind::Association | RelKind::Dependency => HeadView {
            polygon: Seq::empty(),
            filled: false,
            segments: seq![
                (beside(e, c, 768000, -448000), tip),
                (beside(e, c, 768000, 448000), tip),
            ],
        },
        RelKind::Link => HeadView {
            polygon: Seq::empty(),
            filled: false,
            segments: Seq::empty(),
        },
    }
}

/// The symbol at the end `e` of a curve that comes from `c`.
pub fn head(e: (Px, Px), c: (Px, Px), kind: RelKind) -> (r: Head)
    ensures
        r@ == head_of(e, c, kind),
{
    let r = match kind {
        RelKind::Inheritance | RelKind::Realization => Head {
            polygon: vec![e, point_beside(e, c, 896000, -512000), point_beside(e, c, 896000, 512000)],
            filled: false,
            segments: Vec::new(),
        },
        RelKind::Composition | RelKind::Aggregation => Head {
            polygon: vec![
                e,
                point_beside(e, c, 576000, -416000),
                point_beside(e, c, 1152000, 0),
                point_beside(e, c, 576000, 416000),
            ],
            filled: kind == RelKind::Composition,
            segments: Vec::new(),
        },
        RelKind::Association | RelKind::Dependency => Head {
            polygon: Vec::new(),
            filled: false,
            segments: vec![
                (point_beside(e, c, 768000, -448000), e),
                (point_beside(e, c, 768000, 448000), e),
            ],
        },
        RelKind::Link => Head { polygon: Vec::new(), filled: false, segments: Vec::new() },
    };
    assert(r@ =~= head_of(e, c, kind));
    r
}

/// A straight stroke of the given width.
pub open spec fn stroke(s: ((int, int), (int, int)), width: Seq<char>) -> Seq<char> {
    "<path d=\"M "@ + shown(4 * s.0.0) + " "@ + shown(4 * s.0.1) + " L "@ + shown(4 * s.1.0)
        + " "@ + shown(4 * s.1.1) + "\" fill=\"none\""@ + attribute("stroke"@, EDGE_COLOR@)
        + attribute("stroke-width"@, width) + "/>\n"@
}

pub fn write_stroke(a: (Px, Px), b: (Px, Px), width: &str) -> (r: String)
    ensures
        r@ == stroke(((a.0 as int, a.1 as int), (b.0 as int, b.1 as int)), width@),
{
    let mut s = "<path d=\"M ".to_owned();
    s.append(show(4 * (a.0 as i128)).as_str());
    s.append(" ");
    s.append(show(4 * (a.1 as i128)).as_str());
    s.append(" L ");
    s.append(show(4 * (b.0 as i128)).as_str());
    s.append(" ");
    s.append(show(4 * (b.1 as i128)).as_str());
    s.append("\" fill=\"none\"");
    s.append(attr("stroke", EDGE_COLOR).as_str());
    s.append(attr("stroke-width", width).as_str());
    s.append("/>\n");
    s
}

/// The first `k` strokes.
pub open spec fn strokes_svg(v: Seq<((int, int), (int, int))>, width: Seq<char>, k: int) -> Seq<
    char,
>
    decreases k,
{
    if k <= 0 {
        ""@
    } else {
        strokes_svg(v, width, k - 1) + stroke(v[k - 1], width)
    }
}

pub fn write_strokes(v: &Vec<((Px, Px), (Px, Px))>, width: &str) -> (r: String)
    ensures
        r@ == strokes_svg(strokes(v@), width@, v@.len() as int),
{
    let ghost all = strokes(v@);
    let mut s = "".to_owned();
    let mut i: usize = 0;
    while i < v.len()
        invariant
            i <= v@.len(),
            all == strokes(v@),
            s@ == strokes_svg(all, width@, i as int),
        decreases v@.len() - i,
    {
        s.append(write_stroke(v[i].0, v[i].1, width).as_str());
        i += 1;
    }
    s
}

/// A symbol as SVG.
pub open spec fn head_svg(h: HeadView) -> Seq<char> {
    (if h.polygon.len() == 0 {
        ""@
    } else {
        "<polygon"@ + attribute("points"@, points_text(h.polygon, h.polygon.len() as int))
            + attribute(
            "fill"@,
            if h.filled {
                EDGE_COLOR@
            } else {
                "#ffffff"@
            },
        ) + attribute("stroke"@, EDGE_COLOR@) + " stroke-width=\"1.6\"/>\n"@
    }) + strokes_svg(h.segments, "1.6"@, h.segments.len() as int)
}

fn write_head(h: &Head) -> (r: String)
    ensures
        r@ == head_svg(h@),
{
    let mut s = if h.polygon.len() == 0 {
        "".to_owned()
    } else {
        let mut p = "<polygon".to_owned();
        p.append(attr("points", write_points(&h.polygon).as_str()).as_str());
        p.append(
            attr(
                "fill",
                if h.filled {
                    EDGE_COLOR
                } else {
                    "#ffffff"
                },
            ).as_str(),
        );
        p.append(attr("stroke", EDGE_COLOR).as_str());
        p.append(" stroke-width=\"1.6\"/>\n");
        p
    };
    s.append(write_strokes(&h.segments, "1.6").as_str());
    s
}

/// A cardinality, a little inward from the end `e` and beside the line.
pub open spec fn card_svg(e: (Px, Px), c: (Px, Px), t: Option<Seq<char>>) -> Seq<char> {
    match t {
        Some(t) => "<text"@ + length("x"@, 4 * beside(e, c, 896000, 576000).0) + length(
            "y"@,
            4 * beside(e, c, 896000, 576000).1,
        ) + " dy=\"0.33em\" text-anchor=\"middle\""@ + attribute("fill"@, TEXT_COLOR@)
            + " font-size=\"11\">"@ + escaped(t) + "</text>\n"@,
        None => ""@,
    }
}

fn card_label(e: (Px, Px), c: (Px, Px), t: &Option<String>) -> (r: String)
    ensures
        r@ == card_svg(e, c, opt_text(*t)),
{
    match t {
        Some(t) => {
            let p: (Px, Px) = point_beside(e, c, 896000, 576000);
            let mut s = "<text".to_owned();
            s.append(length_attr("x", 4 * (p.0 as i128)).as_str());
            s.append(length_attr("y", 4 * (p.1 as i128)).as_str());
            s.append(" dy=\"0.33em\" text-anchor=\"middle\"");
            s.append(attr("fill", TEXT_COLOR).as_str());
            s.append(" font-size=\"11\">");
            s.append(escape(t.as_str()).as_str());
            s.append("</text>\n");
            s
        },
        None => "".to_owned(),
    }
}

/// The four points of a curve.
pub type Curve = ((Px, Px), (Px, Px), (Px, Px), (Px, Px));

/// A curve as SVG.
pub open spec fn curve_svg(q: Curve, width: Seq<char>, dash: Seq<char>) -> Seq<char> {
    "<path d=\"M "@ + spot(q.0, " "@) + " C "@ + spot(q.1, " "@) + ", "@ + spot(q.2, " "@)
        + ", "@ + spot(q.3, " "@) + "\" fill=\"none\""@ + attribute("stroke"@, EDGE_COLOR@)
        + attribute("stroke-width"@, width) + dash + "/>\n"@
}

pub fn write_curve(q: Curve, width: &str, dash: &str) -> (r: String)
    ensures
        r@ == curve_svg(q, width@, dash@),
{
    let mut s = "<path d=\"M ".to_owned();
    s.append(write_spot(q.0, " ").as_str());
    s.append(" C ");
    s.append(write_spot(q.1, " ").as_str());
    s.append(", ");
    s.append(write_spot(q.2, " ").as_str());
    s.append(", ");
    s.append(write_spot(q.3, " ").as_str());
    s.append("\" fill=\"none\"");
    s.append(attr("stroke", EDGE_COLOR).as_str());
    s.append(attr("stroke-width", width).as_str());
    s.append(dash);
    s.append("/>\n");
    s
}

/// A relationship: its line, its symbol and its cardinalities.
pub open spec fn relation_svg(q: Curve, dotted: bool, r: RelStyle) -> Seq<char> {
    curve_svg(
        q,
        "1.6"@,
        if dotted {
            " stroke-dasharray=\"6 4\""@
        } else {
            ""@
        },
    ) + head_svg(head_of(q.3, q.2, r.kind)) + card_svg(q.0, q.1, opt_text(r.from_card)) + card_svg(
        q.3,
        q.2,
        opt_text(r.to_card),
    )
}

/// Draw a relationship along a curve.
pub fn write_relation(q: Curve, dotted: bool, r: &RelStyle) -> (out: String)
    ensures
        out@ == relation_svg(q, dotted, *r),
{
    let mut s = write_curve(
        q,
        "1.6",
        if dotted {
            " stroke-dasharray=\"6 4\""
        } else {
            ""
        },
    );
    s.append(write_head(&head(q.3, q.2, r.kind)).as_str());
    s.append(card_label(q.0, q.1, &r.from_card).as_str());
    s.append(card_label(q.3, q.2, &r.to_card).as_str());
    s
}

} // verus!
