//! Relationship lines of entity diagrams.

use vstd::prelude::*;

use crate::advance::scene::Px;
use crate::advance::svg_node::{circle, circle_tag};
use crate::class::head::{
    curve_svg, strokes, strokes_svg, write_curve, write_strokes, Curve,
};
use crate::markup::{attr, attribute};
use crate::model::Card;
use crate::style::EDGE_COLOR;
use crate::tangent::{beside, point_beside};

verus! {

/// Radius of the circle for "none".
pub const NONE_R: Px = 288000;

/// The symbol at one end of a relationship: strokes, and a hollow circle.
#[derive(Debug)]
pub struct Glyph {
    pub segments: Vec<((Px, Px), (Px, Px))>,
    pub circle: Option<((Px, Px), Px)>,
}

/// A [`Glyph`] in mathematical terms.
#[verifier::ext_equal]
pub struct GlyphView {
    pub segments: Seq<((int, int), (int, int))>,
    pub circle: Option<((int, int), int)>,
}

impl View for Glyph {
    type V = GlyphView;

    open spec fn view(&self) -> GlyphView {
        GlyphView {
            segments: strokes(self.segments@),
            circle: match self.circle {
                Some((c, r)) => Some(((c.0 as int, c.1 as int), r as int)),
                None => None,
            },
        }
    }
}

/// A stroke across the line.
pub open spec fn tick(e: (Px, Px), c: (Px, Px), k: int) -> ((int, int), (int, int)) {
    (beside(e, c, k, -352000), beside(e, c, k, 352000))
}

/// The three prongs of a crow's foot; they touch the table.
pub open spec fn fork(e: (Px, Px), c: (Px, Px)) -> Seq<((int, int), (int, int))> {
    let f = beside(e, c, 768000, 0);
    seq![
        (f, beside(e, c, 0, -384000)),
        (f, beside(e, c, 0, 384000)),
        (f, (e.0 as int, e.1 as int)),
    ]
}

/// The symbol for a cardinality at the end `e` of a curve that comes from
/// `c`: two ticks for one, a tick and a circle for none or one, a crow's
/// foot for many, with a circle where there may be none, else with a tick.
pub open spec fn glyph_of(e: (Px, Px), c: (Px, Px), card: Card) -> GlyphView {
    match card {
        Card::One => GlyphView {
            segments: seq![tick(e, c, 512000), tick(e, c, 832000)],
            circle: None,
        },
        Card::ZeroOne => GlyphView {
            segments: seq![tick(e, c, 512000)],
            circle: Some((beside(e, c, 1088000, 0), NONE_R as int)),
        },
        Card::ZeroMany => GlyphView {
            segments: fork(e, c),
            circle: Some((beside(e, c, 1216000, 0), NONE_R as int)),
        },
        Card::OneMany => GlyphView {
            segments: fork(e, c).push(tick(e, c, 1024000)),
            circle: None,
        },
    }
}

fn tick_at(e: (Px, Px), c: (Px, Px), k: Px) -> (r: ((Px, Px), (Px, Px)))
    requires
        0 <= k <= 0x1_0000_0000,
    ensures
        ((r.0.0 as int, r.0.1 as int), (r.1.0 as int, r.1.1 as int)) == tick(e, c, k as int),
{
    (point_beside(e, c, k, -352000), point_beside(e, c, k, 352000))
}

fn fork_at(e: (Px, Px), c: (Px, Px)) -> (r: Vec<((Px, Px), (Px, Px))>)
    ensures
        strokes(r@) == fork(e, c),
{
    let f: (Px, Px) = point_beside(e, c, 768000, 0);
    let r = vec![
        (f, point_beside(e, c, 0, -384000)),
        (f, point_beside(e, c, 0, 384000)),
        (f, e),
    ];
    assert(strokes(r@) =~= fork(e, c));
    r
}

/// The symbol for a cardinality at the end `e` of a curve that comes from
/// `c`.
pub fn glyph(e: (Px, Px), c: (Px, Px), card: Card) -> (r: Glyph)
    ensures
        r@ == glyph_of(e, c, card),
{
    let r = match card {
        Card::One => Glyph {
            segments: vec![tick_at(e, c, 512000), tick_at(e, c, 832000)],
            circle: None,
        },
        Card::ZeroOne => Glyph {
            segments: vec![tick_at(e, c, 512000)],
            circle: Some((point_beside(e, c, 1088000, 0), NONE_R)),
        },
        Card::ZeroMany => Glyph {
            segments: fork_at(e, c),
            circle: Some((point_beside(e, c, 1216000, 0), NONE_R)),
        },
        Card::OneMany => {
            let mut segments = fork_at(e, c);
            let ghost before = segments@;
            segments.push(tick_at(e, c, 1024000));
            assert(strokes(segments@) =~= strokes(before).push(tick(e, c, 1024000)));
            Glyph { segments, circle: None }
        },
    };
    assert(r@ =~= glyph_of(e, c, card));
    r
}

/// A symbol as SVG.
pub open spec fn glyph_svg(g: GlyphView) -> Seq<char> {
    strokes_svg(g.segments, "1.7"@, g.segments.len() as int) + (match g.circle {
        Some((c, r)) => circle(
            4 * c.0,
            4 * c.1,
            4 * r,
            " fill=\"#ffffff\""@ + attribute("stroke"@, EDGE_COLOR@) + " stroke-width=\"1.7\""@,
        ),
        None => ""@,
    })
}

fn write_glyph(g: &Glyph) -> (r: String)
    ensures
        r@ == glyph_svg(g@),
{
    let mut s = write_strokes(&g.segments, "1.7");
    if let Some((c, r)) = g.circle {
        let mut more = " fill=\"#ffffff\"".to_owned();
        more.append(attr("stroke", EDGE_COLOR).as_str());
        more.append(" stroke-width=\"1.7\"");
        s.append(
            circle_tag(
                4 * (c.0 as i128),
                4 * (c.1 as i128),
                4 * (r as i128),
                more.as_str(),
            ).as_str(),
        );
    } else {
        s.append("");
    }
    s
}

/// A relationship: its line and the symbols at both ends.
pub open spec fn relation_svg(q: Curve, dotted: bool, cards: (Card, Card)) -> Seq<char> {
    curve_svg(
        q,
        "1.7"@,
        if dotted {
            " stroke-dasharray=\"5 4\""@
        } else {
            ""@
        },
    ) + glyph_svg(glyph_of(q.0, q.1, cards.0)) + glyph_svg(glyph_of(q.3, q.2, cards.1))
}

/// Draw a relationship along a curve.
pub fn write_relation(q: Curve, dotted: bool, cards: (Card, Card)) -> (out: String)
    ensures
        out@ == relation_svg(q, dotted, cards),
{
    let mut s = write_curve(
        q,
        "1.7",
        if dotted {
            " stroke-dasharray=\"5 4\""
        } else {
            ""
        },
    );
    s.append(write_glyph(&glyph(q.0, q.1, cards.0)).as_str());
    s.append(write_glyph(&glyph(q.3, q.2, cards.1)).as_str());
    s
}

} // verus!
