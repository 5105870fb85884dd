//! The symbols and cardinalities of a relation stand at its ends.

use vstd::prelude::*;

use crate::advance::scene::Px;
use crate::advance::svg_node::length;
use crate::class::head::{
    card_svg, curve_svg, head_of, head_svg, relation_svg, stroke, strokes_svg, Curve,
};
use crate::class::RelStyle;
use crate::emit::text_laws::{
    holds, is_caption, lemma_holds_around, lemma_holds_here, lemma_holds_last, lemma_holds_more,
    lemma_holds_part,
};
use crate::er::relation_laws::{px, stroke_between};
use crate::markup::{attribute, is_markup, law_plain_text_is_kept};
use crate::mindmap::svg::points_text;
use crate::model::{opt_text, RelKind};
use crate::style::{EDGE_COLOR, TEXT_COLOR};
use crate::text::occurs_at;
use crate::tangent::{beside, distance, is_beside, law_points_lie_beside, well_within};

verus! {

/// Whether a point is so many pixels from `e` towards `c`, and so many to
/// the side.
pub open spec fn stands(p: (int, int), e: (Px, Px), c: (Px, Px), k: int, t: int) -> bool {
    is_beside(p, e, c, k, t, distance(c.0 - e.0, c.1 - e.1))
}

/// A text in the middle of a point.
pub open spec fn text_at(p: (int, int), t: Seq<char>) -> Seq<char> {
    "<text"@ + length("x"@, 4 * p.0) + length("y"@, 4 * p.1)
        + " dy=\"0.33em\" text-anchor=\"middle\""@ + attribute("fill"@, TEXT_COLOR@)
        + " font-size=\"11\">"@ + t + "</text>\n"@
}

/// A polygon with the given corners.
pub open spec fn corners_text(corners: Seq<(int, int)>, fill: Seq<char>) -> Seq<char> {
    "<polygon"@ + attribute("points"@, points_text(corners, corners.len() as int)) + attribute(
        "fill"@,
        fill,
    )
}

/// The fill of a diamond.
pub open spec fn diamond_fill(kind: RelKind) -> Seq<char> {
    if kind is Composition {
        EDGE_COLOR@
    } else {
        "#ffffff"@
    }
}

/// Whether a text draws the symbol of a relation at the end `e` of a line
/// that comes from `c`: a hollow triangle at a parent or an interface, a
/// diamond at a whole, filled where the parts belong to it alone, an open
/// arrow where one class uses another.
pub open spec fn head_at(t: Seq<char>, e: (Px, Px), c: (Px, Px), kind: RelKind) -> bool {
    let tip = (e.0 as int, e.1 as int);
    &&& kind is Inheritance || kind is Realization ==> exists|p: Seq<(int, int)>|
        {
            &&& p.len() == 3 && p[0] == tip
            &&& stands(p[1], e, c, px(14), px(-8)) && stands(p[2], e, c, px(14), px(8))
            &&& holds(t, #[trigger] corners_text(p, "#ffffff"@))
        }
    &&& kind is Composition || kind is Aggregation ==> exists|p: Seq<(int, int)>|
        {
            &&& p.len() == 4 && p[0] == tip
            &&& stands(p[1], e, c, px(9), px(-13) / 2) && stands(p[3], e, c, px(9), px(13) / 2)
            &&& stands(p[2], e, c, px(18), 0)
            &&& holds(t, #[trigger] corners_text(p, diamond_fill(kind)))
        }
    &&& kind is Association || kind is Dependency ==> exists|a: (int, int), b: (int, int)|
        {
            &&& stands(a, e, c, px(12), px(-7)) && stands(b, e, c, px(12), px(7))
            &&& holds(t, #[trigger] stroke_between(a, tip))
            &&& holds(t, #[trigger] stroke_between(b, tip))
        }
}

/// Whether a text shows a cardinality beside the end `e` of a line that
/// comes from `c`.
pub open spec fn card_at(t: Seq<char>, e: (Px, Px), c: (Px, Px), card: Seq<char>) -> bool {
    exists|p: (int, int)|
        stands(p, e, c, px(14), px(9)) && holds(t, #[trigger] text_at(p, card))
}

proof fn lemma_stroke(v: ((int, int), (int, int)))
    ensures
        holds(stroke(v, "1.6"@), stroke_between(v.0, v.1)),
{
    reveal_strlit("\"");
    reveal_strlit("\" fill=\"none\"");
    reveal_strlit(" fill=\"none\"");
    let none = Seq::<char>::empty();
    let rest = " fill=\"none\""@ + attribute("stroke"@, EDGE_COLOR@) + attribute(
        "stroke-width"@,
        "1.6"@,
    ) + "/>\n"@;
    assert("\" fill=\"none\""@ =~= "\""@ + " fill=\"none\""@);
    assert(stroke(v, "1.6"@) =~= none + stroke_between(v.0, v.1) + rest);
    lemma_holds_here(none, stroke_between(v.0, v.1), rest);
}

proof fn lemma_card(t: Seq<char>, e: (Px, Px), c: (Px, Px), card: Seq<char>)
    requires
        well_within(e.0) && well_within(e.1) && well_within(c.0) && well_within(c.1),
        is_caption(card),
        holds(t, card_svg(e, c, Some(card))),
    ensures
        card_at(t, e, c, card),
{
    let p = beside(e, c, px(14), px(9));
    law_points_lie_beside(e, c, px(14), px(9));
    assert forall|i: int| 0 <= i < card.len() implies !is_markup(#[trigger] card[i]) && card[i]
        != '&' by {
        assert(crate::emit::text_laws::is_common(card[i]));
    }
    law_plain_text_is_kept(card);
    assert(card_svg(e, c, Some(card)) == text_at(p, card));
}

proof fn lemma_head(t: Seq<char>, e: (Px, Px), c: (Px, Px), kind: RelKind)
    requires
        well_within(e.0) && well_within(e.1) && well_within(c.0) && well_within(c.1),
        holds(t, head_svg(head_of(e, c, kind))),
    ensures
        head_at(t, e, c, kind),
{
    let h = head_of(e, c, kind);
    let s = head_svg(h);
    let tip = (e.0 as int, e.1 as int);
    let lines = strokes_svg(h.segments, "1.6"@, h.segments.len() as int);
    let fill = if h.filled {
        EDGE_COLOR@
    } else {
        "#ffffff"@
    };
    let u = corners_text(h.polygon, fill);
    let v = u + attribute("stroke"@, EDGE_COLOR@);
    let w = v + " stroke-width=\"1.6\"/>\n"@;
    if h.polygon.len() > 0 {
        assert(s == w + lines);
        lemma_itself(u);
        lemma_holds_more(u, attribute("stroke"@, EDGE_COLOR@), u);
        lemma_holds_more(v, " stroke-width=\"1.6\"/>\n"@, u);
        lemma_holds_more(w, lines, u);
        lemma_holds_part(t, s, u);
    }
    match kind {
        RelKind::Inheritance | RelKind::Realization => {
            law_points_lie_beside(e, c, px(14), px(-8));
            law_points_lie_beside(e, c, px(14), px(8));
            assert(holds(t, corners_text(h.polygon, "#ffffff"@)));
        },
        RelKind::Composition | RelKind::Aggregation => {
            law_points_lie_beside(e, c, px(9), px(-13) / 2);
            law_points_lie_beside(e, c, px(9), px(13) / 2);
            law_points_lie_beside(e, c, px(18), 0);
            assert(fill == diamond_fill(kind));
            assert(holds(t, corners_text(h.polygon, diamond_fill(kind))));
        },
        RelKind::Association | RelKind::Dependency => {
            let (x, y) = (h.segments[0], h.segments[1]);
            law_points_lie_beside(e, c, px(12), px(-7));
            law_points_lie_beside(e, c, px(12), px(7));
            reveal_with_fuel(strokes_svg, 3);
            let first = stroke(x, "1.6"@);
            let second = stroke(y, "1.6"@);
            assert(lines == ""@ + first + second);
            assert(s == ""@ + lines);
            lemma_stroke(x);
            lemma_stroke(y);
            lemma_holds_around(""@, first, second, stroke_between(x.0, x.1));
            lemma_holds_last(""@ + first, second);
            lemma_holds_part(lines, second, stroke_between(y.0, y.1));
            lemma_holds_last(""@, lines);
            lemma_holds_part(s, lines, stroke_between(x.0, x.1));
            lemma_holds_part(s, lines, stroke_between(y.0, y.1));
            lemma_holds_part(t, s, stroke_between(x.0, x.1));
            lemma_holds_part(t, s, stroke_between(y.0, y.1));
        },
        RelKind::Link => {},
    }
}

proof fn lemma_itself(u: Seq<char>)
    ensures
        holds(u, u),
{
    assert(u.subrange(0, 0 + u.len() as int) =~= u);
    assert(occurs_at(u, u, 0));
}

/// The symbol of a relation is drawn at the end of its curve, its first
/// cardinality beside the start and its second beside the end.
pub proof fn law_relations_show_their_ends(q: Curve, dotted: bool, r: RelStyle)
    requires
        well_within(q.0.0) && well_within(q.0.1) && well_within(q.1.0) && well_within(q.1.1),
        well_within(q.2.0) && well_within(q.2.1) && well_within(q.3.0) && well_within(q.3.1),
    ensures
        head_at(relation_svg(q, dotted, r), q.3, q.2, r.kind),
        opt_text(r.from_card) matches Some(c) ==> (is_caption(c) ==> card_at(
            relation_svg(q, dotted, r),
            q.0,
            q.1,
            c,
        )),
        opt_text(r.to_card) matches Some(c) ==> (is_caption(c) ==> card_at(
            relation_svg(q, dotted, r),
            q.3,
            q.2,
            c,
        )),
{
    let dash = if dotted {
        " stroke-dasharray=\"6 4\""@
    } else {
        ""@
    };
    let line = curve_svg(q, "1.6"@, dash);
    let h = head_svg(head_of(q.3, q.2, r.kind));
    let a = card_svg(q.0, q.1, opt_text(r.from_card));
    let b = card_svg(q.3, q.2, opt_text(r.to_card));
    let t = relation_svg(q, dotted, r);
    assert(t == line + h + a + b);
    lemma_holds_last(line, h);
    lemma_holds_more(line + h, a, h);
    lemma_holds_more(line + h + a, b, h);
    lemma_head(t, q.3, q.2, r.kind);
    lemma_holds_last(line + h, a);
    lemma_holds_more(line + h + a, b, a);
    lemma_holds_last(line + h + a, b);
    if let Some(c) = opt_text(r.from_card) {
        if is_caption(c) {
            lemma_card(t, q.0, q.1, c);
        }
    }
    if let Some(c) = opt_text(r.to_card) {
        if is_caption(c) {
            lemma_card(t, q.3, q.2, c);
        }
    }
}

} // verus!
