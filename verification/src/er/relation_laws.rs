//! The symbols of a relationship stand at its ends.

use vstd::prelude::*;

use crate::advance::marker_laws::lemma_shown_inert;
use crate::advance::scene::{shown, Px, GRID};
use crate::advance::svg_node::{circle, length};
use crate::class::head::{curve_svg, stroke, strokes_svg, Curve};
use crate::emit::text_laws::{holds, lemma_holds_around, lemma_holds_here, lemma_holds_part};
use crate::er::glyph::{glyph_of, glyph_svg, relation_svg, tick, GlyphView};
use crate::mindmap::svg::spot;
use crate::markup::{attribute, is_markup};
use crate::model::Card;
use crate::style::EDGE_COLOR;
use crate::tangent::{distance, is_beside, law_points_lie_beside, well_within};
use crate::text::occurs_at;

verus! {

/// So many pixels in grid units.
pub open spec fn px(n: int) -> int {
    n * GRID
}

/// Whether there may be none.
pub open spec fn may_be_none(card: Card) -> bool {
    card is ZeroOne || card is ZeroMany
}

/// Whether there may be many.
pub open spec fn may_be_many(card: Card) -> bool {
    card is ZeroMany || card is OneMany
}

/// The start of a circle around a point.
pub open spec fn circle_at(c: (int, int)) -> Seq<char> {
    "<circle cx=\""@ + shown(4 * c.0) + "\" cy=\""@ + shown(4 * c.1) + "\""@
}

/// The start of a stroke between two points.
pub open spec fn stroke_between(a: (int, int), b: (int, int)) -> Seq<char> {
    "<path d=\"M "@ + shown(4 * a.0) + " "@ + shown(4 * a.1) + " L "@ + shown(4 * b.0) + " "@
        + shown(4 * b.1) + "\""@
}

/// How far from the end of the line the circle for "none" stands: 19 pixels
/// behind a crow's foot, else 17.
pub open spec fn circle_distance(card: Card) -> int {
    if may_be_many(card) {
        px(19)
    } else {
        px(17)
    }
}

/// Whether a point is so many grid units from `e` towards `c`.
pub open spec fn is_inward(p: (int, int), e: (Px, Px), c: (Px, Px), k: int) -> bool {
    is_beside(p, e, c, k, 0, distance(c.0 - e.0, c.1 - e.1))
}

/// Whether a stroke of 11 pixels crosses the line so many pixels from its
/// end.
pub open spec fn crosses(
    a: (int, int),
    b: (int, int),
    e: (Px, Px),
    c: (Px, Px),
    pixels: int,
) -> bool {
    let len = distance(c.0 - e.0, c.1 - e.1);
    is_beside(a, e, c, px(pixels), -(px(11) / 2), len) && is_beside(
        b,
        e,
        c,
        px(pixels),
        px(11) / 2,
        len,
    )
}

/// Whether a text draws a stroke across the line, so many pixels from its
/// end.
pub open spec fn has_tick(t: Seq<char>, e: (Px, Px), c: (Px, Px), pixels: int) -> bool {
    exists|a: (int, int), b: (int, int)|
        crosses(a, b, e, c, pixels) && holds(t, #[trigger] stroke_between(a, b))
}

/// Whether a text draws the symbol of a cardinality at the end `e` of a
/// line that comes from `c`: a circle where there may be none, a prong that
/// touches the end where there may be many, a tick where there is at least
/// one, and a second where there is exactly one.
pub open spec fn symbol_at(t: Seq<char>, e: (Px, Px), c: (Px, Px), card: Card) -> bool {
    &&& may_be_none(card) ==> exists|p: (int, int)|
        is_inward(p, e, c, circle_distance(card)) && holds(t, #[trigger] circle_at(p))
    &&& may_be_many(card) ==> exists|p: (int, int)|
        is_inward(p, e, c, px(12)) && holds(
            t,
            #[trigger] stroke_between(p, (e.0 as int, e.1 as int)),
        )
    &&& card is One ==> has_tick(t, e, c, 8) && has_tick(t, e, c, 13)
    &&& card is ZeroOne ==> has_tick(t, e, c, 8)
    &&& card is OneMany ==> has_tick(t, e, c, 16)
}

proof fn lemma_stroke(s: ((int, int), (int, int)))
    ensures
        holds(stroke(s, "1.7"@), stroke_between(s.0, s.1)),
{
    reveal_strlit("\"");
    reveal_strlit("\" fill=\"none\"");
    reveal_strlit(" fill=\"none\"");
    let none = Seq::<char>::empty();
    let rest = " fill=\"none\""@ + attribute("stroke"@, EDGE_COLOR@) + attribute(
        "stroke-width"@,
        "1.7"@,
    ) + "/>\n"@;
    assert("\" fill=\"none\""@ =~= "\""@ + " fill=\"none\""@);
    assert(stroke(s, "1.7"@) =~= none + stroke_between(s.0, s.1) + rest);
    lemma_holds_here(none, stroke_between(s.0, s.1), rest);
}

proof fn lemma_strokes(v: Seq<((int, int), (int, int))>, k: int, i: int)
    requires
        0 <= i < k <= v.len(),
    ensures
        holds(strokes_svg(v, "1.7"@, k), stroke_between(v[i].0, v[i].1)),
    decreases k,
{
    let none = Seq::<char>::empty();
    let before = strokes_svg(v, "1.7"@, k - 1);
    let own = stroke(v[k - 1], "1.7"@);
    if i < k - 1 {
        lemma_strokes(v, k - 1, i);
        lemma_holds_around(none, before, own, stroke_between(v[i].0, v[i].1));
        assert(none + before + own =~= strokes_svg(v, "1.7"@, k));
    } else {
        lemma_stroke(v[i]);
        lemma_holds_around(before, own, none, stroke_between(v[i].0, v[i].1));
        assert(before + own + none =~= strokes_svg(v, "1.7"@, k));
    }
}

proof fn lemma_circle(c: (int, int), r: int, more: Seq<char>)
    ensures
        occurs_at(circle(4 * c.0, 4 * c.1, r, more), circle_at(c), 0),
{
    reveal_strlit("<circle");
    reveal_strlit("<circle cx=\"");
    reveal_strlit("\" cy=\"");
    reveal_strlit(" ");
    reveal_strlit("cx");
    reveal_strlit("cy");
    reveal_strlit("=\"");
    reveal_strlit("\"");
    let t = circle(4 * c.0, 4 * c.1, r, more);
    let rest = length("r"@, r) + more + "/>\n"@;
    assert("<circle cx=\""@ =~= "<circle"@ + " "@ + "cx"@ + "=\""@);
    assert("\" cy=\""@ =~= "\""@ + " "@ + "cy"@ + "=\""@);
    let a = circle_at(c);
    assert(t =~= a + rest);
    assert(t.subrange(0, 0 + a.len() as int) =~= a);
}

proof fn lemma_tick(e: (Px, Px), c: (Px, Px), n: int)
    requires
        well_within(e.0) && well_within(e.1) && well_within(c.0) && well_within(c.1),
        0 <= n <= 100,
    ensures
        crosses(tick(e, c, px(n)).0, tick(e, c, px(n)).1, e, c, n),
{
    law_points_lie_beside(e, c, px(n), -(px(11) / 2));
    law_points_lie_beside(e, c, px(n), px(11) / 2);
}

proof fn lemma_glyph(t: Seq<char>, e: (Px, Px), c: (Px, Px), card: Card)
    requires
        well_within(e.0) && well_within(e.1) && well_within(c.0) && well_within(c.1),
        holds(t, glyph_svg(glyph_of(e, c, card))),
    ensures
        symbol_at(t, e, c, card),
{
    let g = glyph_of(e, c, card);
    let s = glyph_svg(g);
    let none = Seq::<char>::empty();
    let lines = strokes_svg(g.segments, "1.7"@, g.segments.len() as int);
    let more = " fill=\"#ffffff\""@ + attribute("stroke"@, EDGE_COLOR@) + " stroke-width=\"1.7\""@;
    let ring = match g.circle {
        Some((p, r)) => circle(4 * p.0, 4 * p.1, 4 * r, more),
        None => ""@,
    };
    assert(s =~= none + lines + ring);
    assert(s =~= lines + ring + none);
    assert forall|i: int| 0 <= i < g.segments.len() implies holds(
        t,
        #[trigger] stroke_between(g.segments[i].0, g.segments[i].1),
    ) by {
        let u = stroke_between(g.segments[i].0, g.segments[i].1);
        lemma_strokes(g.segments, g.segments.len() as int, i);
        lemma_holds_around(none, lines, ring, u);
        lemma_holds_part(t, s, u);
    }
    lemma_tick(e, c, 8);
    lemma_tick(e, c, 13);
    lemma_tick(e, c, 16);
    law_points_lie_beside(e, c, px(12), 0);
    law_points_lie_beside(e, c, px(17), 0);
    law_points_lie_beside(e, c, px(19), 0);
    if let Some((p, r)) = g.circle {
        lemma_circle(p, 4 * r, more);
        assert(holds(ring, circle_at(p)));
        lemma_holds_around(lines, ring, none, circle_at(p));
        lemma_holds_part(t, s, circle_at(p));
    }
    match card {
        Card::One => {
            assert(holds(t, stroke_between(g.segments[0].0, g.segments[0].1)));
            assert(holds(t, stroke_between(g.segments[1].0, g.segments[1].1)));
            assert(crosses(g.segments[0].0, g.segments[0].1, e, c, 8));
            assert(crosses(g.segments[1].0, g.segments[1].1, e, c, 13));
        },
        Card::ZeroOne => {
            assert(holds(t, stroke_between(g.segments[0].0, g.segments[0].1)));
            assert(crosses(g.segments[0].0, g.segments[0].1, e, c, 8));
        },
        Card::ZeroMany => {
            assert(holds(t, stroke_between(g.segments[2].0, g.segments[2].1)));
        },
        Card::OneMany => {
            assert(holds(t, stroke_between(g.segments[2].0, g.segments[2].1)));
            assert(holds(t, stroke_between(g.segments[3].0, g.segments[3].1)));
            assert(crosses(g.segments[3].0, g.segments[3].1, e, c, 16));
        },
    }
}

/// Whether every circle that a text draws is the circle for "none" of one of
/// two cardinalities, each at its own end of a curve.
pub open spec fn circles_known(t: Seq<char>, q: Curve, cards: (Card, Card)) -> bool {
    forall|p: int| #[trigger]
        occurs_at(t, "<circle"@, p) ==> exists|c: (int, int)|
            {
                &&& #[trigger] occurs_at(t, circle_at(c), p)
                &&& (may_be_none(cards.0) && is_inward(c, q.0, q.1, circle_distance(cards.0))) || (
                may_be_none(cards.1) && is_inward(c, q.3, q.2, circle_distance(cards.1)))
            }
}

/// Whether a text is made of whole lines of markup, in which every circle is
/// one of those around `allowed`.
spec fn rings(t: Seq<char>, allowed: Set<(int, int)>) -> bool {
    &&& t.len() > 0 ==> t.last() == '\n'
    &&& forall|p: int| #[trigger]
        occurs_at(t, "<circle"@, p) ==> exists|c: (int, int)|
            allowed.contains(c) && #[trigger] occurs_at(t, circle_at(c), p)
}

proof fn lemma_rings(a: Seq<char>, b: Seq<char>, allowed: Set<(int, int)>)
    requires
        rings(a, allowed),
        rings(b, allowed),
    ensures
        rings(a + b, allowed),
{
    reveal_strlit("<circle");
    let t = a + b;
    let w = "<circle"@;
    assert forall|p: int| #[trigger] occurs_at(t, w, p) implies exists|c: (int, int)|
        allowed.contains(c) && #[trigger] occurs_at(t, circle_at(c), p) by {
        let s = t.subrange(p, p + 7);
        if p + 7 <= a.len() {
            assert(a.subrange(p, p + 7) =~= s);
            assert(occurs_at(a, w, p));
            let c = choose|c: (int, int)|
                allowed.contains(c) && #[trigger] occurs_at(a, circle_at(c), p);
            let u = circle_at(c);
            assert(t.subrange(p, p + u.len()) =~= a.subrange(p, p + u.len()));
            assert(occurs_at(t, u, p));
        } else if p >= a.len() {
            let r = p - a.len();
            assert(b.subrange(r, r + 7) =~= s);
            assert(occurs_at(b, w, r));
            let c = choose|c: (int, int)|
                allowed.contains(c) && #[trigger] occurs_at(b, circle_at(c), r);
            let u = circle_at(c);
            assert(t.subrange(p, p + u.len()) =~= b.subrange(r, r + u.len()));
            assert(occurs_at(t, u, p));
        } else {
            let i = a.len() - 1 - p;
            assert(s[i] == w[i]);
            assert(t[p + i] == '\n');
        }
    }
}

/// A text without `<`.
#[verifier::opaque]
spec fn tagless(s: Seq<char>) -> bool {
    forall|i: int| 0 <= i < s.len() ==> #[trigger] s[i] != '<'
}

broadcast proof fn lemma_tagless(a: Seq<char>, b: Seq<char>)
    requires
        tagless(a),
        tagless(b),
    ensures
        #[trigger] tagless(a + b),
{
    reveal(tagless);
    let s = a + b;
    assert forall|i: int| 0 <= i < s.len() implies #[trigger] s[i] != '<' by {
        if i < a.len() {
            assert(s[i] == a[i]);
        } else {
            assert(s[i] == b[i - a.len()]);
        }
    }
}

broadcast proof fn lemma_shown_tagless(q: int)
    ensures
        #[trigger] tagless(shown(q)),
{
    reveal(tagless);
    lemma_shown_inert(q);
    assert forall|i: int| 0 <= i < shown(q).len() implies #[trigger] shown(q)[i] != '<' by {
        assert(!is_markup(shown(q)[i]));
    }
}

proof fn lemma_one_tag(name: Seq<char>, rest: Seq<char>, allowed: Set<(int, int)>)
    requires
        name.len() >= 2,
        name[0] == '<',
        name[1] != 'c',
        tagless(name.skip(1)),
        tagless(rest),
        rest.len() > 0,
        rest.last() == '\n',
    ensures
        rings(name + rest, allowed),
{
    reveal(tagless);
    reveal_strlit("<circle");
    let t = name + rest;
    assert forall|p: int| #[trigger] occurs_at(t, "<circle"@, p) implies exists|c: (int, int)|
        allowed.contains(c) && #[trigger] occurs_at(t, circle_at(c), p) by {
        let s = t.subrange(p, p + 7);
        assert(s[0] == '<' && s[1] == 'c');
        assert(t[p] == '<' && t[p + 1] == 'c');
        if p > 0 {
            if p < name.len() {
                assert(name.skip(1)[p - 1] != '<');
            } else {
                assert(rest[p - name.len()] != '<');
            }
        }
    }
}

proof fn lemma_literals()
    ensures
        tagless(" "@),
        tagless(" L "@),
        tagless(" C "@),
        tagless(", "@),
        tagless("\""@),
        tagless("=\""@),
        tagless("\" fill=\"none\""@),
        tagless("stroke"@),
        tagless("stroke-width"@),
        tagless("1.7"@),
        tagless("/>\n"@),
        tagless(EDGE_COLOR@),
        tagless(" stroke-dasharray=\"5 4\""@),
        tagless(""@),
        tagless("r"@),
        tagless("cx"@),
        tagless("cy"@),
        tagless(" fill=\"#ffffff\""@),
        tagless(" stroke-width=\"1.7\""@),
        "/>\n"@.len() > 0,
        "/>\n"@.last() == '\n',
{
    reveal(tagless);
    reveal_strlit(" ");
    reveal_strlit(" L ");
    reveal_strlit(" C ");
    reveal_strlit(", ");
    reveal_strlit("\"");
    reveal_strlit("=\"");
    reveal_strlit("\" fill=\"none\"");
    reveal_strlit("stroke");
    reveal_strlit("stroke-width");
    reveal_strlit("1.7");
    reveal_strlit("/>\n");
    reveal_strlit("#44507a");
    reveal_strlit(" stroke-dasharray=\"5 4\"");
    reveal_strlit("");
    reveal_strlit("r");
    reveal_strlit("cx");
    reveal_strlit("cy");
    reveal_strlit(" fill=\"#ffffff\"");
    reveal_strlit(" stroke-width=\"1.7\"");
}

proof fn lemma_path_rings(rest: Seq<char>, allowed: Set<(int, int)>)
    requires
        tagless(rest),
        rest.len() > 0,
        rest.last() == '\n',
    ensures
        rings("<path d=\"M "@ + rest, allowed),
{
    reveal(tagless);
    reveal_strlit("<path d=\"M ");
    let n = "<path d=\"M "@;
    assert(tagless(n.skip(1))) by {
        assert forall|i: int| 0 <= i < n.skip(1).len() implies #[trigger] n.skip(1)[i] != '<' by {
            assert(n.skip(1)[i] == n[i + 1]);
        }
    }
    lemma_one_tag(n, rest, allowed);
}

proof fn lemma_stroke_rings(s: ((int, int), (int, int)), allowed: Set<(int, int)>)
    ensures
        rings(stroke(s, "1.7"@), allowed),
{
    broadcast use {lemma_tagless, lemma_shown_tagless};

    lemma_literals();
    let rest = shown(4 * s.0.0) + " "@ + shown(4 * s.0.1) + " L "@ + shown(4 * s.1.0) + " "@
        + shown(4 * s.1.1) + "\" fill=\"none\""@ + attribute("stroke"@, EDGE_COLOR@) + attribute(
        "stroke-width"@,
        "1.7"@,
    ) + "/>\n"@;
    assert(tagless(attribute("stroke"@, EDGE_COLOR@)));
    assert(tagless(attribute("stroke-width"@, "1.7"@)));
    assert(tagless(rest));
    assert(rest.last() == '\n');
    lemma_path_rings(rest, allowed);
    assert(stroke(s, "1.7"@) =~= "<path d=\"M "@ + rest);
}

proof fn lemma_strokes_rings(v: Seq<((int, int), (int, int))>, k: int, allowed: Set<(int, int)>)
    ensures
        rings(strokes_svg(v, "1.7"@, k), allowed),
    decreases k,
{
    if k > 0 {
        lemma_strokes_rings(v, k - 1, allowed);
        lemma_stroke_rings(v[k - 1], allowed);
        lemma_rings(strokes_svg(v, "1.7"@, k - 1), stroke(v[k - 1], "1.7"@), allowed);
    } else {
        lemma_no_rings(allowed);
    }
}

proof fn lemma_no_rings(allowed: Set<(int, int)>)
    ensures
        rings(""@, allowed),
{
    reveal_strlit("");
    reveal_strlit("<circle");
}

proof fn lemma_ring_rest(c: (int, int), r: int, more: Seq<char>)
    requires
        tagless(more),
    ensures
        ({
            let rest = length("cx"@, 4 * c.0) + length("cy"@, 4 * c.1) + length("r"@, r) + more
                + "/>\n"@;
            tagless(rest) && rest.last() == '\n' && rest.len() > 0
        }),
{
    broadcast use {lemma_tagless, lemma_shown_tagless};

    lemma_literals();
    assert(tagless(length("cx"@, 4 * c.0)));
    assert(tagless(length("cy"@, 4 * c.1)));
    assert(tagless(length("r"@, r)));
}

proof fn lemma_ring(c: (int, int), r: int, more: Seq<char>, allowed: Set<(int, int)>)
    requires
        tagless(more),
        allowed.contains(c),
    ensures
        rings(circle(4 * c.0, 4 * c.1, r, more), allowed),
{
    lemma_ring_rest(c, r, more);
    lemma_circle(c, r, more);
    let t = circle(4 * c.0, 4 * c.1, r, more);
    let rest = length("cx"@, 4 * c.0) + length("cy"@, 4 * c.1) + length("r"@, r) + more + "/>\n"@;
    assert(t =~= "<circle"@ + rest);
    lemma_first_tag(t, rest);
    assert forall|p: int| #[trigger] occurs_at(t, "<circle"@, p) implies exists|d: (int, int)|
        allowed.contains(d) && #[trigger] occurs_at(t, circle_at(d), p) by {
        assert(p == 0);
        assert(allowed.contains(c) && occurs_at(t, circle_at(c), p));
    }
}

proof fn lemma_first_tag(t: Seq<char>, rest: Seq<char>)
    requires
        t == "<circle"@ + rest,
        tagless(rest),
        rest.len() > 0,
    ensures
        forall|p: int| #[trigger] occurs_at(t, "<circle"@, p) ==> p == 0,
        t.len() > 0,
        t.last() == rest.last(),
{
    reveal(tagless);
    reveal_strlit("<circle");
    assert forall|p: int| #[trigger] occurs_at(t, "<circle"@, p) implies p == 0 by {
        assert(t.subrange(p, p + 7)[0] == '<');
        assert(t[p] == '<');
        if p > 0 {
            if p < 7 {
                assert("<circle"@[p] != '<');
            } else {
                assert(rest[p - 7] != '<');
            }
        }
    }
}

proof fn lemma_glyph_rings(g: GlyphView, allowed: Set<(int, int)>)
    requires
        g.circle matches Some((c, r)) ==> allowed.contains(c),
    ensures
        rings(glyph_svg(g), allowed),
{
    broadcast use {lemma_tagless, lemma_shown_tagless};

    lemma_literals();
    let more = " fill=\"#ffffff\""@ + attribute("stroke"@, EDGE_COLOR@) + " stroke-width=\"1.7\""@;
    assert(tagless(attribute("stroke"@, EDGE_COLOR@)));
    assert(tagless(more));
    let lines = strokes_svg(g.segments, "1.7"@, g.segments.len() as int);
    lemma_strokes_rings(g.segments, g.segments.len() as int, allowed);
    match g.circle {
        Some((c, r)) => {
            lemma_ring(c, 4 * r, more, allowed);
            lemma_rings(lines, circle(4 * c.0, 4 * c.1, 4 * r, more), allowed);
        },
        None => {
            lemma_no_rings(allowed);
            lemma_rings(lines, ""@, allowed);
        },
    }
}

proof fn lemma_curve_rings(q: Curve, dash: Seq<char>, allowed: Set<(int, int)>)
    requires
        tagless(dash),
    ensures
        rings(curve_svg(q, "1.7"@, dash), allowed),
{
    broadcast use {lemma_tagless, lemma_shown_tagless};

    lemma_literals();
    assert(tagless(spot(q.0, " "@)));
    assert(tagless(spot(q.1, " "@)));
    assert(tagless(spot(q.2, " "@)));
    assert(tagless(spot(q.3, " "@)));
    assert(tagless(attribute("stroke"@, EDGE_COLOR@)));
    assert(tagless(attribute("stroke-width"@, "1.7"@)));
    let rest = spot(q.0, " "@) + " C "@ + spot(q.1, " "@) + ", "@ + spot(q.2, " "@) + ", "@ + spot(
        q.3,
        " "@,
    ) + "\" fill=\"none\""@ + attribute("stroke"@, EDGE_COLOR@) + attribute("stroke-width"@, "1.7"@)
        + dash + "/>\n"@;
    assert(tagless(rest));
    assert(rest.last() == '\n');
    lemma_path_rings(rest, allowed);
    assert(curve_svg(q, "1.7"@, dash) =~= "<path d=\"M "@ + rest);
}

/// The symbol of the first cardinality of a relationship is drawn at the
/// start of its curve and that of the second at its end, and there are no
/// circles but those of cardinalities that may be none, each inward from its
/// own end.
pub proof fn law_cardinalities_stand_at_their_ends(q: Curve, dotted: bool, cards: (Card, Card))
    requires
        well_within(q.0.0) && well_within(q.0.1) && well_within(q.1.0) && well_within(q.1.1),
        well_within(q.2.0) && well_within(q.2.1) && well_within(q.3.0) && well_within(q.3.1),
    ensures
        symbol_at(relation_svg(q, dotted, cards), q.0, q.1, cards.0),
        symbol_at(relation_svg(q, dotted, cards), q.3, q.2, cards.1),
        circles_known(relation_svg(q, dotted, cards), q, cards),
{
    let dash = if dotted {
        " stroke-dasharray=\"5 4\""@
    } else {
        ""@
    };
    let line = curve_svg(q, "1.7"@, dash);
    let g = glyph_of(q.0, q.1, cards.0);
    let h = glyph_of(q.3, q.2, cards.1);
    let t = relation_svg(q, dotted, cards);
    let none = Seq::<char>::empty();
    assert(t =~= line + glyph_svg(g) + glyph_svg(h));
    lemma_holds_here(line, glyph_svg(g), glyph_svg(h));
    lemma_holds_here(line + glyph_svg(g), glyph_svg(h), none);
    assert(t =~= line + glyph_svg(g) + glyph_svg(h) + none);
    lemma_glyph(t, q.0, q.1, cards.0);
    lemma_glyph(t, q.3, q.2, cards.1);
    let allowed = Set::new(
        |c: (int, int)|
            (may_be_none(cards.0) && is_inward(c, q.0, q.1, circle_distance(cards.0))) || (
            may_be_none(cards.1) && is_inward(c, q.3, q.2, circle_distance(cards.1))),
    );
    law_points_lie_beside(q.0, q.1, px(17), 0);
    law_points_lie_beside(q.0, q.1, px(19), 0);
    law_points_lie_beside(q.3, q.2, px(17), 0);
    law_points_lie_beside(q.3, q.2, px(19), 0);
    lemma_literals();
    lemma_curve_rings(q, dash, allowed);
    lemma_glyph_rings(g, allowed);
    lemma_glyph_rings(h, allowed);
    lemma_rings(line, glyph_svg(g), allowed);
    lemma_rings(line + glyph_svg(g), glyph_svg(h), allowed);
    assert forall|p: int| #[trigger] occurs_at(t, "<circle"@, p) implies exists|c: (int, int)|
        {
            &&& #[trigger] occurs_at(t, circle_at(c), p)
            &&& (may_be_none(cards.0) && is_inward(c, q.0, q.1, circle_distance(cards.0))) || (
            may_be_none(cards.1) && is_inward(c, q.3, q.2, circle_distance(cards.1)))
        } by {
        let c = choose|c: (int, int)|
            allowed.contains(c) && #[trigger] occurs_at(t, circle_at(c), p);
        assert(allowed.contains(c) && occurs_at(t, circle_at(c), p));
    }
}

} // verus!
