//! What the box of a class shows.

use vstd::prelude::*;

use crate::advance::place::lengths::times;
use crate::advance::place::measure::text_px;
use crate::advance::route::geometry::FAR;
use crate::advance::scene::Px;
use crate::advance::svg_node::rect;
use crate::class::svg::{box_svg, divider, row, rows};
use crate::class::{
    box_size, compartment, is_graph, is_rel, row_text, widest_row, ClassBox, ClassRow, HEADER_H, PAD, ROW_H,
};
use crate::emit::text_laws::{
    heavy, holds, in_dots, lemma_holds_last, lemma_holds_more, lemma_holds_part,
};
use crate::journey::svg::text;
use crate::markup::{attribute, escaped};
use crate::model::{Class, ClassDiagram, Graph, Member};

verus! {

proof fn lemma_widest(members: Seq<Member>, k: int, i: int)
    requires
        0 <= i < k <= members.len(),
    ensures
        text_px(row_text(members[i])) <= widest_row(members, k),
    decreases k,
{
    if i < k - 1 {
        lemma_widest(members, k - 1, i);
    }
}

/// A class box is wide enough for its name and for each of its members, and
/// high enough for its header and a row per member, as long as it stays in
/// range.
pub proof fn law_boxes_have_room(c: Class)
    requires
        box_size(c).0 < FAR,
        box_size(c).1 < FAR,
        -FAR / 2 <= text_px(c.name@),
    ensures
        text_px(c.name@) <= box_size(c).0,
        forall|i: int|
            0 <= i < c.fields@.len() && -FAR / 2 <= text_px(row_text(#[trigger] c.fields@[i]))
                ==> text_px(row_text(c.fields@[i])) + 2 * PAD <= box_size(c).0,
        forall|i: int|
            0 <= i < c.methods@.len() && -FAR / 2 <= text_px(row_text(#[trigger] c.methods@[i]))
                ==> text_px(row_text(c.methods@[i])) + 2 * PAD <= box_size(c).0,
        HEADER_H + (c.fields@.len() + c.methods@.len()) * ROW_H <= box_size(c).1,
{
    assert forall|i: int|
        0 <= i < c.fields@.len() && -FAR / 2 <= text_px(row_text(#[trigger] c.fields@[i])) implies text_px(
        row_text(c.fields@[i]),
    ) + 2 * PAD <= box_size(c).0 by {
        lemma_widest(c.fields@, c.fields@.len() as int, i);
    }
    assert forall|i: int|
        0 <= i < c.methods@.len() && -FAR / 2 <= text_px(row_text(#[trigger] c.methods@[i])) implies text_px(
        row_text(c.methods@[i]),
    ) + 2 * PAD <= box_size(c).0 by {
        lemma_widest(c.methods@, c.methods@.len() as int, i);
    }
    let (f, m, r) = (c.fields@.len() as int, c.methods@.len() as int, ROW_H as int);
    assert(0 <= f * r && 0 <= m * r && (f + m) * r == f * r + m * r) by (nonlinear_arith)
        requires
            0 <= f,
            0 <= m,
            0 <= r,
    ;
}

proof fn lemma_rows(r: Seq<ClassRow>, x: int, top: int, k: int, i: int)
    requires
        0 <= i < k,
    ensures
        holds(rows(r, x, top, k), row(x, top + (4 * i + 2) * ROW_H, r[i].text@)),
    decreases k,
{
    let own = row(x, top + (4 * i + 2) * ROW_H, r[i].text@);
    let last = row(x, top + (4 * (k - 1) + 2) * ROW_H, r[k - 1].text@);
    if i < k - 1 {
        lemma_rows(r, x, top, k - 1, i);
        lemma_holds_more(rows(r, x, top, k - 1), last, own);
    } else {
        lemma_holds_last(rows(r, x, top, k - 1), last);
    }
}

/// The members of a class box: its fields, then its methods.
pub open spec fn listed(b: ClassBox) -> Seq<ClassRow> {
    b.fields@ + b.methods@
}

/// Where the `i`-th member stands.
spec fn height_of(b: ClassBox, top: int, i: int) -> int {
    let f = b.fields@.len() as int;
    if i < f {
        top + 4 * HEADER_H + (4 * i + 2) * ROW_H
    } else {
        top + 4 * HEADER_H + 4 * compartment(f) + (4 * (i - f) + 2) * ROW_H
    }
}

proof fn lemma_member(b: ClassBox, x: Px, y: Px, w: Px, h: Px, colour: Seq<char>, i: int)
    requires
        0 <= i < listed(b).len(),
    ensures
        holds(
            box_svg(b, x, y, w, h, colour),
            row(
                4 * x - 2 * w + 4 * PAD,
                height_of(b, 4 * y - 2 * h, i),
                listed(b)[i].text@,
            ),
        ),
{
    let l = 4 * x - 2 * w;
    let t = 4 * y - 2 * h;
    let f = b.fields@.len() as int;
    let fields = t + 4 * HEADER_H;
    let methods = fields + 4 * compartment(f);
    let own = row(l + 4 * PAD, height_of(b, t, i), listed(b)[i].text@);
    let head = rect(
        l,
        t,
        4 * w,
        4 * h,
        " rx=\"4\" fill=\"#ffffff\""@ + attribute("stroke"@, escaped(colour))
            + " stroke-width=\"1.6\""@,
    ) + rect(l, t, 4 * w, 4 * HEADER_H, " rx=\"4\""@ + attribute("fill"@, escaped(colour))) + text(
        4 * x as int,
        t + 2 * HEADER_H,
        " text-anchor=\"middle\" font-weight=\"bold\""@,
        "#ffffff"@,
        b.name@,
    ) + divider(l, fields, 4 * w as int);
    let part1 = rows(b.fields@, l + 4 * PAD, fields, f);
    let line = divider(l, methods, 4 * w as int);
    let part2 = rows(b.methods@, l + 4 * PAD, methods, b.methods@.len() as int);
    assert(box_svg(b, x, y, w, h, colour) == head + part1 + line + part2);
    lemma_holds_last(head + part1 + line, part2);
    lemma_holds_last(head, part1);
    lemma_holds_more(head + part1, line, part1);
    lemma_holds_more(head + part1 + line, part2, part1);
    if i < f {
        assert(listed(b)[i] == b.fields@[i]);
        lemma_rows(b.fields@, l + 4 * PAD, fields, f, i);
        lemma_holds_part(box_svg(b, x, y, w, h, colour), part1, own);
    } else {
        assert(listed(b)[i] == b.methods@[i - f]);
        lemma_rows(b.methods@, l + 4 * PAD, methods, b.methods@.len() as int, i - f);
        lemma_holds_part(box_svg(b, x, y, w, h, colour), part2, own);
    }
}

/// The members of a class are written into its box below its header, each
/// at least a row below those before it: first the fields, then the
/// methods, in their order. This holds as long as they stay in range.
pub proof fn law_members_stand_below_each_other(
    b: ClassBox,
    x: Px,
    y: Px,
    w: Px,
    h: Px,
    colour: Seq<char>,
    i: int,
    j: int,
)
    requires
        0 <= i < j < listed(b).len(),
        b.fields@.len() * ROW_H <= FAR,
    ensures
        exists|u: int, v: int|
            {
                &&& #[trigger] shows_member(b, x, y, w, h, colour, i, u)
                &&& #[trigger] shows_member(b, x, y, w, h, colour, j, v)
                &&& 4 * y - 2 * h + 4 * HEADER_H < u
                &&& u + 4 * ROW_H <= v
            },
{
    let t = 4 * y - 2 * h;
    let (u, v) = (height_of(b, t, i), height_of(b, t, j));
    let f = b.fields@.len() as int;
    lemma_member(b, x, y, w, h, colour, i);
    lemma_member(b, x, y, w, h, colour, j);
    assert(shows_member(b, x, y, w, h, colour, i, u));
    assert(shows_member(b, x, y, w, h, colour, j, v));
    let r = ROW_H as int;
    if i < f && f <= j {
        assert(times(f, r) == f * r) by {
            assert(0 <= f * r) by (nonlinear_arith)
                requires
                    0 <= f,
                    0 <= r,
            ;
        }
        assert(compartment(f) == f * r);
        let d = j - f;
        assert((4 * i + 2) * r + 4 * r <= 4 * (f * r) + (4 * d + 2) * r) by (nonlinear_arith)
            requires
                i + 1 <= f,
                0 <= d,
                0 <= r,
        ;
    } else {
        let (a, c) = if j < f {
            (i, j)
        } else {
            (i - f, j - f)
        };
        assert((4 * a + 2) * r + 4 * r <= (4 * c + 2) * r) by (nonlinear_arith)
            requires
                a + 1 <= c,
                0 <= r,
        ;
    }
    if i < f {
        assert(0 < (4 * i + 2) * r) by (nonlinear_arith)
            requires
                0 <= i,
                0 < r,
        ;
    } else {
        let e = i - f;
        assert(0 < (4 * e + 2) * r) by (nonlinear_arith)
            requires
                0 <= e,
                0 < r,
        ;
        assert(0 <= compartment(f)) by {
            assert(0 <= f * r) by (nonlinear_arith)
                requires
                    0 <= f,
                    0 <= r,
            ;
        }
    }
}

/// Whether a class box shows its `i`-th member at a height.
pub open spec fn shows_member(
    b: ClassBox,
    x: Px,
    y: Px,
    w: Px,
    h: Px,
    colour: Seq<char>,
    i: int,
    at: int,
) -> bool {
    holds(box_svg(b, x, y, w, h, colour), row(4 * x - 2 * w + 4 * PAD, at, listed(b)[i].text@))
}

/// The graph of a diagram joins the classes of each relation in its
/// direction, by a dotted edge just where the relation is dashed.
pub proof fn law_dashed_relations_are_dotted(g: Graph, d: ClassDiagram, i: int)
    requires
        is_graph(g, d),
        0 <= i < d.relations@.len(),
    ensures
        g.edges@[i].from == d.relations@[i].from,
        g.edges@[i].to == d.relations@[i].to,
        in_dots(g.edges@[i].kind) == d.relations@[i].dashed,
        !heavy(g.edges@[i].kind),
{
    assert(is_rel(g.edges@[i], d.relations@[i]));
}

} // verus!
