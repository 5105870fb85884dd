//! What the table of an entity shows.

use vstd::prelude::*;

use crate::advance::place::measure::text_px;
use crate::advance::route::geometry::FAR;
use crate::advance::scene::Px;
use crate::advance::svg_node::rect;
use crate::emit::text_laws::{
    headed, heavy, holds, in_dots, lemma_holds_last, lemma_holds_more, lemma_holds_part,
};
use crate::er::svg::{row_svg, rows_svg, table_svg, TYPE_COLOR};
use crate::er::{
    columns, is_graph, is_relation, is_row, is_table, keys_text, table_size, ErRow, ErTable, COL_GAP,
    HEADER_H, PAD, ROW_H,
};
use crate::journey::svg::text;
use crate::markup::{attribute, escaped};
use crate::model::{Attr, Entity, ErDiagram, Graph};
use crate::style::{EDGE_COLOR, TEXT_COLOR};

verus! {

proof fn lemma_columns(attrs: Seq<Attr>, k: int, i: int)
    requires
        0 <= i < k <= attrs.len(),
    ensures
        text_px(attrs[i].ty@) <= columns(attrs, k).0,
        text_px(attrs[i].name@) <= columns(attrs, k).1,
        text_px(keys_text(attrs[i])) <= columns(attrs, k).2,
        0 <= columns(attrs, k).0 && 0 <= columns(attrs, k).1 && 0 <= columns(attrs, k).2,
    decreases k,
{
    lemma_columns_sign(attrs, k - 1);
    if i < k - 1 {
        lemma_columns(attrs, k - 1, i);
    }
}

proof fn lemma_columns_sign(attrs: Seq<Attr>, k: int)
    ensures
        0 <= columns(attrs, k).0 && 0 <= columns(attrs, k).1 && 0 <= columns(attrs, k).2,
    decreases k,
{
    if k > 0 {
        lemma_columns_sign(attrs, k - 1);
    }
}

/// Whether a table shows a text at a place, whatever its colour and font.
pub open spec fn shows_text(all: Seq<char>, x: int, y: int, s: Seq<char>) -> bool {
    exists|more: Seq<char>, fill: Seq<char>| #[trigger] holds(all, text(x, y, more, fill, s))
}

proof fn lemma_rows(r: Seq<ErRow>, l: int, w: int, top: int, ty_w: int, k: int, i: int)
    requires
        0 <= i < k,
    ensures
        holds(rows_svg(r, l, w, top, ty_w, k), row_svg(r[i], i, l, w, top, ty_w)),
    decreases k,
{
    let own = row_svg(r[i], i, l, w, top, ty_w);
    let last = row_svg(r[k - 1], k - 1, l, w, top, ty_w);
    let before = rows_svg(r, l, w, top, ty_w, k - 1);
    if i < k - 1 {
        lemma_rows(r, l, w, top, ty_w, k - 1, i);
        lemma_holds_more(before, last, own);
    } else {
        lemma_holds_last(before, last);
    }
}

proof fn lemma_row(r: ErRow, k: int, l: int, w: int, top: int, ty_w: int)
    ensures
        ({
            let all = row_svg(r, k, l, w, top, ty_w);
            let mid = top + 4 * k * ROW_H + 2 * ROW_H;
            &&& holds(all, text(l + 4 * PAD, mid, ""@, TYPE_COLOR@, r.ty@))
            &&& holds(
                all,
                text(l + 4 * (PAD + ty_w + COL_GAP), mid, ""@, TEXT_COLOR@, r.name@),
            )
            &&& r.keys@.len() > 0 ==> holds(
                all,
                text(
                    l + w - 4 * PAD,
                    mid,
                    " text-anchor=\"end\" font-weight=\"bold\""@,
                    EDGE_COLOR@,
                    r.keys@,
                ),
            )
        }),
{
    let y = top + 4 * k * ROW_H;
    let mid = y + 2 * ROW_H;
    let line = if k > 0 {
        crate::class::svg::divider(l, y, w)
    } else {
        ""@
    };
    let ty = text(l + 4 * PAD, mid, ""@, TYPE_COLOR@, r.ty@);
    let name = text(l + 4 * (PAD + ty_w + COL_GAP), mid, ""@, TEXT_COLOR@, r.name@);
    let keys = if r.keys@.len() > 0 {
        text(
            l + w - 4 * PAD,
            mid,
            " text-anchor=\"end\" font-weight=\"bold\""@,
            EDGE_COLOR@,
            r.keys@,
        )
    } else {
        ""@
    };
    assert(row_svg(r, k, l, w, top, ty_w) == line + ty + name + keys);
    lemma_holds_last(line, ty);
    lemma_holds_more(line + ty, name, ty);
    lemma_holds_last(line + ty, name);
    lemma_holds_more(line + ty + name, keys, ty);
    lemma_holds_more(line + ty + name, keys, name);
    lemma_holds_last(line + ty + name, keys);
}

/// Every attribute of an entity has a row of its own in its table, below the
/// header and those of the attributes before. From left to right it shows
/// type, name and keys, which do not overlap; the keys end at the padding.
/// This holds as long as the table has its own size and stays in range.
#[verifier::spinoff_prover]
#[verifier::rlimit(40)]
pub proof fn law_attributes_have_their_rows(
    t: ErTable,
    e: Entity,
    x: Px,
    y: Px,
    w: Px,
    h: Px,
    colour: Seq<char>,
    i: int,
)
    requires
        is_table(t, e),
        0 <= i < e.attrs@.len(),
        w == table_size(e).0,
        w < FAR,
    ensures
        ({
            let all = table_svg(t, x, y, w, h, colour);
            let a = e.attrs@[i];
            let (l, r) = (4 * x - 2 * w, 4 * x + 2 * w);
            let mid = 4 * y - 2 * h + 4 * HEADER_H + 4 * i * ROW_H + 2 * ROW_H;
            exists|p: int, q: int|
                {
                    &&& #[trigger] shows_text(all, p, mid, a.ty@)
                    &&& #[trigger] shows_text(all, q, mid, a.name@)
                    &&& l < p
                    &&& p + 4 * text_px(a.ty@) < q
                    &&& q + 4 * text_px(a.name@) < r
                    &&& keys_text(a).len() > 0 ==> shows_text(all, r - 4 * PAD, mid, keys_text(a))
                    &&& text_px(keys_text(a)) > 0 ==> q + 4 * text_px(a.name@) < r - 4 * PAD - 4
                        * text_px(keys_text(a))
                }
        }),
{
    let all = table_svg(t, x, y, w, h, colour);
    let a = e.attrs@[i];
    let n = e.attrs@.len() as int;
    let l = 4 * x - 2 * w;
    let top = 4 * y - 2 * h;
    let ty_w = t.ty_col_w as int;
    let mid = top + 4 * HEADER_H + 4 * i * ROW_H + 2 * ROW_H;
    assert(is_row(t.rows@[i], a));
    let part = rows_svg(t.rows@, l, 4 * w as int, top + 4 * HEADER_H, ty_w, n);
    let head = rect(
        l,
        top,
        4 * w as int,
        4 * h as int,
        " rx=\"4\" fill=\"#ffffff\""@ + attribute("stroke"@, escaped(colour))
            + " stroke-width=\"1.6\""@,
    ) + rect(
        l,
        top,
        4 * w as int,
        4 * HEADER_H as int,
        " rx=\"4\""@ + attribute("fill"@, escaped(colour)),
    ) + text(
        4 * x as int,
        top + 2 * HEADER_H,
        " text-anchor=\"middle\" font-weight=\"bold\""@,
        "#ffffff"@,
        t.name@,
    );
    assert(all == head + part);
    lemma_holds_last(head, part);
    lemma_rows(t.rows@, l, 4 * w as int, top + 4 * HEADER_H, ty_w, n, i);
    lemma_row(t.rows@[i], i, l, 4 * w as int, top + 4 * HEADER_H, ty_w);
    let own = row_svg(t.rows@[i], i, l, 4 * w as int, top + 4 * HEADER_H, ty_w);
    lemma_holds_part(all, part, own);
    let p = l + 4 * PAD;
    let q = l + 4 * (PAD + ty_w + COL_GAP);
    lemma_holds_part(all, own, text(p, mid, ""@, TYPE_COLOR@, a.ty@));
    lemma_holds_part(all, own, text(q, mid, ""@, TEXT_COLOR@, a.name@));
    assert(shows_text(all, p, mid, a.ty@));
    assert(shows_text(all, q, mid, a.name@));
    if keys_text(a).len() > 0 {
        let keys = text(
            l + 4 * w - 4 * PAD,
            mid,
            " text-anchor=\"end\" font-weight=\"bold\""@,
            EDGE_COLOR@,
            keys_text(a),
        );
        lemma_holds_part(all, own, keys);
        assert(shows_text(all, l + 4 * w - 4 * PAD, mid, keys_text(a)));
    }
    lemma_columns(e.attrs@, n, i);
}

/// A table is wide enough for the name of its entity, and exactly as high as
/// its header and one row per attribute, as long as it stays in range.
pub proof fn law_tables_have_room(e: Entity)
    requires
        table_size(e).0 < FAR,
        table_size(e).1 < FAR,
        -FAR / 2 <= text_px(e.name@),
    ensures
        text_px(e.name@) <= table_size(e).0,
        HEADER_H + e.attrs@.len() * ROW_H == table_size(e).1,
{
    let n = e.attrs@.len() as int;
    let r = ROW_H as int;
    assert(0 <= n * r) by (nonlinear_arith)
        requires
            0 <= n,
            0 <= r,
    ;
}

/// The graph of a diagram joins the entities of each relation in its
/// direction, by a dotted edge just where the relation does not identify.
pub proof fn law_weak_relations_are_dotted(g: Graph, d: ErDiagram, i: int)
    requires
        is_graph(g, d),
        0 <= i < d.relations@.len(),
    ensures
        g.edges@[i].from == d.relations@[i].from,
        g.edges@[i].to == d.relations@[i].to,
        in_dots(g.edges@[i].kind) == !d.relations@[i].identifying,
        !headed(g.edges@[i].kind) || in_dots(g.edges@[i].kind),
        !heavy(g.edges@[i].kind),
{
    assert(is_relation(g.edges@[i], d.relations@[i]));
}

} // verus!
