//! Comments of attributes are kept in a diagram and not drawn.

use vstd::prelude::*;

use crate::advance::scene::Px;
use crate::er::svg::{row_svg, rows_svg, table_svg};
use crate::er::{columns, is_graph, is_relation, is_row, is_table, table_size, ErRow, ErTable};
use crate::model::{node_views, opt_text, Attr, Entity, ErDiagram, Graph, Relation};

verus! {

/// Whether two attributes differ at most in their comments.
pub open spec fn same_attr(a: Attr, b: Attr) -> bool {
    a.ty@ == b.ty@ && a.name@ == b.name@ && a.keys@ == b.keys@
}

/// Whether two entities differ at most in comments.
pub open spec fn same_entity(a: Entity, b: Entity) -> bool {
    &&& a.name@ == b.name@
    &&& a.attrs@.len() == b.attrs@.len()
    &&& forall|i: int| 0 <= i < a.attrs@.len() ==> same_attr(#[trigger] a.attrs@[i], b.attrs@[i])
}

pub open spec fn same_relation(a: Relation, b: Relation) -> bool {
    &&& a.from == b.from && a.to == b.to
    &&& a.card_from == b.card_from && a.card_to == b.card_to
    &&& a.identifying == b.identifying
    &&& opt_text(a.label) == opt_text(b.label)
}

/// Whether two diagrams differ at most in the comments of attributes.
pub open spec fn same_but_comments(a: ErDiagram, b: ErDiagram) -> bool {
    &&& a.entities@.len() == b.entities@.len()
    &&& forall|i: int|
        0 <= i < a.entities@.len() ==> same_entity(#[trigger] a.entities@[i], b.entities@[i])
    &&& a.relations@.len() == b.relations@.len()
    &&& forall|i: int|
        0 <= i < a.relations@.len() ==> same_relation(#[trigger] a.relations@[i], b.relations@[i])
}

/// Whether two rows hold the same texts.
pub open spec fn same_row(a: ErRow, b: ErRow) -> bool {
    a.ty@ == b.ty@ && a.name@ == b.name@ && a.keys@ == b.keys@
}

/// Whether two tables hold the same texts in columns of the same width.
pub open spec fn same_table(a: ErTable, b: ErTable) -> bool {
    &&& a.name@ == b.name@
    &&& a.rows@.len() == b.rows@.len()
    &&& forall|i: int| 0 <= i < a.rows@.len() ==> same_row(#[trigger] a.rows@[i], b.rows@[i])
    &&& a.ty_col_w == b.ty_col_w
}

pub open spec fn same_edge(a: crate::model::Edge, b: crate::model::Edge) -> bool {
    a.from == b.from && a.to == b.to && a.kind == b.kind && opt_text(a.label) == opt_text(b.label)
}

/// Whether two graphs have the same nodes and edges, in the same order.
pub open spec fn same_graph(a: Graph, b: Graph) -> bool {
    &&& a.direction == b.direction
    &&& node_views(a.nodes@) == node_views(b.nodes@)
    &&& a.edges@.len() == b.edges@.len()
    &&& forall|i: int| 0 <= i < a.edges@.len() ==> same_edge(#[trigger] a.edges@[i], b.edges@[i])
    &&& a.subgraphs@.len() == b.subgraphs@.len() == 0
    &&& a.sub_edges@.len() == b.sub_edges@.len() == 0
}

proof fn lemma_columns(a: Seq<Attr>, b: Seq<Attr>, k: int)
    requires
        k <= a.len() == b.len(),
        forall|i: int| 0 <= i < a.len() ==> same_attr(#[trigger] a[i], b[i]),
    ensures
        columns(a, k) == columns(b, k),
    decreases k,
{
    if k > 0 {
        lemma_columns(a, b, k - 1);
        assert(same_attr(a[k - 1], b[k - 1]));
    }
}

/// Two diagrams that differ in comments alone give equal graphs, equal
/// tables and equal sizes.
pub proof fn law_comments_are_not_built(
    d: ErDiagram,
    e: ErDiagram,
    g: Graph,
    h: Graph,
    s: Seq<ErTable>,
    t: Seq<ErTable>,
)
    requires
        same_but_comments(d, e),
        is_graph(g, d),
        is_graph(h, e),
        s.len() == d.entities@.len(),
        t.len() == e.entities@.len(),
        forall|i: int| 0 <= i < s.len() ==> is_table(#[trigger] s[i], d.entities@[i]),
        forall|i: int| 0 <= i < t.len() ==> is_table(#[trigger] t[i], e.entities@[i]),
    ensures
        same_graph(g, h),
        forall|i: int| 0 <= i < s.len() ==> same_table(#[trigger] s[i], t[i]),
        forall|i: int|
            0 <= i < s.len() ==> #[trigger] table_size(d.entities@[i]) == table_size(e.entities@[i]),
{
    assert forall|i: int| 0 <= i < g.nodes@.len() implies #[trigger] node_views(g.nodes@)[i]
        == node_views(h.nodes@)[i] by {
        assert(same_entity(d.entities@[i], e.entities@[i]));
        assert(g.nodes@[i]@ == crate::er::entity_node(d.entities@[i]));
        assert(h.nodes@[i]@ == crate::er::entity_node(e.entities@[i]));
    }
    assert(node_views(g.nodes@) =~= node_views(h.nodes@));
    assert forall|i: int| 0 <= i < g.edges@.len() implies same_edge(
        #[trigger] g.edges@[i],
        h.edges@[i],
    ) by {
        assert(same_relation(d.relations@[i], e.relations@[i]));
        assert(is_relation(g.edges@[i], d.relations@[i]));
        assert(is_relation(h.edges@[i], e.relations@[i]));
    }
    assert forall|i: int| 0 <= i < s.len() implies #[trigger] table_size(d.entities@[i])
        == table_size(e.entities@[i]) by {
        let (a, b) = (d.entities@[i], e.entities@[i]);
        assert(same_entity(a, b));
        lemma_columns(a.attrs@, b.attrs@, a.attrs@.len() as int);
    }
    assert forall|i: int| 0 <= i < s.len() implies same_table(#[trigger] s[i], t[i]) by {
        let (a, b) = (d.entities@[i], e.entities@[i]);
        assert(same_entity(a, b));
        assert(is_table(s[i], a) && is_table(t[i], b));
        lemma_columns(a.attrs@, b.attrs@, a.attrs@.len() as int);
        assert forall|j: int| 0 <= j < s[i].rows@.len() implies same_row(
            #[trigger] s[i].rows@[j],
            t[i].rows@[j],
        ) by {
            assert(same_attr(a.attrs@[j], b.attrs@[j]));
            assert(is_row(s[i].rows@[j], a.attrs@[j]));
            assert(is_row(t[i].rows@[j], b.attrs@[j]));
        }
    }
}

proof fn lemma_rows(a: Seq<ErRow>, b: Seq<ErRow>, l: int, w: int, top: int, ty_w: int, k: int)
    requires
        k <= a.len() == b.len(),
        forall|i: int| 0 <= i < a.len() ==> same_row(#[trigger] a[i], b[i]),
    ensures
        rows_svg(a, l, w, top, ty_w, k) == rows_svg(b, l, w, top, ty_w, k),
    decreases k,
{
    if k > 0 {
        lemma_rows(a, b, l, w, top, ty_w, k - 1);
        assert(same_row(a[k - 1], b[k - 1]));
        assert(row_svg(a[k - 1], k - 1, l, w, top, ty_w) == row_svg(
            b[k - 1],
            k - 1,
            l,
            w,
            top,
            ty_w,
        ));
    }
}

/// Entities that differ in comments alone are drawn alike.
pub proof fn law_comments_are_not_drawn(
    d: Entity,
    e: Entity,
    s: ErTable,
    t: ErTable,
    x: Px,
    y: Px,
    w: Px,
    h: Px,
    colour: Seq<char>,
)
    requires
        same_entity(d, e),
        is_table(s, d),
        is_table(t, e),
    ensures
        table_svg(s, x, y, w, h, colour) == table_svg(t, x, y, w, h, colour),
{
    lemma_columns(d.attrs@, e.attrs@, d.attrs@.len() as int);
    assert forall|j: int| 0 <= j < s.rows@.len() implies same_row(
        #[trigger] s.rows@[j],
        t.rows@[j],
    ) by {
        assert(same_attr(d.attrs@[j], e.attrs@[j]));
        assert(is_row(s.rows@[j], d.attrs@[j]));
        assert(is_row(t.rows@[j], e.attrs@[j]));
    }
    let l = 4 * x - 2 * w;
    let top = 4 * y - 2 * h;
    lemma_rows(
        s.rows@,
        t.rows@,
        l,
        4 * w,
        top + 4 * crate::er::HEADER_H,
        s.ty_col_w as int,
        s.rows@.len() as int,
    );
}

} // verus!
