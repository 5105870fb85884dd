//! Entity-relationship diagrams: tables, and the graph that their layout is
//! computed on.

pub mod comment_laws;
pub mod glyph;
pub mod relation_laws;
pub mod svg;
pub mod table_laws;

use vstd::prelude::*;

use crate::advance::place::lengths::{bounded, multiple, plus, sum, times};
use crate::advance::place::measure::{text_px, width_px};
use crate::advance::route::geometry::{greater, most};
use crate::advance::scene::Px;
use crate::model::{
    copy_opt, distinct, entity_names, lemma_name_from, name_index, no_style, node_ids, node_views,
    opt_text, tag_text, Attr, Card, Direction, EdgeKind, Entity, ErDiagram, Graph, Key, NodeView,
    Relation, Shape,
};

verus! {

/// Height of a table's header.
pub const HEADER_H: Px = 1920000;

/// Height of a row.
pub const ROW_H: Px = 1408000;

/// Horizontal padding inside a table.
pub const PAD: Px = 640000;

/// Gap between columns.
pub const COL_GAP: Px = 896000;

/// One row of a table.
#[derive(Debug)]
pub struct ErRow {
    pub ty: String,
    pub name: String,
    /// The tags of its keys, with commas between them.
    pub keys: String,
}

/// What is drawn of an entity.
#[derive(Debug)]
pub struct ErTable {
    pub name: String,
    pub rows: Vec<ErRow>,
    /// Width of the column of types.
    pub ty_col_w: Px,
}

/// The tags of the first `k` keys, with commas between them.
pub open spec fn key_tags(keys: Seq<Key>, k: int) -> Seq<char>
    decreases k,
{
    if k <= 0 {
        ""@
    } else {
        key_tags(keys, k - 1) + (if k > 1 {
            ","@
        } else {
            ""@
        }) + tag_text(keys[k - 1])
    }
}

pub open spec fn keys_text(a: Attr) -> Seq<char> {
    key_tags(a.keys@, a.keys@.len() as int)
}

/// Whether `r` is the row of an attribute.
pub open spec fn is_row(r: ErRow, a: Attr) -> bool {
    r.ty@ == a.ty@ && r.name@ == a.name@ && r.keys@ == keys_text(a)
}

/// The row of an attribute.
pub fn row_of(a: &Attr) -> (r: ErRow)
    ensures
        is_row(r, *a),
{
    let mut keys = "".to_owned();
    let mut i: usize = 0;
    while i < a.keys.len()
        invariant
            i <= a.keys@.len(),
            keys@ == key_tags(a.keys@, i as int),
        decreases a.keys@.len() - i,
    {
        keys.append(
            if i > 0 {
                ","
            } else {
                ""
            },
        );
        keys.append(a.keys[i].tag());
        i += 1;
    }
    ErRow { ty: a.ty.clone(), name: a.name.clone(), keys }
}

/// The widths of the columns of types, names and keys, over the first `k`
/// attributes.
pub open spec fn columns(attrs: Seq<Attr>, k: int) -> (int, int, int)
    decreases k,
{
    if k <= 0 {
        (0, 0, 0)
    } else {
        let c = columns(attrs, k - 1);
        let a = attrs[k - 1];
        (
            most(c.0, text_px(a.ty@)),
            most(c.1, text_px(a.name@)),
            most(c.2, text_px(keys_text(a))),
        )
    }
}

/// The size of a table.
pub open spec fn table_size(e: Entity) -> (int, int) {
    let c = columns(e.attrs@, e.attrs@.len() as int);
    let plain = plus(plus(c.0, COL_GAP as int), c.1);
    let row_w = if c.2 > 0 {
        plus(plain, plus(COL_GAP as int, c.2))
    } else {
        plain
    };
    (
        most(most(plus(text_px(e.name@), 1792000), plus(row_w, 2 * PAD)), 7680000),
        plus(HEADER_H as int, times(e.attrs@.len() as int, ROW_H as int)),
    )
}

/// Whether `t` is what is drawn of an entity.
pub open spec fn is_table(t: ErTable, e: Entity) -> bool {
    &&& t.name@ == e.name@
    &&& t.rows@.len() == e.attrs@.len()
    &&& forall|i: int| 0 <= i < t.rows@.len() ==> is_row(#[trigger] t.rows@[i], e.attrs@[i])
    &&& t.ty_col_w == columns(e.attrs@, e.attrs@.len() as int).0
}

/// What is drawn of an entity, and its size.
pub fn table_of(e: &Entity) -> (r: (ErTable, (Px, Px)))
    ensures
        is_table(r.0, *e),
        (r.1.0 as int, r.1.1 as int) == table_size(*e),
{
    let mut rows: Vec<ErRow> = Vec::new();
    let mut ty_w: Px = 0;
    let mut name_w: Px = 0;
    let mut keys_w: Px = 0;
    let mut i: usize = 0;
    while i < e.attrs.len()
        invariant
            i <= e.attrs@.len(),
            rows@.len() == i,
            forall|k: int| 0 <= k < i ==> is_row(#[trigger] rows@[k], e.attrs@[k]),
            (ty_w as int, name_w as int, keys_w as int) == columns(e.attrs@, i as int),
            bounded(ty_w as int) && bounded(name_w as int) && bounded(keys_w as int),
        decreases e.attrs@.len() - i,
    {
        let row = row_of(&e.attrs[i]);
        ty_w = greater(ty_w, width_px(row.ty.as_str()));
        name_w = greater(name_w, width_px(row.name.as_str()));
        keys_w = greater(keys_w, width_px(row.keys.as_str()));
        rows.push(row);
        i += 1;
    }
    let plain: Px = sum(sum(ty_w, COL_GAP), name_w);
    let row_w: Px = if keys_w > 0 {
        sum(plain, sum(COL_GAP, keys_w))
    } else {
        plain
    };
    let w: Px = greater(
        greater(sum(width_px(e.name.as_str()), 1792000), sum(row_w, 2 * PAD)),
        7680000,
    );
    let h: Px = sum(HEADER_H, multiple(e.attrs.len(), ROW_H));
    (ErTable { name: e.name.clone(), rows, ty_col_w: ty_w }, (w, h))
}

/// The node of an entity.
pub open spec fn entity_node(e: Entity) -> NodeView {
    NodeView { id: e.name@, label: e.name@, shape: Shape::Rect, style: no_style() }
}

/// Whether `e` is the edge of a relation: dotted where the relation does
/// not identify.
pub open spec fn is_relation(e: crate::model::Edge, r: Relation) -> bool {
    &&& e.from == r.from && e.to == r.to
    &&& opt_text(e.label) == opt_text(r.label)
    &&& e.kind == if r.identifying {
        EdgeKind::Open
    } else {
        EdgeKind::Dotted
    }
}

/// Whether `g` is the graph of a diagram: node by node its entities, edge
/// by edge its relations.
pub open spec fn is_graph(g: Graph, d: ErDiagram) -> bool {
    &&& g.direction == Direction::LR
    &&& g.subgraphs@.len() == 0 && g.sub_edges@.len() == 0
    &&& g.nodes@.len() == d.entities@.len()
    &&& forall|i: int|
        0 <= i < g.nodes@.len() ==> (#[trigger] g.nodes@[i])@ == entity_node(d.entities@[i])
    &&& g.edges@.len() == d.relations@.len()
    &&& forall|i: int|
        0 <= i < g.edges@.len() ==> is_relation(#[trigger] g.edges@[i], d.relations@[i])
}

fn graph_of(d: &ErDiagram) -> (g: Graph)
    requires
        distinct(entity_names(d.entities@)),
    ensures
        is_graph(g, *d),
{
    let mut g = Graph::default();
    g.direction = Direction::LR;
    let ghost names = entity_names(d.entities@);
    let mut i: usize = 0;
    while i < d.entities.len()
        invariant
            i <= d.entities@.len(),
            names == entity_names(d.entities@),
            distinct(names),
            g.direction == Direction::LR,
            g.subgraphs@.len() == 0 && g.sub_edges@.len() == 0 && g.edges@.len() == 0,
            g.nodes@.len() == i,
            forall|k: int|
                0 <= k < i ==> (#[trigger] g.nodes@[k])@ == entity_node(d.entities@[k]),
        decreases d.entities@.len() - i,
    {
        let ghost ids = node_ids(g.nodes@);
        let ghost before = node_views(g.nodes@);
        let name = &d.entities[i].name;
        proof {
            assert forall|k: int| 0 <= k < ids.len() implies ids[k] == names[k] by {
                assert(g.nodes@[k]@ == entity_node(d.entities@[k]));
            }
            lemma_name_from(ids, name@, 0);
            assert(names[i as int] == name@);
            assert(name_index(ids, name@) is None);
        }
        g.ensure_node(name.as_str(), Some(name.clone()), Some(Shape::Rect));
        proof {
            let after = node_views(g.nodes@);
            assert(after == before.push(entity_node(d.entities@[i as int])));
            assert(after.len() == i + 1);
            assert forall|k: int| 0 <= k < i + 1 implies (#[trigger] g.nodes@[k])@ == entity_node(
                d.entities@[k],
            ) by {
                assert(after[k] == g.nodes@[k]@);
                if k < i {
                    assert(after[k] == before[k]);
                }
            }
        }
        i += 1;
    }
    let mut j: usize = 0;
    while j < d.relations.len()
        invariant
            j <= d.relations@.len(),
            g.direction == Direction::LR,
            g.subgraphs@.len() == 0 && g.sub_edges@.len() == 0,
            g.nodes@.len() == d.entities@.len(),
            forall|k: int|
                0 <= k < g.nodes@.len() ==> (#[trigger] g.nodes@[k])@ == entity_node(
                    d.entities@[k],
                ),
            g.edges@.len() == j,
            forall|k: int| 0 <= k < j ==> is_relation(#[trigger] g.edges@[k], d.relations@[k]),
        decreases d.relations@.len() - j,
    {
        let r = &d.relations[j];
        let kind = if r.identifying {
            EdgeKind::Open
        } else {
            EdgeKind::Dotted
        };
        g.add_edge(r.from, r.to, copy_opt(&r.label), kind);
        j += 1;
    }
    g
}

/// The graph of an entity-relationship diagram, what is drawn of each
/// entity, and how large each is.
pub fn build(d: &ErDiagram) -> (r: (Graph, Vec<ErTable>, Vec<(Px, Px)>))
    requires
        distinct(entity_names(d.entities@)),
    ensures
        is_graph(r.0, *d),
        r.1@.len() == d.entities@.len(),
        r.2@.len() == d.entities@.len(),
        forall|i: int| 0 <= i < r.1@.len() ==> is_table(#[trigger] r.1@[i], d.entities@[i]),
        forall|i: int|
            0 <= i < r.2@.len() ==> ((#[trigger] r.2@[i]).0 as int, r.2@[i].1 as int) == table_size(
                d.entities@[i],
            ),
{
    let g = graph_of(d);
    let mut tables: Vec<ErTable> = Vec::new();
    let mut sizes: Vec<(Px, Px)> = Vec::new();
    let mut i: usize = 0;
    while i < d.entities.len()
        invariant
            i <= d.entities@.len(),
            tables@.len() == i,
            sizes@.len() == i,
            forall|k: int| 0 <= k < i ==> is_table(#[trigger] tables@[k], d.entities@[k]),
            forall|k: int|
                0 <= k < i ==> ((#[trigger] sizes@[k]).0 as int, sizes@[k].1 as int) == table_size(
                    d.entities@[k],
                ),
        decreases d.entities@.len() - i,
    {
        let (t, size) = table_of(&d.entities[i]);
        tables.push(t);
        sizes.push(size);
        i += 1;
    }
    (g, tables, sizes)
}

/// The cardinalities of the relations, in order.
pub fn cards(d: &ErDiagram) -> (r: Vec<(Card, Card)>)
    ensures
        r@.len() == d.relations@.len(),
        forall|i: int|
            0 <= i < r@.len() ==> #[trigger] r@[i] == (
                d.relations@[i].card_from,
                d.relations@[i].card_to,
            ),
{
    let mut r: Vec<(Card, Card)> = Vec::new();
    let mut i: usize = 0;
    while i < d.relations.len()
        invariant
            i <= d.relations@.len(),
            r@.len() == i,
            forall|k: int|
                0 <= k < i ==> #[trigger] r@[k] == (
                    d.relations@[k].card_from,
                    d.relations@[k].card_to,
                ),
        decreases d.relations@.len() - i,
    {
        r.push((d.relations[i].card_from, d.relations[i].card_to));
        i += 1;
    }
    r
}

} // verus!
