//! UML class diagrams: boxes of three compartments, and the graph that
//! their layout is computed on.

pub mod box_laws;
pub mod head;
pub mod relation_laws;
pub mod svg;

use vstd::prelude::*;

use crate::advance::place::lengths::{bounded, multiple, plus, sum, times};
use crate::advance::place::measure::{text_px, width_px};
use crate::advance::route::geometry::{greater, most};
use crate::advance::scene::Px;
use crate::model::{
    class_names, copy_opt, distinct, glyph_text, lemma_name_from, name_index, node_ids, node_views,
    no_style, opt_text, Class, ClassDiagram, ClassRel, Direction, EdgeKind, Graph, Member,
    NodeView, RelKind, Shape,
};
use crate::text::cat;

verus! {

/// Height of the name compartment.
pub const HEADER_H: Px = 1792000;

/// Height of a member row.
pub const ROW_H: Px = 1280000;

/// Horizontal padding inside a box.
pub const PAD: Px = 640000;

/// Height of an empty compartment.
pub const EMPTY_H: Px = 512000;

/// One row of a class box, with its visibility in front.
#[derive(Debug)]
pub struct ClassRow {
    pub text: String,
}

/// What is drawn of a class.
#[derive(Debug)]
pub struct ClassBox {
    pub name: String,
    pub fields: Vec<ClassRow>,
    pub methods: Vec<ClassRow>,
}

/// The end of a relation, and what stands at both ends of it.
#[derive(Debug)]
pub struct RelStyle {
    pub kind: RelKind,
    pub from_card: Option<String>,
    pub to_card: Option<String>,
}

/// The text of a member's row.
pub open spec fn row_text(m: Member) -> Seq<char> {
    glyph_text(m.visibility) + m.text@
}

/// Whether `rows` are the rows of the members.
pub open spec fn are_rows(rows: Seq<ClassRow>, members: Seq<Member>) -> bool {
    rows.len() == members.len() && forall|i: int|
        0 <= i < rows.len() ==> (#[trigger] rows[i]).text@ == row_text(members[i])
}

/// The width of the widest of the first `k` rows.
pub open spec fn widest_row(members: Seq<Member>, k: int) -> int
    decreases k,
{
    if k <= 0 {
        0
    } else {
        most(widest_row(members, k - 1), text_px(row_text(members[k - 1])))
    }
}

fn rows_of(members: &Vec<Member>) -> (r: (Vec<ClassRow>, Px))
    ensures
        are_rows(r.0@, members@),
        r.1 == widest_row(members@, members@.len() as int),
        bounded(r.1 as int),
{
    let mut rows: Vec<ClassRow> = Vec::new();
    let mut wide: Px = 0;
    let mut i: usize = 0;
    while i < members.len()
        invariant
            i <= members@.len(),
            rows@.len() == i,
            forall|k: int| 0 <= k < i ==> (#[trigger] rows@[k]).text@ == row_text(members@[k]),
            wide == widest_row(members@, i as int),
            bounded(wide as int),
        decreases members@.len() - i,
    {
        let m = &members[i];
        let text = cat(m.visibility.glyph(), m.text.as_str());
        wide = greater(wide, width_px(text.as_str()));
        rows.push(ClassRow { text });
        i += 1;
    }
    (rows, wide)
}

/// The height of a compartment: its rows, or a strip where it has none.
pub open spec fn compartment(rows: int) -> int {
    if rows == 0 {
        EMPTY_H as int
    } else {
        times(rows, ROW_H as int)
    }
}

pub fn compartment_h(rows: usize) -> (r: Px)
    ensures
        r == compartment(rows as int),
        bounded(r as int),
{
    if rows == 0 {
        EMPTY_H
    } else {
        multiple(rows, ROW_H)
    }
}

/// The size of a class box.
pub open spec fn box_size(c: Class) -> (int, int) {
    let member_w = most(
        widest_row(c.fields@, c.fields@.len() as int),
        widest_row(c.methods@, c.methods@.len() as int),
    );
    (
        most(
            most(plus(text_px(c.name@), 1792000), plus(member_w, 2 * PAD)),
            6144000,
        ),
        plus(
            plus(HEADER_H as int, compartment(c.fields@.len() as int)),
            compartment(c.methods@.len() as int),
        ),
    )
}

/// Whether `b` is what is drawn of a class.
pub open spec fn is_box(b: ClassBox, c: Class) -> bool {
    b.name@ == c.name@ && are_rows(b.fields@, c.fields@) && are_rows(b.methods@, c.methods@)
}

/// What is drawn of a class, and its size.
pub fn box_of(c: &Class) -> (r: (ClassBox, (Px, Px)))
    ensures
        is_box(r.0, *c),
        (r.1.0 as int, r.1.1 as int) == box_size(*c),
{
    let (fields, fw) = rows_of(&c.fields);
    let (methods, mw) = rows_of(&c.methods);
    let w: Px = greater(
        greater(sum(width_px(c.name.as_str()), 1792000), sum(greater(fw, mw), 2 * PAD)),
        6144000,
    );
    let h: Px = sum(
        sum(HEADER_H, compartment_h(c.fields.len())),
        compartment_h(c.methods.len()),
    );
    (ClassBox { name: c.name.clone(), fields, methods }, (w, h))
}

/// The node of a class.
pub open spec fn class_node(c: Class) -> NodeView {
    NodeView { id: c.name@, label: c.name@, shape: Shape::Rect, style: no_style() }
}

/// Whether `e` is the edge of a relation: dotted where the relation is
/// dashed.
pub open spec fn is_rel(e: crate::model::Edge, r: ClassRel) -> bool {
    &&& e.from == r.from && e.to == r.to
    &&& opt_text(e.label) == opt_text(r.label)
    &&& e.kind == if r.dashed {
        EdgeKind::Dotted
    } else {
        EdgeKind::Open
    }
}

/// Whether `g` is the graph of a diagram: node by node its classes, edge by
/// edge its relations.
pub open spec fn is_graph(g: Graph, d: ClassDiagram) -> bool {
    &&& g.direction == Direction::TD
    &&& g.subgraphs@.len() == 0 && g.sub_edges@.len() == 0
    &&& g.nodes@.len() == d.classes@.len()
    &&& forall|i: int|
        0 <= i < g.nodes@.len() ==> (#[trigger] g.nodes@[i])@ == class_node(d.classes@[i])
    &&& g.edges@.len() == d.relations@.len()
    &&& forall|i: int| 0 <= i < g.edges@.len() ==> is_rel(#[trigger] g.edges@[i], d.relations@[i])
}

fn graph_of(d: &ClassDiagram) -> (g: Graph)
    requires
        distinct(class_names(d.classes@)),
    ensures
        is_graph(g, *d),
{
    let mut g = Graph::default();
    let ghost names = class_names(d.classes@);
    let mut i: usize = 0;
    while i < d.classes.len()
        invariant
            i <= d.classes@.len(),
            names == class_names(d.classes@),
            distinct(names),
            g.direction == Direction::TD,
            g.subgraphs@.len() == 0 && g.sub_edges@.len() == 0 && g.edges@.len() == 0,
            g.nodes@.len() == i,
            forall|k: int|
                0 <= k < i ==> (#[trigger] g.nodes@[k])@ == class_node(d.classes@[k]),
        decreases d.classes@.len() - i,
    {
        let ghost ids = node_ids(g.nodes@);
        let ghost before = node_views(g.nodes@);
        let name = &d.classes[i].name;
        proof {
            assert forall|k: int| 0 <= k < ids.len() implies ids[k] == names[k] by {
                assert(g.nodes@[k]@ == class_node(d.classes@[k]));
            }
            lemma_name_from(ids, name@, 0);
            assert(names[i as int] == name@);
            assert(name_index(ids, name@) is None);
        }
        g.ensure_node(name.as_str(), Some(name.clone()), Some(Shape::Rect));
        proof {
            let after = node_views(g.nodes@);
            assert(after == before.push(class_node(d.classes@[i as int])));
            assert(after.len() == i + 1);
            assert forall|k: int| 0 <= k < i + 1 implies (#[trigger] g.nodes@[k])@ == class_node(
                d.classes@[k],
            ) by {
                assert(after[k] == g.nodes@[k]@);
                if k < i {
                    assert(after[k] == before[k]);
                }
            }
        }
        i += 1;
    }
    let mut j: usize = 0;
    while j < d.relations.len()
        invariant
            j <= d.relations@.len(),
            g.direction == Direction::TD,
            g.subgraphs@.len() == 0 && g.sub_edges@.len() == 0,
            g.nodes@.len() == d.classes@.len(),
            forall|k: int|
                0 <= k < g.nodes@.len() ==> (#[trigger] g.nodes@[k])@ == class_node(d.classes@[k]),
            g.edges@.len() == j,
            forall|k: int| 0 <= k < j ==> is_rel(#[trigger] g.edges@[k], d.relations@[k]),
        decreases d.relations@.len() - j,
    {
        let r = &d.relations[j];
        let kind = if r.dashed {
            EdgeKind::Dotted
        } else {
            EdgeKind::Open
        };
        g.add_edge(r.from, r.to, copy_opt(&r.label), kind);
        j += 1;
    }
    g
}

/// The graph of a class diagram, what is drawn of each class, and how large
/// each is.
pub fn build(d: &ClassDiagram) -> (r: (Graph, Vec<ClassBox>, Vec<(Px, Px)>))
    requires
        distinct(class_names(d.classes@)),
    ensures
        is_graph(r.0, *d),
        r.1@.len() == d.classes@.len(),
        r.2@.len() == d.classes@.len(),
        forall|i: int| 0 <= i < r.1@.len() ==> is_box(#[trigger] r.1@[i], d.classes@[i]),
        forall|i: int|
            0 <= i < r.2@.len() ==> ((#[trigger] r.2@[i]).0 as int, r.2@[i].1 as int) == box_size(
                d.classes@[i],
            ),
{
    let g = graph_of(d);
    let mut boxes: Vec<ClassBox> = Vec::new();
    let mut sizes: Vec<(Px, Px)> = Vec::new();
    let mut i: usize = 0;
    while i < d.classes.len()
        invariant
            i <= d.classes@.len(),
            boxes@.len() == i,
            sizes@.len() == i,
            forall|k: int| 0 <= k < i ==> is_box(#[trigger] boxes@[k], d.classes@[k]),
            forall|k: int|
                0 <= k < i ==> ((#[trigger] sizes@[k]).0 as int, sizes@[k].1 as int) == box_size(
                    d.classes@[k],
                ),
        decreases d.classes@.len() - i,
    {
        let (b, size) = box_of(&d.classes[i]);
        boxes.push(b);
        sizes.push(size);
        i += 1;
    }
    (g, boxes, sizes)
}

/// Whether `s` is the style of a relation.
pub open spec fn is_style(s: RelStyle, r: ClassRel) -> bool {
    s.kind == r.kind && opt_text(s.from_card) == opt_text(r.from_card) && opt_text(s.to_card)
        == opt_text(r.to_card)
}

/// The styles of the relations, in order.
pub fn rel_styles(d: &ClassDiagram) -> (r: Vec<RelStyle>)
    ensures
        r@.len() == d.relations@.len(),
        forall|i: int| 0 <= i < r@.len() ==> is_style(#[trigger] r@[i], d.relations@[i]),
{
    let mut r: Vec<RelStyle> = Vec::new();
    let mut i: usize = 0;
    while i < d.relations.len()
        invariant
            i <= d.relations@.len(),
            r@.len() == i,
            forall|k: int| 0 <= k < i ==> is_style(#[trigger] r@[k], d.relations@[k]),
        decreases d.relations@.len() - i,
    {
        let rel = &d.relations[i];
        r.push(
            RelStyle {
                kind: rel.kind,
                from_card: copy_opt(&rel.from_card),
                to_card: copy_opt(&rel.to_card),
            },
        );
        i += 1;
    }
    r
}

} // verus!
