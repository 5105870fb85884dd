//! Class boxes, entity tables and the lines between them.

use flowmaid::advance::scene::Px;
use flowmaid::class::head::{head, write_relation, Curve};
use flowmaid::class::svg::write_box;
use flowmaid::class::{box_of, build, compartment_h, rel_styles, RelStyle};
use flowmaid::er;
use flowmaid::er::glyph::glyph;
use flowmaid::model::{
    Attr, Card, Class, ClassDiagram, ClassRel, Entity, ErDiagram, Key, Member, RelKind, Relation,
    Visibility,
};
use flowmaid::style::{accent, EDGE_COLOR};

fn px(v: Px) -> Px {
    v * 64000
}

fn line() -> Curve {
    ((0, 0), (px(10), 0), (px(90), 0), (px(100), 0))
}

fn rel(kind: RelKind) -> RelStyle {
    RelStyle { kind, from_card: None, to_card: None }
}

fn one_class() -> Class {
    Class {
        name: "Animal".to_string(),
        fields: vec![Member {
            visibility: Visibility::Public,
            text: "String name".to_string(),
        }],
        methods: vec![Member {
            visibility: Visibility::Public,
            text: "move() void".to_string(),
        }],
    }
}

#[test]
fn heads_point_at_the_end() {
    let e = (px(100), 0);
    let c = (px(90), 0);
    let h = head(e, c, RelKind::Inheritance);
    assert_eq!(h.polygon, vec![e, (px(86), px(8)), (px(86), px(-8))]);
    assert!(!h.filled);
    assert!(h.segments.is_empty());
    let d = head(e, c, RelKind::Composition);
    assert!(d.filled);
    assert_eq!(d.polygon.len(), 4);
    assert_eq!(d.polygon[2], (px(82), 0));
    assert!(!head(e, c, RelKind::Aggregation).filled);
    let a = head(e, c, RelKind::Dependency);
    assert!(a.polygon.is_empty());
    assert_eq!(a.segments, vec![((px(88), px(7)), e), ((px(88), px(-7)), e)]);
    let none = head(e, c, RelKind::Link);
    assert!(none.polygon.is_empty() && none.segments.is_empty());
}

#[test]
fn a_curve_without_direction_has_a_flat_head() {
    let e = (px(5), px(7));
    assert_eq!(head(e, e, RelKind::Realization).polygon, vec![e, e, e]);
}

#[test]
fn relations_carry_their_cardinalities() {
    let r = RelStyle {
        kind: RelKind::Association,
        from_card: Some("1".to_string()),
        to_card: Some("0..<n>".to_string()),
    };
    let svg = write_relation(line(), false, &r);
    assert!(svg.contains(">1</text>"));
    assert!(svg.contains(">0..&lt;n&gt;</text>"));
    assert!(!svg.contains("stroke-dasharray"));
    assert!(write_relation(line(), true, &rel(RelKind::Link)).contains("stroke-dasharray=\"6 4\""));
    assert!(write_relation(line(), false, &rel(RelKind::Inheritance)).contains("<polygon"));
    assert!(svg.starts_with(
        "<path d=\"M 0.0 0.0 C 10.0 0.0, 90.0 0.0, 100.0 0.0\" fill=\"none\""
    ));
}

#[test]
fn classes_have_three_compartments() {
    let (b, size) = box_of(&one_class());
    assert!(size.0 > 0 && size.1 > 0);
    let svg = write_box(&b, 0, 0, size.0, size.1, "#abcdef");
    assert!(svg.contains(">Animal</text>"));
    assert!(svg.contains("+String name"));
    assert!(svg.contains("+move() void"));
    assert!(svg.contains("#abcdef"));
    assert!(compartment_h(2) == 2 * compartment_h(1));
    assert!(compartment_h(0) > 0 && compartment_h(0) < compartment_h(1));
}

#[test]
fn class_graphs_keep_the_order_of_the_diagram() {
    let d = ClassDiagram {
        classes: vec![
            one_class(),
            Class { name: "Dog".to_string(), fields: vec![], methods: vec![] },
        ],
        relations: vec![ClassRel {
            from: 1,
            to: 0,
            kind: RelKind::Inheritance,
            dashed: false,
            from_card: None,
            to_card: Some("1".to_string()),
            label: Some("is".to_string()),
        }],
    };
    let (g, boxes, sizes) = build(&d);
    assert_eq!(g.nodes.len(), 2);
    assert_eq!(boxes.len(), 2);
    assert_eq!(sizes.len(), 2);
    assert_eq!(g.edges.len(), 1);
    assert_eq!((g.edges[0].from, g.edges[0].to), (1, 0));
    assert_eq!(g.edges[0].label.as_deref(), Some("is"));
    let styles = rel_styles(&d);
    assert_eq!(styles.len(), 1);
    assert_eq!(styles[0].kind, RelKind::Inheritance);
    assert_eq!(styles[0].to_card.as_deref(), Some("1"));
}

#[test]
fn zero_one_draws_circle() {
    let svg = er::glyph::write_relation(line(), false, (Card::ZeroOne, Card::OneMany));
    assert!(svg.contains("<circle"), "ZeroOne side needs a circle");
}

#[test]
fn non_identifying_relationship_is_dashed() {
    let svg = er::glyph::write_relation(line(), true, (Card::One, Card::ZeroMany));
    assert!(svg.contains("stroke-dasharray"));
    let solid = er::glyph::write_relation(line(), false, (Card::One, Card::ZeroMany));
    assert!(!solid.contains("stroke-dasharray"));
}

#[test]
fn crows_feet_touch_the_table() {
    let e = (0, 0);
    let c = (px(10), 0);
    let many = glyph(e, c, Card::ZeroMany);
    let f = (px(12), 0);
    assert_eq!(many.segments, vec![(f, (0, px(-6))), (f, (0, px(6))), (f, e)]);
    assert_eq!(many.circle, Some(((px(19), 0), 288000)));
    let one = glyph(e, c, Card::One);
    assert_eq!(one.segments.len(), 2);
    assert_eq!(one.segments[0].0 .0, px(8));
    assert_eq!(one.circle, None);
    assert_eq!(glyph(e, c, Card::OneMany).segments.len(), 4);
}

#[test]
fn tables_list_types_names_and_keys() {
    let e = Entity {
        name: "orders".to_string(),
        attrs: vec![Attr {
            ty: "int".to_string(),
            name: "id".to_string(),
            keys: vec![Key::Pk, Key::Fk],
            comment: None,
        }],
    };
    let (t, size) = er::table_of(&e);
    let svg = er::svg::write_table(&t, 0, 0, size.0, size.1, "#abcdef");
    assert!(svg.contains(">orders</text>"));
    assert!(svg.contains(">int</text>"));
    assert!(svg.contains(">id</text>"));
    assert!(svg.contains(">PK,FK</text>"));
}

#[test]
fn entity_graphs_keep_their_cards() {
    let entity = |name: &str| Entity { name: name.to_string(), attrs: vec![] };
    let d = ErDiagram {
        entities: vec![entity("A"), entity("B")],
        relations: vec![Relation {
            from: 0,
            to: 1,
            card_from: Card::One,
            card_to: Card::ZeroMany,
            identifying: true,
            label: None,
        }],
    };
    let (g, tables, sizes) = er::build(&d);
    assert_eq!((g.nodes.len(), tables.len(), sizes.len()), (2, 2, 2));
    assert_eq!(er::cards(&d), vec![(Card::One, Card::ZeroMany)]);
}

#[test]
fn accents_repeat() {
    let all = vec!["#a".to_string(), "#b".to_string()];
    assert_eq!(accent(&all, 0), "#a");
    assert_eq!(accent(&all, 3), "#b");
    assert!(EDGE_COLOR.starts_with('#'));
}

fn commented(comment: Option<&str>) -> ErDiagram {
    ErDiagram {
        entities: vec![Entity {
            name: "ORDER".to_string(),
            attrs: vec![Attr {
                ty: "int".to_string(),
                name: "id".to_string(),
                keys: vec![Key::Pk],
                comment: comment.map(|c| c.to_string()),
            }],
        }],
        relations: Vec::new(),
    }
}

#[test]
fn comments_of_attributes_are_not_drawn() {
    let (g, a, s) = er::build(&commented(None));
    let (h, b, t) = er::build(&commented(Some("the number of the order")));
    assert_eq!(g.nodes.len(), h.nodes.len());
    assert_eq!(s, t);
    let draw = |e: &er::ErTable| er::svg::write_table(e, px(100), px(50), s[0].0, s[0].1, "#333");
    assert_eq!(draw(&a[0]), draw(&b[0]));
    assert!(draw(&a[0]).contains("ORDER"));
}
