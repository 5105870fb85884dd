//! Flowcharts written as text.

use flowmaid::emit::checks::check_preconditions;
use flowmaid::emit::label::{edge_label, encode, label_text};
use flowmaid::emit::{style_props, style_value_ok, to_mermaid};
use flowmaid::model::{Direction, EdgeKind, End, Graph, NodeStyle, Shape, SubEdge, Subgraph};
use flowmaid::num::Num;

fn graph() -> Graph {
    Graph {
        direction: Direction::TD,
        nodes: Vec::new(),
        edges: Vec::new(),
        subgraphs: Vec::new(),
        sub_edges: Vec::new(),
    }
}

fn subgraph(id: &str, nodes: Vec<usize>, parent: Option<usize>) -> Subgraph {
    Subgraph { id: id.to_string(), title: id.to_string(), nodes, parent, direction: None }
}

#[test]
fn output_is_valid_standard_mermaid_shapes() {
    let mut g = graph();
    let a = g.ensure_node("a", Some("A label".into()), Some(Shape::Stadium));
    let b = g.ensure_node("b", None, None);
    g.add_edge(a, b, Some("ok".into()), EdgeKind::Thick);
    let text = to_mermaid(&g);
    assert_eq!(
        text,
        "flowchart TD\n    a([\"A label\"])\n    b\n    a ==>|\"ok\"| b\n"
    );
}

#[test]
fn quotes_and_hashes_are_written_as_entities() {
    assert_eq!(encode("he said \"hi\"", false), "he said #quot;hi#quot;");
    let mut g = graph();
    let a = g.ensure_node("a", Some("Tom #amp; Jerry".into()), None);
    let b = g.ensure_node("b", Some("literal <br/> tag".into()), None);
    let c = g.ensure_node("c", Some("`**md** text`".into()), None);
    g.add_edge(a, b, Some("cost #eur; 5".into()), EdgeKind::Arrow);
    g.add_edge(b, c, None, EdgeKind::Arrow);
    let text = to_mermaid(&g);
    assert!(text.contains("#35;amp;"), "{text}");
    assert!(text.contains("#60;br/>"), "{text}");
    assert!(text.contains("#96;"), "{text}");
}

#[test]
fn a_pipe_is_coded_only_where_it_would_end_the_label() {
    assert_eq!(edge_label(&Some("a|b".to_string())), "|\"a#124;b\"|");
    assert_eq!(edge_label(&None), "");
}

#[test]
fn empty_labels_leave_no_empty_slot() {
    let mut g = graph();
    let a = g.ensure_node("a", Some(String::new()), Some(Shape::Rect));
    let b = g.ensure_node("b", None, None);
    g.add_edge(a, b, Some(String::new()), EdgeKind::Arrow);
    let text = to_mermaid(&g);
    assert!(!text.contains("[\"\"]") && !text.contains("||"), "{text}");
}

#[test]
fn stray_subgraphs_are_written_once() {
    let mut g = graph();
    let a = g.ensure_node("A", None, None);
    g.subgraphs.push(subgraph("s0", vec![a], Some(1)));
    g.subgraphs.push(subgraph("s1", vec![], Some(0)));
    let text = to_mermaid(&g);
    assert!(text.contains("subgraph s0") && text.contains("subgraph s1"), "{text}");
    assert_eq!(text.matches("subgraph s0").count(), 1);
    assert_eq!(text.matches("subgraph s1").count(), 1);
}

#[test]
fn bad_style_values_drop_and_their_neighbours_stay() {
    let mut g = graph();
    let a = g.ensure_node("a", None, None);
    g.ensure_node("b", None, None);
    g.add_edge(0, 1, None, EdgeKind::Arrow);
    g.nodes[a].style.fill = Some("red, blue".into());
    g.nodes[a].style.stroke = Some(" #900 ".into());
    let text = to_mermaid(&g);
    assert!(!text.contains("red, blue"), "{text}");
    assert!(text.contains("stroke:#900"), "{text}");
    g.nodes[a].style.fill = Some("red\nB --> C".into());
    assert!(!to_mermaid(&g).contains("B --> C"));
}

#[test]
fn style_values_are_checked_bracket_by_bracket() {
    assert!(style_value_ok("rgb(255,0,0)"));
    assert!(!style_value_ok("red, blue"));
    assert!(!style_value_ok("rgb(255"));
    assert!(!style_value_ok("a\nb"));
    assert!(style_value_ok("#900"));
}

#[test]
fn widths_that_are_not_finite_are_dropped() {
    let mut st = NodeStyle { fill: None, stroke: None, stroke_width: None, color: None };
    assert_eq!(style_props(&st), None);
    st.stroke_width = Some(Num::of("NaN"));
    assert_eq!(style_props(&st), None);
    st.stroke_width = Some(Num::of("2"));
    assert_eq!(style_props(&st).as_deref(), Some("stroke-width:2px"));
}

#[test]
fn control_characters_become_spaces() {
    let mut g = graph();
    g.ensure_node("a", Some("bell\u{7}!".into()), None);
    let b = g.ensure_node("b", None, None);
    g.add_edge(0, b, Some("x\ry".into()), EdgeKind::Arrow);
    let text = to_mermaid(&g);
    assert!(!text.chars().any(|c| c.is_control() && c != '\n'), "{text:?}");
    assert!(label_text("bell\u{7}!").contains("bell !"));
}

#[test]
fn edges_may_end_at_subgraphs() {
    let mut g = graph();
    g.direction = Direction::LR;
    let a = g.ensure_node("a", None, None);
    let b = g.ensure_node("b", None, None);
    g.subgraphs.push(subgraph("box", vec![a], None));
    g.sub_edges.push(SubEdge {
        from: End::Node(b),
        to: End::Sub(0),
        label: None,
        kind: EdgeKind::Arrow,
    });
    let text = to_mermaid(&g);
    assert!(text.starts_with("flowchart LR\n"), "{text}");
    assert!(text.contains("b --> box"), "{text}");
    assert!(check_preconditions(&g));
}

#[test]
fn a_node_that_shares_its_id_with_a_subgraph_is_reported() {
    let mut g = graph();
    let a = g.ensure_node("a", None, None);
    g.subgraphs.push(subgraph("box", vec![a], None));
    assert!(check_preconditions(&g));
    g.ensure_node("box", None, None);
    assert!(!check_preconditions(&g));
}

#[test]
fn a_member_of_two_subgraphs_is_reported() {
    let mut g = graph();
    let a = g.ensure_node("a", None, None);
    g.subgraphs.push(subgraph("s0", vec![a], None));
    g.subgraphs.push(subgraph("s1", vec![a], None));
    assert!(!check_preconditions(&g));
}
