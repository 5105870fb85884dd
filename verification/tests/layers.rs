//! The layered layout engine, and the bands of folded chains.

use flowmaid::advance::scene::Px;
use flowmaid::fold::turn::{fold_connector, stack_bands, turn_apex, Stop};
use flowmaid::layout::engine::{layout_clustered, layout_sized, MARGIN};
use flowmaid::layout::intrinsic::{intrinsic_size, intrinsic_size_with, layout};
use flowmaid::model::{Direction, Edge, EdgeKind, Graph, Node, NodeStyle, Shape};

fn px(v: Px) -> Px {
    v * 64000
}

fn node(id: &str, shape: Shape) -> Node {
    Node {
        id: id.to_string(),
        label: id.to_string(),
        shape,
        style: NodeStyle { fill: None, stroke: None, stroke_width: None, color: None },
    }
}

fn graph(direction: Direction, n: usize, edges: &[(usize, usize)]) -> Graph {
    Graph {
        direction,
        nodes: (0..n).map(|i| node(&format!("n{i}"), Shape::Rect)).collect(),
        edges: edges
            .iter()
            .map(|&(from, to)| Edge { from, to, label: None, kind: EdgeKind::Arrow })
            .collect(),
        subgraphs: vec![],
        sub_edges: vec![],
    }
}

fn even(n: usize) -> Vec<(Px, Px)> {
    vec![(px(60), px(40)); n]
}

#[test]
fn a_chain_stands_in_one_column() {
    let r = layout_sized(&graph(Direction::TD, 3, &[(0, 1), (1, 2)]), &even(3));
    let at: Vec<(Px, Px, usize)> = r.nodes.iter().map(|p| (p.b, p.l, p.layer)).collect();
    assert_eq!(
        at,
        vec![(px(58), px(48), 0), (px(58), px(148), 1), (px(58), px(248), 2)]
    );
    assert_eq!(r.total_b, px(60) + 2 * MARGIN);
    assert_eq!(r.total_l, px(3 * 40 + 2 * 60) + 2 * MARGIN);
    assert_eq!(r.edge_paths, vec![vec![], vec![]]);
}

#[test]
fn siblings_keep_their_gap() {
    let r = layout_sized(&graph(Direction::TD, 3, &[(0, 1), (0, 2)]), &even(3));
    assert_eq!(r.nodes[2].b - r.nodes[1].b, px(110));
    assert_eq!(2 * r.nodes[0].b, r.nodes[1].b + r.nodes[2].b);
    assert_eq!(r.nodes[1].layer, 1);
    assert_eq!(r.nodes[2].layer, 1);
}

#[test]
fn sideways_layouts_swap_the_axes() {
    let r = layout_sized(&graph(Direction::LR, 2, &[(0, 1)]), &even(2));
    assert_eq!(r.nodes[0].bsize, px(40));
    assert_eq!(r.nodes[0].lsize, px(60));
    assert_eq!(r.nodes[1].l - r.nodes[0].l, px(120));
}

#[test]
fn long_edges_pass_through_a_channel() {
    let r = layout_sized(&graph(Direction::TD, 3, &[(0, 1), (1, 2), (0, 2)]), &even(3));
    assert_eq!(r.edge_paths[2].len(), 1);
    let (b, l) = r.edge_paths[2][0];
    assert_eq!(l, r.nodes[1].l);
    assert!((b - r.nodes[1].b).abs() >= px(30 + 8));
}

#[test]
fn a_cycle_is_laid_out_too() {
    let r = layout_sized(&graph(Direction::TD, 2, &[(0, 1), (1, 0)]), &even(2));
    assert_eq!((r.nodes[0].layer, r.nodes[1].layer), (0, 1));
}

#[test]
fn labels_reserve_room_on_long_edges() {
    let mut g = graph(Direction::TD, 3, &[(0, 1), (1, 2), (0, 2)]);
    let plain = layout_sized(&g, &even(3));
    g.edges[2].label = Some("a label that is quite wide".to_string());
    let wide = layout_sized(&g, &even(3));
    assert!(
        (wide.edge_paths[2][0].0 - wide.nodes[1].b).abs()
            > (plain.edge_paths[2][0].0 - plain.nodes[1].b).abs()
    );
}

#[test]
fn no_nodes_give_an_empty_canvas() {
    let r = layout(&graph(Direction::TD, 0, &[]));
    assert_eq!(r.nodes.len(), 0);
    assert_eq!((r.total_b, r.total_l), (2 * MARGIN, 2 * MARGIN));
}

#[test]
fn subgraphs_reserve_room_for_their_titles() {
    let g = graph(Direction::TD, 3, &[(0, 1), (1, 2)]);
    let flat = layout_sized(&g, &even(3));
    let boxed = layout_clustered(&g, &even(3), &vec![vec![], vec![0], vec![0]]);
    assert_eq!(boxed.nodes[1].lsize, px(40 + 52));
    assert_eq!(boxed.nodes[2].lsize, px(40));
    assert!(boxed.total_l > flat.total_l);
}

#[test]
fn members_of_a_subgraph_stay_together() {
    let g = graph(Direction::TD, 5, &[(0, 1), (0, 2), (0, 3), (0, 4)]);
    let c = vec![vec![], vec![7], vec![], vec![7], vec![]];
    let r = layout_clustered(&g, &even(5), &c);
    let mut row: Vec<usize> = vec![1, 2, 3, 4];
    row.sort_by_key(|&v| r.nodes[v].b);
    let first = row.iter().position(|&v| v == 1).unwrap();
    let third = row.iter().position(|&v| v == 3).unwrap();
    assert_eq!(first.abs_diff(third), 1);
}

#[test]
fn shapes_have_their_sizes() {
    assert_eq!(intrinsic_size(&node("x", Shape::StateStart)), (px(14), px(14)));
    assert_eq!(intrinsic_size(&node("x", Shape::StateEnd)), (px(18), px(18)));
    assert_eq!(intrinsic_size(&node("x", Shape::ForkBar)), (px(60), px(8)));
    assert_eq!(intrinsic_size(&node("x", Shape::Rect)), (px(54), px(38)));
    let wide = vec![px(10), px(100), px(50)];
    assert_eq!(intrinsic_size_with(&node("x", Shape::Rect), &wide), (px(132), px(38)));
    assert_eq!(intrinsic_size_with(&node("x", Shape::DoubleCircle), &wide), (px(132), px(132)));
    assert_eq!(intrinsic_size_with(&node("a\nb", Shape::Cylinder), &vec![]), (px(54), px(71)));
}

#[test]
fn turns_lead_past_the_bands() {
    let stop = |x: Px, y: Px| Stop { x: px(x), y: px(y), w: px(60), h: px(40) };
    let a = stop(50, 300);
    let b = stop(150, 300);
    let (at, end) = turn_apex(a, b, false, 0, px(48), px(300));
    assert!(end);
    assert_eq!(at, px(300 + 20 + 36));
    assert_eq!(turn_apex(a, b, false, 1, px(48), px(300)).0, px(300 + 20 + 36 + 14));
    let (up, start) = turn_apex(stop(50, 48), stop(150, 48), false, 0, px(48), px(300));
    assert!(!start);
    assert_eq!(up, px(48 - 20 - 36));
    let p = (px(50), px(320));
    let q = (px(150), px(320));
    assert_eq!(fold_connector(a, b, false, at, p, q), vec![p, (px(50), at), (px(150), at), q]);
    let far = stop(350, 300);
    assert_eq!(
        fold_connector(a, far, false, at, p, q),
        vec![p, (px(50), at), (px(200), at), (px(350), at), q]
    );
}

#[test]
fn bands_stand_side_by_side() {
    let starts = stack_bands(&vec![px(156), px(116), px(90)], 44 * 64000);
    assert_eq!(starts, vec![0, px(144), px(144 + 104)]);
}
