//! Mindmaps: wedges, boxes, links and SVG.

use flowmaid::advance::scene::Px;
use flowmaid::mindmap::check;
use flowmaid::mindmap::scene::{
    hexagon_pts, node_size, route, scene, MindNodeBox, MindScene, RING,
};
use flowmaid::mindmap::svg::{perimeter, to_svg};
use flowmaid::mindmap::wedge::{wedges, weigh};
use flowmaid::model::{MindNode, MindShape, Mindmap};

fn accents() -> Vec<String> {
    vec!["#aa0000".to_string(), "#00aa00".to_string(), "#0000aa".to_string()]
}

/// A tree from texts, shapes and parents, in order.
fn mind(nodes: &[(&str, MindShape, Option<usize>)]) -> Mindmap {
    let mut out: Vec<MindNode> = Vec::new();
    for (i, (text, shape, parent)) in nodes.iter().enumerate() {
        let (depth, branch) = match parent {
            None => (0, None),
            Some(p) => {
                let depth = out[*p].depth + 1;
                (depth, if depth == 1 { Some(i) } else { out[*p].branch })
            }
        };
        if let Some(p) = parent {
            out[*p].children.push(i);
        }
        out.push(MindNode {
            text: text.to_string(),
            shape: *shape,
            parent: *parent,
            children: vec![],
            depth,
            branch,
        });
    }
    let m = Mindmap { nodes: out };
    assert!(check(&m));
    m
}

fn around(m: &Mindmap) -> Vec<(Px, Px)> {
    let w = weigh(m);
    let at = wedges(m, &w);
    let turn = std::f64::consts::TAU;
    m.nodes
        .iter()
        .enumerate()
        .map(|(i, n)| {
            let mid = (at[i] as f64 + w[i] as f64 / 2.0) / w[0] as f64;
            let angle = turn * mid - turn / 4.0;
            let r = RING as f64 * n.depth as f64;
            ((r * angle.cos()) as Px, (r * angle.sin()) as Px)
        })
        .collect()
}

fn drawn(m: &Mindmap) -> MindScene {
    scene(m, &around(m), &accents())
}

fn no_outlines(ms: &MindScene) -> Vec<Vec<(Px, Px)>> {
    ms.nodes.iter().map(|n| vec![(n.x, n.y), (n.x + n.w, n.y), (n.x, n.y + n.h)]).collect()
}

#[test]
fn radial_layout_stays_inside_canvas() {
    let r = MindShape::Rounded;
    let ms = drawn(&mind(&[
        ("Order", MindShape::Circle, None),
        ("Customer", r, Some(0)),
        ("Buat Order", r, Some(1)),
        ("Lihat Order", r, Some(1)),
        ("Owner", r, Some(0)),
        ("Kelola", r, Some(4)),
        ("State Machine", r, Some(4)),
        ("Sistem", r, Some(0)),
    ]));
    assert!(ms.width > 0 && ms.height > 0);
    for n in &ms.nodes {
        assert!(n.x >= 0 && n.y >= 0, "node top-left inside");
        assert!(n.x + n.w <= ms.width, "node right inside canvas");
        assert!(n.y + n.h <= ms.height, "node bottom inside canvas");
    }
    assert_eq!(ms.edges.len(), ms.nodes.len() - 1);
}

#[test]
fn root_sits_near_the_centre() {
    let r = MindShape::Rounded;
    let ms = drawn(&mind(&[
        ("R", MindShape::Circle, None),
        ("A", r, Some(0)),
        ("B", r, Some(0)),
        ("C", r, Some(0)),
        ("D", r, Some(0)),
    ]));
    let root = &ms.nodes[0];
    let (w, h) = (ms.width as f64, ms.height as f64);
    assert!((root.cx() as f64 - w / 2.0).abs() < w * 0.28);
    assert!((root.cy() as f64 - h / 2.0).abs() < h * 0.28);
}

#[test]
fn to_svg_draws_shapes_and_links() {
    let ms = drawn(&mind(&[
        ("R", MindShape::Circle, None),
        ("A", MindShape::Rounded, Some(0)),
        ("boom", MindShape::Bang, Some(0)),
        ("fog", MindShape::Cloud, Some(0)),
        ("hx", MindShape::Hexagon, Some(0)),
    ]));
    let svg = to_svg(&ms, &no_outlines(&ms));
    assert!(svg.starts_with("<svg"));
    assert!(svg.trim_end().ends_with("</svg>"));
    assert!(svg.contains("<ellipse"), "circle root");
    assert!(svg.contains("<polygon"), "bang/cloud/hexagon polygons");
    assert!(svg.contains("<path"), "connectors");
    assert!(svg.contains("fill=\"#ffffff\""), "branch text is white");
    assert_eq!(svg.matches("<polygon").count(), 3);
    assert_eq!(svg.matches("<path").count(), 4);
}

#[test]
fn route_follows_dragged_positions() {
    let r = MindShape::Rounded;
    let m = mind(&[("R", MindShape::Circle, None), ("A", r, Some(0)), ("B", r, Some(0))]);
    let auto = drawn(&m);
    let mut pos: Vec<(Px, Px)> = auto.nodes.iter().map(|n| (n.cx(), n.cy())).collect();
    pos[1] = (pos[1].0 + 500 * 64000, pos[1].1);
    let routed = route(&m, &pos, &accents());
    assert!((routed.nodes[1].cx() - pos[1].0).abs() <= 1);
    let a_edge = &routed.edges[0];
    assert!((a_edge.bezier.3 .0 - pos[1].0).abs() < routed.nodes[1].w);
    assert!(routed.width > auto.width);
}

#[test]
fn wrong_number_of_centres_gives_an_empty_canvas() {
    let m = mind(&[("R", MindShape::Circle, None)]);
    let empty = route(&m, &vec![], &accents());
    assert_eq!(empty.nodes.len(), 0);
    assert_eq!(empty.width, 56 * 64000);
    assert_eq!(empty.height, 56 * 64000);
}

#[test]
fn polygons_are_for_polygon_shapes() {
    let node = |shape: MindShape| MindNodeBox {
        x: 0,
        y: 0,
        w: 60 * 64000,
        h: 20 * 64000,
        text: "t".to_string(),
        shape,
        depth: 1,
        fill: "#000000".to_string(),
        text_color: "#ffffff".to_string(),
    };
    let given = vec![(1, 2), (3, 4), (5, 6)];
    assert_eq!(perimeter(&node(MindShape::Bang), &given), Some(given.clone()));
    assert_eq!(perimeter(&node(MindShape::Cloud), &given), Some(given.clone()));
    assert!(perimeter(&node(MindShape::Rounded), &given).is_none());
    assert!(perimeter(&node(MindShape::Square), &given).is_none());
    assert!(perimeter(&node(MindShape::Circle), &given).is_none());
    let px = |v: Px| v * 64000;
    let hex = vec![
        (px(10), 0),
        (px(50), 0),
        (px(60), px(10)),
        (px(50), px(20)),
        (px(10), px(20)),
        (0, px(10)),
    ];
    assert_eq!(hexagon_pts(&node(MindShape::Hexagon)), hex);
    assert_eq!(perimeter(&node(MindShape::Hexagon), &given), Some(hex));
}

#[test]
fn wedges_fill_the_turn() {
    let r = MindShape::Rounded;
    let m = mind(&[
        ("root", r, None),
        ("a", r, Some(0)),
        ("a1", r, Some(1)),
        ("a2", r, Some(1)),
        ("b", r, Some(0)),
    ]);
    let w = weigh(&m);
    assert_eq!(w, vec![3, 2, 1, 1, 1]);
    assert_eq!(wedges(&m, &w), vec![0, 0, 0, 1, 2]);
}

#[test]
fn a_tree_has_one_parent_per_node() {
    let node = |parent: Option<usize>, children: Vec<usize>| MindNode {
        text: "n".to_string(),
        shape: MindShape::Rounded,
        parent,
        children,
        depth: 0,
        branch: None,
    };
    assert!(check(&Mindmap { nodes: vec![node(None, vec![1]), node(Some(0), vec![])] }));
    assert!(!check(&Mindmap { nodes: vec![node(None, vec![0])] }));
    assert!(!check(&Mindmap { nodes: vec![node(None, vec![1]), node(None, vec![])] }));
    assert!(!check(&Mindmap { nodes: vec![node(None, vec![1, 1]), node(Some(0), vec![])] }));
    assert!(!check(&Mindmap { nodes: vec![node(Some(3), vec![])] }));
}

#[test]
fn branches_share_a_colour() {
    let r = MindShape::Rounded;
    let ms = drawn(&mind(&[
        ("root", r, None),
        ("a", r, Some(0)),
        ("a1", r, Some(1)),
        ("b", r, Some(0)),
    ]));
    assert_eq!(ms.nodes[0].fill, "#c9cfe0");
    assert_eq!(ms.nodes[1].fill, "#aa0000");
    assert_eq!(ms.nodes[2].fill, "#aa0000");
    assert_eq!(ms.nodes[3].fill, "#00aa00");
    assert_eq!(ms.edges[1].color, "#aa0000");
    assert_eq!(ms.edges[0].width, 288000, "4.5 px next to the root");
}

#[test]
fn more_lines_make_taller_nodes() {
    let one = node_size("a", MindShape::Square);
    let two = node_size("a\na", MindShape::Square);
    assert_eq!(one.0, two.0);
    assert_eq!(one.1, 32 * 64000);
    assert_eq!(two.1, 50 * 64000);
}
