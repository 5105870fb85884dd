//! Swimlane diagrams from source text to picture.

use flowmaid::advance::ends::parse_end;
use flowmaid::advance::hit::AdvanceHit;
use flowmaid::advance::place::layout::layout_around;
use flowmaid::advance::place::sequence::emission_order;
use flowmaid::advance::place::measure::{measure_labels, measure_node, num_px, spacing, width_px};
use flowmaid::advance::read_json::{parse_side_json, px_number};
use flowmaid::advance::render;
use flowmaid::advance::route::geometry::{node_rect as rect_of, Rect, Spot};
use flowmaid::advance::route::label_spots;
use flowmaid::advance::scene::{AdvanceScene, Point};
use flowmaid::advance::scene_json;
use flowmaid::advance::svg::{self, MarkerCounter};
use flowmaid::advance::svg_node::{ShapeStyle, Theme};
use flowmaid::advance::write_json::to_json;
use flowmaid::advance::{
    AdvanceDiagram, AdvanceDirection, AdvanceEnd, AdvanceError, AdvanceOrder, AdvanceSide,
    AnchorRef, ElementLayout,
};
use flowmaid::json::parse_json;
use flowmaid::model::{EdgeKind, NodeStyle, Shape};
use flowmaid::num::Num;

fn theme() -> Theme {
    Theme {
        shapes: Vec::new(),
        other: ShapeStyle { fill: "#ffffff".to_string(), stroke: "#44507a".to_string() },
    }
}

fn num(s: &str) -> Option<Num> {
    Some(Num::of(s))
}

fn to_px(v: f64) -> i64 {
    (v * 64000.0).round() as i64
}

fn px_back(v: i64) -> f64 {
    v as f64 / 64000.0
}

fn finite(v: f64) -> Option<i64> {
    if v.is_finite() {
        Some(to_px(v))
    } else {
        None
    }
}

fn all_finite(v: &[f64]) -> Vec<Option<i64>> {
    v.iter().map(|x| finite(*x)).collect()
}

struct Lane {
    id: String,
    x: f64,
    y: f64,
    w: f64,
    h: f64,
}

struct Element {
    id: String,
    x: f64,
    y: f64,
    w: f64,
    h: f64,
}

struct Anchor {
    id: String,
    element: Option<usize>,
    x: f64,
    y: f64,
}

struct Node {
    id: String,
    x: f64,
    y: f64,
    w: f64,
    h: f64,
    elements: Vec<Element>,
    anchors: Vec<Anchor>,
}

struct Edge {
    points: Vec<(f64, f64)>,
    from_point: (f64, f64),
    to_point: (f64, f64),
    from_end: AdvanceEnd,
    to_end: AdvanceEnd,
}

/// A scene with its coordinates in pixels.
struct Picture {
    scene: AdvanceScene,
    width: f64,
    height: f64,
    direction: AdvanceDirection,
    lanes: Vec<Lane>,
    nodes: Vec<Node>,
    edges: Vec<Edge>,
}

fn spot_of(p: Point) -> (f64, f64) {
    (px_back(p.x), px_back(p.y))
}

fn picture(scene: AdvanceScene) -> Picture {
    let lanes = scene
        .lanes
        .iter()
        .map(|l| Lane {
            id: l.id.clone(),
            x: px_back(l.x),
            y: px_back(l.y),
            w: px_back(l.w),
            h: px_back(l.h),
        })
        .collect();
    let nodes = scene
        .nodes
        .iter()
        .map(|n| Node {
            id: n.id.clone(),
            x: px_back(n.x),
            y: px_back(n.y),
            w: px_back(n.w),
            h: px_back(n.h),
            elements: n
                .elements
                .iter()
                .map(|e| Element {
                    id: e.id.clone(),
                    x: px_back(e.x),
                    y: px_back(e.y),
                    w: px_back(e.w),
                    h: px_back(e.h),
                })
                .collect(),
            anchors: n
                .anchors
                .iter()
                .map(|a| Anchor {
                    id: a.id.clone(),
                    element: a.element,
                    x: px_back(a.x),
                    y: px_back(a.y),
                })
                .collect(),
        })
        .collect();
    let edges = scene
        .edges
        .iter()
        .map(|e| Edge {
            points: e.points.iter().map(|p| spot_of(*p)).collect(),
            from_point: spot_of(e.from_point),
            to_point: spot_of(e.to_point),
            from_end: e.from_end.clone(),
            to_end: e.to_end.clone(),
        })
        .collect();
    Picture {
        width: px_back(scene.width),
        height: px_back(scene.height),
        direction: scene.direction,
        lanes,
        nodes,
        edges,
        scene,
    }
}

impl Picture {
    fn hit_test(&self, x: f64, y: f64, tol: f64) -> Option<AdvanceHit> {
        self.scene.hit_test(to_px(x), to_px(y), to_px(tol))
    }

    fn anchor_at(&self, x: f64, y: f64, tol: f64) -> Option<(usize, usize)> {
        self.scene.anchor_at(to_px(x), to_px(y), to_px(tol))
    }

    fn element_at(&self, x: f64, y: f64) -> Option<(usize, usize)> {
        self.scene.element_at(to_px(x), to_px(y))
    }

    fn node_at(&self, x: f64, y: f64) -> Option<usize> {
        self.scene.node_at(to_px(x), to_px(y))
    }

    fn edge_at(&self, x: f64, y: f64, tol: f64) -> Option<usize> {
        self.scene.edge_at(to_px(x), to_px(y), to_px(tol))
    }

    fn lane_at(&self, x: f64, y: f64) -> Option<usize> {
        self.scene.lane_at(to_px(x), to_px(y))
    }

    fn nearest_node(&self, x: f64, y: f64) -> Option<(usize, f64)> {
        self.scene
            .nearest_node(to_px(x), to_px(y))
            .map(|(i, square)| (i, (square as f64).sqrt() / 2.0 / 64000.0))
    }
}

fn layout(d: &AdvanceDiagram) -> Picture {
    picture(render::place(d))
}

fn layout_at(d: &AdvanceDiagram, positions: &[f64]) -> Picture {
    let order = emission_order(d);
    let measures = d
        .nodes
        .iter()
        .enumerate()
        .map(|(v, n)| {
            let i = order.iter().position(|o| *o == v).unwrap();
            measure_node(n, finite(positions[2 * i]), finite(positions[2 * i + 1]))
        })
        .collect();
    picture(layout_around(d, &measures, &measure_labels(d), spacing(&d.config)))
}

fn to_svg(p: &Picture) -> String {
    svg::to_svg(&p.scene, &theme(), &mut MarkerCounter::default())
}

fn scene_to_json(p: &Picture) -> String {
    scene_json::scene_to_json(&p.scene)
}

fn render_advance_svg(source: &str) -> Result<String, AdvanceError> {
    render::render_advance_svg(source, &theme(), &mut MarkerCounter::default())
}

fn render_advance_text_svg(source: &str) -> Result<String, AdvanceError> {
    render::render_advance_text_svg(source, &theme(), &mut MarkerCounter::default())
}

fn render_advance_routed(source: &str, positions: &[f64]) -> Result<String, AdvanceError> {
    let mut counter = MarkerCounter::default();
    render::render_advance_routed(source, &all_finite(positions), &theme(), &mut counter)
}

fn render_advance_routed_with_lanes(
    source: &str,
    positions: &[f64],
    widths: &[f64],
    margin: f64,
    gap: f64,
) -> Result<String, AdvanceError> {
    render::render_advance_routed_with_lanes(
        source,
        &all_finite(positions),
        &all_finite(widths),
        finite(margin),
        finite(gap),
        &theme(),
        &mut MarkerCounter::default(),
    )
}

fn point(p: (f64, f64)) -> Point {
    Point { x: to_px(p.0), y: to_px(p.1) }
}

fn label_candidates(points: &[(f64, f64)]) -> Vec<Point> {
    label_spots::label_candidates(&points.iter().map(|p| point(*p)).collect())
}

fn spot(n: &Node) -> Spot {
    Spot { x: to_px(n.x), y: to_px(n.y), w: to_px(n.w), h: to_px(n.h) }
}

fn choose_label_pos(
    candidates: &Vec<Point>,
    text: &str,
    from: &str,
    to: &str,
    nodes: &[Node],
    placed: &[Rect],
) -> Option<(f64, f64)> {
    let spots = nodes.iter().filter(|n| n.id != from && n.id != to).map(spot).collect();
    let placed = placed.iter().map(|r| Rect { l: r.l, t: r.t, r: r.r, b: r.b }).collect();
    label_spots::choose_label_pos(candidates, width_px(text), &spots, &placed).map(spot_of)
}

fn label_box(p: (f64, f64), text: &str) -> Rect {
    label_spots::label_box(point(p), width_px(text))
}

fn node_rect(n: &Node) -> Rect {
    rect_of(spot(n))
}

fn rects_overlap(a: &Rect, b: &Rect) -> bool {
    a.l < b.r && a.r > b.l && a.t < b.b && a.b > b.t
}

fn end(text: &str) -> Result<AdvanceEnd, String> {
    parse_end(&text.chars().collect::<Vec<char>>())
}


fn sample_json() -> &'static str {
    r#"{
        "lanes": [
            {"id": "dev", "title": "Development"},
            {"id": "qa", "title": "QA"}
        ],
        "nodes": [
            {"id": "a", "label": "Design", "lane": "dev"},
            {"id": "b", "label": "Code", "lane": "dev"},
            {"id": "c", "label": "Test", "lane": "qa", "shape": "diamond"},
            {"id": "d", "label": "Sign off", "lane": "qa", "shape": "stadium"}
        ],
        "edges": [
            {"from": "a", "to": "b", "label": "implements"},
            {"from": "b", "to": "c"},
            {"from": "c", "to": "d"}
        ]
    }"#
}

#[test]
fn parse_sample() {
    let d = AdvanceDiagram::parse(sample_json()).unwrap();
    assert_eq!(d.lanes.len(), 2);
    assert_eq!(d.nodes.len(), 4);
    assert_eq!(d.edges.len(), 3);
}

#[test]
fn layout_has_geometry() {
    let d = AdvanceDiagram::parse(sample_json()).unwrap();
    let sc = layout(&d);
    assert!(sc.width > 0.0);
    assert!(sc.height > 0.0);
    assert_eq!(sc.lanes.len(), 2);
    assert_eq!(sc.nodes.len(), 4);
    assert_eq!(sc.edges.len(), 3);
}

#[test]
fn render_produces_svg() {
    let svg = render_advance_svg(sample_json()).unwrap();
    assert!(svg.starts_with("<svg"));
    assert!(svg.contains("Development"));
    assert!(svg.contains("Design"));
    assert!(svg.contains("implements"));
}

#[test]
fn invalid_json_rejected() {
    assert!(render_advance_svg("not json").is_err());
}

#[test]
fn unknown_lane_rejected() {
    let src = r#"{"lanes":[{"id":"x"}],"nodes":[{"id":"n","lane":"y"}]}"#;
    assert!(AdvanceDiagram::parse(src).is_err());
}

#[test]
fn unknown_edge_node_rejected() {
    let src = r#"{"lanes":[{"id":"x"}],"nodes":[{"id":"n","lane":"x"}],"edges":[{"from":"n","to":"z"}]}"#;
    assert!(AdvanceDiagram::parse(src).is_err());
}

#[test]
fn shape_and_edge_kind_parity() {
    let src = r#"{
        "lanes":[{"id":"x"}],
        "nodes":[
            {"id":"a","lane":"x","shape":"doublecircle"},
            {"id":"b","lane":"x","shape":"statestart"},
            {"id":"c","lane":"x","shape":"stateend"},
            {"id":"d","lane":"x","shape":"forkbar"},
            {"id":"e","lane":"x","shape":"parallelogramalt"}
        ],
        "edges":[
            {"from":"a","to":"b","kind":"dottedopen"},
            {"from":"b","to":"c","kind":"thickopen"},
            {"from":"c","to":"d","kind":"invisible"}
        ]
    }"#;
    let d = AdvanceDiagram::parse(src).unwrap();
    assert_eq!(d.nodes[0].shape, Shape::DoubleCircle);
    assert_eq!(d.nodes[1].shape, Shape::StateStart);
    assert_eq!(d.nodes[2].shape, Shape::StateEnd);
    assert_eq!(d.nodes[3].shape, Shape::ForkBar);
    assert_eq!(d.nodes[4].shape, Shape::ParallelogramAlt);
    assert_eq!(d.edges[0].kind, EdgeKind::DottedOpen);
    assert_eq!(d.edges[1].kind, EdgeKind::ThickOpen);
    assert_eq!(d.edges[2].kind, EdgeKind::Invisible);
}

#[test]
fn marker_id_namespacing() {
    let mut counter = MarkerCounter::default();
    let svg1 = render::render_advance_svg(sample_json(), &theme(), &mut counter).unwrap();
    let svg2 = render::render_advance_svg(sample_json(), &theme(), &mut counter).unwrap();
    let m1 = svg1.find("id=\"advance-arrow-").unwrap();
    let m2 = svg2.find("id=\"advance-arrow-").unwrap();
    let id1 = &svg1[m1..m1 + 25];
    let id2 = &svg2[m2..m2 + 25];
    assert_ne!(id1, id2);
}

#[test]
fn accessibility_title_and_description() {
    let src = r#"{
        "title": "Deployment Pipeline",
        "description": "Overview of stages",
        "lanes":[{"id":"x"}],
        "nodes":[{"id":"a","lane":"x"}]
    }"#;
    let svg = render_advance_svg(src).unwrap();
    assert!(svg.contains("<title>Deployment Pipeline</title>"));
    assert!(svg.contains("<desc>Overview of stages</desc>"));
}

#[test]
fn explicit_geometry_and_serialization_roundtrip() {
    let src = "{\n\
           \"title\": \"T\",\n\
           \"style\": {\"lane_fill\": \"#112233\"},\n\
           \"config\": {\"margin\": 15.0, \"order\": \"topology\"},\n\
           \"lanes\": [{\"id\": \"l1\", \"title\": \"L1\"}],\n\
           \"nodes\": [{\"id\": \"n1\", \"label\": \"N1\", \"lane\": \"l1\", \"shape\": \"rect\", \"x\": 100.0, \"y\": 200.0, \"w\": 50.0, \"h\": 40.0}],\n\
           \"edges\": [{\"from\": \"n1\", \"to\": \"n1\", \"kind\": \"arrow\"}]\n\
         }";
    let d = AdvanceDiagram::parse(src).unwrap();
    let json_out = to_json(&d);
    let d2 = AdvanceDiagram::parse(&json_out).unwrap();
    assert_eq!(d.title, d2.title);
    assert_eq!(d.nodes, d2.nodes);
    assert_eq!(d.style.lane_fill, d2.style.lane_fill);
    assert_eq!(d.config.margin, d2.config.margin);
    assert_eq!(d.config.order, d2.config.order);
}

#[test]
fn topology_order_reorders_chain() {
    let src = r#"{
        "config":{"order":"topology"},
        "lanes":[{"id":"l"}],
        "nodes":[
            {"id":"c","label":"C","lane":"l"},
            {"id":"a","label":"A","lane":"l"},
            {"id":"b","label":"B","lane":"l"}
        ],
        "edges":[
            {"from":"a","to":"b"},
            {"from":"b","to":"c"}
        ]
    }"#;
    let d = AdvanceDiagram::parse(src).unwrap();
    let sc = layout(&d);
    let ya = sc.nodes.iter().find(|n| n.id == "a").unwrap().y;
    let yb = sc.nodes.iter().find(|n| n.id == "b").unwrap().y;
    let yc = sc.nodes.iter().find(|n| n.id == "c").unwrap().y;
    assert!(ya < yb, "expected A before B in topology mode");
    assert!(yb < yc, "expected B before C in topology mode");
}

#[test]
fn nested_lanes_containment_and_rendering() {
    let src = r#"{
        "lanes":[
            {
                "id":"parent",
                "title":"Parent",
                "children":[
                    {"id":"c1","title":"Child 1"},
                    {"id":"c2","title":"Child 2"}
                ]
            }
        ],
        "nodes":[
            {"id":"n1","lane":"c1"},
            {"id":"n2","lane":"c2"}
        ]
    }"#;
    let d = AdvanceDiagram::parse(src).unwrap();
    let sc = layout(&d);
    assert_eq!(sc.lanes.len(), 3);
    let parent = sc.lanes.iter().find(|l| l.id == "parent").unwrap();
    let c1 = sc.lanes.iter().find(|l| l.id == "c1").unwrap();
    let c2 = sc.lanes.iter().find(|l| l.id == "c2").unwrap();
    assert!(c1.x >= parent.x);
    assert!(c1.y >= parent.y);
    assert!(c2.x + c2.w <= parent.x + parent.w + 1e-9);
    assert!(c2.y + c2.h <= parent.y + parent.h + 1e-9);
    let svg = to_svg(&sc);
    assert!(svg.contains("Parent"));
    assert!(svg.contains("Child 1"));
    assert!(svg.contains("Child 2"));
}

#[test]
fn horizontal_swimlanes() {
    let src = r#"{
        "direction": "horizontal",
        "lanes":[{"id":"l1","title":"Row 1"},{"id":"l2","title":"Row 2"}],
        "nodes":[
            {"id":"a","lane":"l1"},
            {"id":"b","lane":"l1"},
            {"id":"c","lane":"l2"}
        ],
        "edges":[{"from":"a","to":"b"},{"from":"a","to":"c"}]
    }"#;
    let d = AdvanceDiagram::parse(src).unwrap();
    let sc = layout(&d);
    assert_eq!(sc.direction, AdvanceDirection::Horizontal);
    let l1 = sc.lanes.iter().find(|l| l.id == "l1").unwrap();
    let l2 = sc.lanes.iter().find(|l| l.id == "l2").unwrap();
    assert_eq!(l1.x, l2.x);
    assert!(l1.y < l2.y);
    let na = sc.nodes.iter().find(|n| n.id == "a").unwrap();
    let nb = sc.nodes.iter().find(|n| n.id == "b").unwrap();
    assert_eq!(na.y, nb.y);
    assert!(na.x < nb.x);
    let svg = to_svg(&sc);
    assert!(svg.starts_with("<svg"));
}

#[test]
fn horizontal_nested_lanes_layout_and_containment() {
    let src = r#"{
        "direction": "horizontal",
        "lanes": [
            {
                "id": "dept",
                "title": "Engineering",
                "children": [
                    {"id": "fe", "title": "Frontend"},
                    {"id": "be", "title": "Backend"}
                ]
            }
        ],
        "nodes": [
            {"id": "ui", "label": "Web App", "lane": "fe"},
            {"id": "api", "label": "REST API", "lane": "be"}
        ],
        "edges": [
            {"from": "ui", "to": "api", "label": "calls"}
        ]
    }"#;
    let d = AdvanceDiagram::parse(src).unwrap();
    let sc = layout(&d);
    assert_eq!(sc.lanes.len(), 3);
    let parent = sc.lanes.iter().find(|l| l.id == "dept").unwrap();
    let fe = sc.lanes.iter().find(|l| l.id == "fe").unwrap();
    let be = sc.lanes.iter().find(|l| l.id == "be").unwrap();

    assert!(fe.y >= parent.y);
    assert!(be.y >= fe.y + fe.h);
    assert!(parent.h >= fe.h + be.h);
}

#[test]
fn routed_with_lanes_rejects_horizontal() {
    let src = r#"{"direction":"horizontal","lanes":[{"id":"l"}],"nodes":[]}"#;
    assert!(render_advance_routed_with_lanes(src, &[], &[100.0], 10.0, 10.0).is_err());
}

#[test]
fn routed_renders_with_custom_positions() {
    let d = AdvanceDiagram::parse(sample_json()).unwrap();
    let auto = layout(&d);
    let pos: Vec<f64> = auto.nodes.iter().flat_map(|n| [n.x + 10.0, n.y]).collect();
    let svg = render_advance_routed(sample_json(), &pos).unwrap();
    assert!(svg.starts_with("<svg"));
    assert!(svg.contains("Code"));
    assert!(svg.contains("implements"));
}

#[test]
fn routed_rejects_bad_position_length() {
    assert!(render_advance_routed(sample_json(), &[1.0, 2.0]).is_err());
}

#[test]
fn routed_rejects_non_finite_positions() {
    assert!(render_advance_routed(sample_json(), &[f64::NAN; 8]).is_err());
    assert!(render_advance_routed(sample_json(), &[f64::INFINITY; 8]).is_err());
}

#[test]
fn routed_with_lanes_renders_svg() {
    let d = AdvanceDiagram::parse(sample_json()).unwrap();
    let auto = layout(&d);
    let pos: Vec<f64> = auto.nodes.iter().flat_map(|n| [n.x, n.y]).collect();
    let svg = render_advance_routed_with_lanes(sample_json(), &pos, &[200.0, 200.0], 24.0, 40.0).unwrap();
    assert!(svg.starts_with("<svg"));
    assert!(svg.contains("Development"));
    assert!(svg.contains("QA"));
}

#[test]
fn routed_with_lanes_uses_caller_widths() {
    let d = AdvanceDiagram::parse(sample_json()).unwrap();
    let auto = layout(&d);
    let pos: Vec<f64> = auto.nodes.iter().flat_map(|n| [n.x, n.y]).collect();
    let sc = {
        let svg = render_advance_routed_with_lanes(sample_json(), &pos, &[300.0, 150.0], 10.0, 20.0).unwrap();
        let start = svg.find("width=\"").unwrap() + 7;
        let end = svg[start..].find('"').unwrap() + start;
        svg[start..end].parse::<f64>().unwrap()
    };
    assert!((sc - 490.0).abs() < 1.0, "expected width ~490, got {}", sc);
}

#[test]
fn routed_with_lanes_rejects_wrong_width_count() {
    let d = AdvanceDiagram::parse(sample_json()).unwrap();
    let pos: Vec<f64> = d.nodes.iter().flat_map(|_| [0.0, 0.0]).collect();
    assert!(render_advance_routed_with_lanes(sample_json(), &pos, &[200.0], 24.0, 40.0).is_err());
}

#[test]
fn routed_with_lanes_rejects_non_positive_width() {
    let d = AdvanceDiagram::parse(sample_json()).unwrap();
    let pos: Vec<f64> = d.nodes.iter().flat_map(|_| [0.0, 0.0]).collect();
    assert!(render_advance_routed_with_lanes(sample_json(), &pos, &[200.0, -10.0], 24.0, 40.0).is_err());
    assert!(render_advance_routed_with_lanes(sample_json(), &pos, &[200.0, f64::NAN], 24.0, 40.0).is_err());
}

#[test]
fn routed_with_lanes_rejects_bad_margin_gap() {
    let d = AdvanceDiagram::parse(sample_json()).unwrap();
    let pos: Vec<f64> = d.nodes.iter().flat_map(|_| [0.0, 0.0]).collect();
    assert!(render_advance_routed_with_lanes(sample_json(), &pos, &[200.0, 200.0], -1.0, 40.0).is_err());
    assert!(render_advance_routed_with_lanes(sample_json(), &pos, &[200.0, 200.0], 24.0, -1.0).is_err());
}

fn base_positions(d: &AdvanceDiagram) -> Vec<f64> {
    let sc = layout(d);
    let mut pos = Vec::with_capacity(d.nodes.len() * 2);
    for n in &sc.nodes {
        pos.push(n.x);
        pos.push(n.y);
    }
    pos
}

#[test]
fn routed_shifts_content_dragged_above_or_left_of_canvas_into_view() {
    let d = AdvanceDiagram::parse(sample_json()).unwrap();
    let mut positions = base_positions(&d);
    positions[0] = -500.0;
    positions[1] = -800.0;
    let sc = layout_at(&d, &positions);
    let margin = px_back(num_px(&d.config.margin));
    assert!(sc.nodes.iter().all(|n| n.y - n.h / 2.0 >= margin - 1e-9));
    assert!(sc.nodes.iter().all(|n| n.x - n.w / 2.0 >= margin - 1e-9));
    assert!(sc.lanes.iter().all(|l| l.y >= margin - 1e-9 && l.x >= margin - 1e-9));
    assert!(sc.edges.iter().all(|e| e.points.iter().all(|p| p.1 >= margin - 1e-9)));
    let max_bottom = sc.nodes.iter().map(|n| n.y + n.h / 2.0).fold(0.0_f64, f64::max);
    assert!(sc.height >= max_bottom + margin - 1e-9);
}

fn text_diagram(src: &str) -> AdvanceDiagram {
    AdvanceDiagram::parse_text(src).unwrap()
}

fn node_lane<'a>(d: &'a AdvanceDiagram, id: &str) -> &'a str {
    d.nodes.iter().find(|n| n.id == id).unwrap().lane.as_str()
}

#[test]
fn text_parses_flat_lanes_and_edges() {
    let d = text_diagram(
        "swimlane horizontal\n\
         lane l1 \"Sales\"\n\
         \x20 a([Start])\n\
         \x20 b[Prepare]\n\
         lane l2 \"QA\"\n\
         \x20 c{Check}\n\
         \n\
         a --> b\n\
         b -->|done| c\n",
    );
    assert_eq!(d.direction, AdvanceDirection::Horizontal);
    assert_eq!(d.lanes.len(), 2);
    assert_eq!(d.lanes[0].title, "Sales");
    assert_eq!(d.nodes.len(), 3);
    assert_eq!(d.edges.len(), 2);
    assert_eq!(d.edges[1].label.as_deref(), Some("done"));
}

#[test]
fn text_nested_lane_blocks() {
    let d = text_diagram(
        "lane top \"Top\" {\n\
         \x20 a\n\
         \x20 lane sub \"Sub\" {\n\
         \x20   b\n\
         \x20 }\n\
         \x20 c\n\
         }\n\
         lane other \"Other\"\n\
         \x20 d\n",
    );
    assert_eq!(d.lanes.len(), 2);
    assert_eq!(d.lanes[0].id, "top");
    assert_eq!(d.lanes[0].children.len(), 1);
    assert_eq!(d.lanes[0].children[0].id, "sub");
    assert_eq!(d.lanes[0].children[0].children.len(), 0);
    assert_eq!(d.lanes[1].id, "other");
    assert_eq!(node_lane(&d, "a"), "top");
    assert_eq!(node_lane(&d, "b"), "sub");
    assert_eq!(node_lane(&d, "c"), "top");
    assert_eq!(node_lane(&d, "d"), "other");
}

#[test]
fn text_unbalanced_braces() {
    assert!(AdvanceDiagram::parse_text("lane a {\n  x\n}\n}").is_err());
    assert!(AdvanceDiagram::parse_text("lane a {\n  x\n").is_err());
    let err = AdvanceDiagram::parse_text("lane a {\n  x\n").unwrap_err();
    assert!(err.message.contains("never closed"));
}

#[test]
fn text_nested_sibling_order_preserved() {
    let d = text_diagram(
        "lane top \"Top\" {\n\
         \x20 lane a1 \"A1\" {\n\
         \x20   x\n\
         \x20 }\n\
         \x20 lane a2 \"A2\" {\n\
         \x20   y\n\
         \x20 }\n\
         }\n",
    );
    assert_eq!(d.lanes.len(), 1);
    let children: Vec<&str> = d.lanes[0].children.iter().map(|l| l.id.as_str()).collect();
    assert_eq!(children, vec!["a1", "a2"]);
    let sc = layout(&d);
    let x = |id: &str| {
        sc.lanes
            .iter()
            .find(|l| l.id == id)
            .map(|l| l.x)
            .unwrap_or(f64::NAN)
    };
    assert!(x("a1") < x("a2"), "a1 must render left of a2");
}

#[test]
fn text_node_after_closed_lane_errors() {
    let err = AdvanceDiagram::parse_text("lane top {\n  a\n}\nb\n").unwrap_err();
    assert!(err.message.contains("outside of any lane"));
}

#[test]
fn text_style_node() {
    let d = text_diagram(
        "lane l\n\
         \x20 a\n\
         style a fill:#fee,stroke:#900,stroke-width:3px\n",
    );
    let st = &d.nodes[0].style;
    assert_eq!(st.fill.as_deref(), Some("#fee"));
    assert_eq!(st.stroke.as_deref(), Some("#900"));
    assert_eq!(st.stroke_width, num("3"));
}

#[test]
fn text_stroke_width_rejects_bad_values() {
    assert!(AdvanceDiagram::parse_text("lane l\n  a\nstyle a stroke-width:nan\n").is_err());
    assert!(AdvanceDiagram::parse_text("lane l\n  a\nstyle a stroke-width:inf\n").is_err());
    assert!(AdvanceDiagram::parse_text("lane l\n  a\nstyle a stroke-width:0\n").is_err());
    assert!(AdvanceDiagram::parse_text("lane l\n  a\nstyle a stroke-width:-2\n").is_err());
    let d = text_diagram("lane l\n  a\nstyle a stroke-width:3px\n");
    assert_eq!(d.nodes[0].style.stroke_width, num("3"));
}

#[test]
fn text_style_edge() {
    let d = text_diagram(
        "lane l\n\
         \x20 a\n\
         \x20 b\n\
         a --> b\n\
         style a-->b color:#b00,dash:3 2\n",
    );
    let es = &d.edges[0].style;
    assert_eq!(es.color.as_deref(), Some("#b00"));
    assert_eq!(es.dash.as_deref(), Some("3 2"));
}

#[test]
fn text_class_def_resolved_after_usage() {
    let d = text_diagram(
        "lane l\n\
         \x20 a\n\
         class a warn\n\
         classDef warn fill:#fff3cd,stroke:#f0ad4e\n",
    );
    assert_eq!(d.nodes[0].style.fill.as_deref(), Some("#fff3cd"));
    assert_eq!(d.nodes[0].style.stroke.as_deref(), Some("#f0ad4e"));
}

#[test]
fn text_class_shorthand() {
    let d = text_diagram(
        "lane l\n\
         \x20 a::warn\n\
         classDef warn fill:#fff3cd\n",
    );
    assert_eq!(d.nodes[0].id, "a");
    assert_eq!(d.nodes[0].style.fill.as_deref(), Some("#fff3cd"));
}

#[test]
fn text_ports() {
    let d = text_diagram(
        "lane l\n\
         \x20 a\n\
         \x20 b\n\
         a:right --> b:top\n",
    );
    let e = &d.edges[0];
    assert_eq!(e.from_side, Some(AdvanceSide::Right));
    assert_eq!(e.to_side, Some(AdvanceSide::Top));
}

fn test_node(id: &str, x: f64, y: f64) -> Node {
    Node { id: id.to_string(), x, y, w: 60.0, h: 40.0, elements: Vec::new(), anchors: Vec::new() }
}

#[test]
fn ports_affect_anchor() {
    let d = text_diagram(
        "lane l\n\
         \x20 a\n\
         \x20 b\n\
         \x20 c\n\
         a:right --> b:left\n\
         a:bottom --> b:top\n\
         b --> c:left\n",
    );
    let sc = layout(&d);
    let node = |id: &str| sc.nodes.iter().find(|n| n.id == id).unwrap();
    let (a, b, c) = (node("a"), node("b"), node("c"));

    let e0 = &sc.edges[0];
    let p0 = e0.points[0];
    let p1 = e0.points[1];
    let last = *e0.points.last().unwrap();
    assert!((p0.0 - (a.x + a.w / 2.0)).abs() < 1e-6 && (p0.1 - a.y).abs() < 1e-6);
    assert!((p1.0 - (a.x + a.w / 2.0 + 18.0)).abs() < 1e-6 && (p1.1 - a.y).abs() < 1e-6);
    assert!((last.0 - (b.x - b.w / 2.0)).abs() < 1e-6 && (last.1 - b.y).abs() < 1e-6);

    let e1 = &sc.edges[1];
    let p0 = e1.points[0];
    let last = *e1.points.last().unwrap();
    assert!((p0.0 - a.x).abs() < 1e-6 && (p0.1 - (a.y + a.h / 2.0)).abs() < 1e-6);
    assert!((last.0 - b.x).abs() < 1e-6 && (last.1 - (b.y - b.h / 2.0)).abs() < 1e-6);

    let e2 = &sc.edges[2];
    let p0 = e2.points[0];
    let last = *e2.points.last().unwrap();
    assert!((p0.0 - b.x).abs() < 1e-6 && (p0.1 - (b.y + b.h / 2.0)).abs() < 1e-6);
    assert!((last.0 - (c.x - c.w / 2.0)).abs() < 1e-6 && (last.1 - c.y).abs() < 1e-6);
}

#[test]
fn label_avoids_node() {
    let nodes = vec![
        test_node("a", 100.0, 100.0),
        test_node("blocker", 108.0, 220.0),
        test_node("c", 100.0, 360.0),
    ];
    let points = vec![(100.0, 140.0), (100.0, 300.0), (300.0, 300.0), (300.0, 340.0)];
    let chosen = choose_label_pos(&label_candidates(&points), "XX", "a", "c", &nodes, &[]).unwrap();
    assert_eq!(chosen, (200.0, 300.0));
    let lb = label_box(chosen, "XX");
    assert!(!rects_overlap(&lb, &node_rect(&nodes[1])), "label overlaps blocker node");
}

#[test]
fn label_avoids_other_labels() {
    let nodes = vec![
        test_node("a", 100.0, 100.0),
        test_node("blocker", 108.0, 220.0),
        test_node("c", 100.0, 360.0),
    ];
    let first = vec![(100.0, 140.0), (100.0, 300.0), (300.0, 300.0), (300.0, 340.0)];
    let first_pos = choose_label_pos(&label_candidates(&first), "XX", "a", "c", &nodes, &[]).unwrap();
    assert_eq!(first_pos, (200.0, 300.0));
    let placed = vec![label_box(first_pos, "XX")];

    let second = vec![(192.0, 240.0), (192.0, 330.0), (320.0, 330.0), (320.0, 360.0)];
    let unconstrained = choose_label_pos(&label_candidates(&second), "YY", "d", "f", &nodes, &[]).unwrap();
    assert_eq!(unconstrained, (200.0, 285.0));
    let second_pos = choose_label_pos(&label_candidates(&second), "YY", "d", "f", &nodes, &placed).unwrap();
    assert_eq!(second_pos, (256.0, 330.0));
    assert!(!rects_overlap(&label_box(second_pos, "YY"), &placed[0]));
}

#[test]
fn per_node_style_renders() {
    let d = text_diagram(
        "lane l\n\
         \x20 a\n\
         \x20 b\n\
         a --> b\n\
         style a fill:#fee,stroke:#900,stroke-width:4,color:#fff\n",
    );
    let scene = layout(&d);
    let svg = to_svg(&scene);
    assert!(svg.contains(r##"fill="#fee" stroke="#900" stroke-width="4.0""##), "node body style");
    assert!(svg.contains(r##"fill="#fff">a</text>"##), "node label color");
    assert!(svg.contains(r##"fill="#fafafa""##) || svg.contains(r##"fill="#ffffff""##));
}

#[test]
fn per_edge_color_renders_with_matching_marker() {
    let d = text_diagram(
        "lane l\n\
         \x20 a\n\
         \x20 b\n\
         \x20 c\n\
         a --> b\n\
         b -->|via| c\n\
         style b-->c color:#f00,dash:3 2,stroke-width:2,label-fill:#eee\n",
    );
    let scene = layout(&d);
    let svg = to_svg(&scene);

    let f00_idx = svg.find(r##"fill="#f00"/></marker>"##).expect("no #f00 marker");
    let id_start = svg[..f00_idx].rfind(r#"id=""#).expect("no marker id") + 4;
    let id_end = svg[id_start..f00_idx].find('"').expect("unterminated marker id") + id_start;
    let f00_id = &svg[id_start..id_end];

    let red_start = svg.find(r##"stroke="#f00""##).expect("no red edge path");
    let path_start = svg[..red_start].rfind("<path").expect("no path element");
    let path_end = svg[path_start..].find("/>").expect("unterminated path") + path_start;
    let red_path = &svg[path_start..path_end];
    assert!(red_path.contains("stroke-width=\"2.0\""));
    assert!(red_path.contains("stroke-dasharray=\"3 2\""));
    assert!(red_path.contains(&format!("marker-end=\"url(#{})\"", f00_id)));

    assert!(svg.contains(r##"fill="#eee""##));
}

#[test]
fn hit_test_node_edge_lane() {
    let d = text_diagram(
        "lane l\n\
         \x20 a\n\
         \x20 b\n\
         a --> b\n",
    );
    let sc = layout(&d);
    let a = sc.nodes.iter().position(|n| n.id == "a").unwrap();

    assert_eq!(
        sc.hit_test(sc.nodes[a].x, sc.nodes[a].y, 5.0),
        Some(AdvanceHit::Node(a))
    );

    let e = &sc.edges[0];
    let mid = {
        let mut best = None;
        for w in e.points.windows(2) {
            if (w[0].0 - w[1].0).abs() < f64::EPSILON {
                let len = (w[1].1 - w[0].1).abs();
                if best.map(|(_, _, l)| len > l).unwrap_or(true) {
                    best = Some((w[0].0, (w[0].1 + w[1].1) / 2.0, len));
                }
            }
        }
        best.unwrap()
    };
    assert_eq!(sc.edge_at(mid.0, mid.1, 5.0), Some(0));
    assert_eq!(sc.hit_test(mid.0, mid.1, 5.0), Some(AdvanceHit::Edge(0)));

    let (lx, ly) = (sc.lanes[0].x + 2.0, sc.lanes[0].y + 2.0);
    assert_eq!(sc.lane_at(lx, ly), Some(0));
    assert_eq!(sc.hit_test(lx, ly, 5.0), Some(AdvanceHit::Lane(0)));

    let d2 = text_diagram("lane l\n  d{Check}\n");
    let sc2 = layout(&d2);
    let nd = &sc2.nodes[0];
    let corner = (nd.x + nd.w / 2.0 - 1.0, nd.y + nd.h / 2.0 - 1.0);
    assert_eq!(sc2.node_at(corner.0, corner.1), None);
    assert_eq!(sc2.node_at(nd.x, nd.y), Some(0));
}

#[test]
fn nearest_node_distance() {
    let d = text_diagram("lane l\n  a\n  b\n");
    let sc = layout(&d);
    let a = sc.nodes.iter().position(|n| n.id == "a").unwrap();
    let b = sc.nodes.iter().position(|n| n.id == "b").unwrap();

    let (i, dist) = sc.nearest_node(sc.nodes[a].x, sc.nodes[a].y).unwrap();
    assert_eq!(i, a);
    assert!(dist < 1e-9);

    let far_x = sc.nodes[a].x + sc.nodes[a].w / 2.0 + 50.0;
    let (i, dist) = sc.nearest_node(far_x, sc.nodes[a].y).unwrap();
    assert_eq!(i, a);
    assert!(dist > 40.0);

    assert_eq!(sc.node_at(sc.nodes[b].x, sc.nodes[b].y), Some(b));
}

#[test]
fn text_config() {
    let d = text_diagram(
        "lane l\n\
         \x20 a\n\
         config margin 42\n\
         config lane_gap 60\n\
         config order topology\n",
    );
    assert_eq!(d.config.margin, Num::of("42"));
    assert_eq!(d.config.lane_gap, Num::of("60"));
    assert_eq!(d.config.order, AdvanceOrder::Topology);
}

#[test]
fn text_breaks() {
    let d = text_diagram(
        "lane l \"My<br/>Lane\"\n\
         \x20 a[Line1<br/>Line2]\n\
         \x20 b\n\
         a -->|go<br/>now| b\n",
    );
    assert_eq!(d.lanes[0].title, "My\nLane");
    assert_eq!(d.nodes[0].label, "Line1\nLine2");
    assert_eq!(d.edges[0].label.as_deref(), Some("go\nnow"));
}

#[test]
fn text_error_has_snippet() {
    let err = AdvanceDiagram::parse_text("lane l\n  a --> b\n").unwrap_err();
    assert!(err.message.contains("line 2"));
    assert!(err.message.contains("a --> b"));
}

#[test]
fn node_and_edge_style_json_roundtrip() {
    let src = r##"{
        "lanes":[{"id":"l"}],
        "nodes":[
            {"id":"a","label":"A","lane":"l","style":{"fill":"#fee","stroke":"#900","color":"#fff","stroke-width":2.0}},
            {"id":"b","label":"B","lane":"l"}
        ],
        "edges":[
            {"from":"a","to":"b","style":{"color":"#b00","dash":"3,2","stroke-width":2.5,"label-fill":"#eee"},"from_side":"right","to_side":"top"}
        ]
    }"##;
    let d = AdvanceDiagram::parse(src).unwrap();
    assert_eq!(d.nodes[0].style.fill.as_deref(), Some("#fee"));
    assert_eq!(d.nodes[0].style.stroke_width, num("2"));
    assert!(d.nodes[1].style == NodeStyle::default());
    let e = &d.edges[0];
    assert_eq!(e.style.color.as_deref(), Some("#b00"));
    assert_eq!(e.style.dash.as_deref(), Some("3,2"));
    assert_eq!(e.style.stroke_width, num("2.5"));
    assert_eq!(e.style.label_fill.as_deref(), Some("#eee"));
    assert_eq!(e.from_side, Some(AdvanceSide::Right));
    assert_eq!(e.to_side, Some(AdvanceSide::Top));
    let d2 = AdvanceDiagram::parse(&to_json(&d)).unwrap();
    assert_eq!(d2.nodes, d.nodes);
    assert_eq!(d2.edges, d.edges);
}

#[test]
fn side_parse_validates() {
    let json_str = |s: &str| parse_json(s).unwrap();
    assert_eq!(parse_side_json(&json_str("\"auto\"")).unwrap(), None);
    assert_eq!(
        parse_side_json(&json_str("\"top\"")).unwrap(),
        Some(AdvanceSide::Top)
    );
    assert!(parse_side_json(&json_str("\"north\"")).is_err());
    assert!(parse_side_json(&json_str("42")).is_err());
}

#[test]
fn px_number_accepts_strings() {
    let json_str = |s: &str| parse_json(s).unwrap();
    assert_eq!(px_number(&json_str("4")).unwrap(), Num::of("4"));
    assert_eq!(px_number(&json_str("\"4px\"")).unwrap(), Num::of("4"));
    assert!(px_number(&json_str("\"wide\"")).is_err());
}

#[test]
fn style_values_cannot_close_an_svg_attribute() {
    let breakout = |svg: &str| svg.contains("\" onload") || svg.contains("' onload");

    let text_node = "lane l \"L\"\na[A]\nstyle a fill:x\" onload=1\n";
    assert!(!breakout(&render_advance_text_svg(text_node).unwrap()));
    let text_edge = "lane l \"L\"\na[A]\nb[B]\na --> b\nstyle a-->b color:x' onload=1,dash:y\" onload=1\n";
    assert!(!breakout(&render_advance_text_svg(text_edge).unwrap()));

    for key in [
        "lane_fill",
        "lane_stroke",
        "text_color",
        "edge_color",
        "label_fill",
    ] {
        let json = format!(
            r##"{{"lanes":[{{"id":"l","title":"L"}}],
               "nodes":[{{"id":"a","lane":"l","label":"A"}},{{"id":"b","lane":"l","label":"B"}}],
               "edges":[{{"from":"a","to":"b","label":"e"}}],
               "style":{{"{key}":"#fff\" onload=1"}}}}"##
        );
        let svg = render_advance_svg(&json).unwrap();
        assert!(!breakout(&svg), "style.{key} escaped its attribute:\n{svg}");
        assert!(
            svg.contains("#fff&quot; onload=1"),
            "style.{key} never reached the SVG — is the key still read?\n{svg}"
        );
    }

    let node_json = r#"{"lanes":[{"id":"l","title":"L"}],
        "nodes":[{"id":"a","lane":"l","label":"A","style":{"fill":"x\" onload=1"}}],
        "edges":[]}"#;
    assert!(!breakout(&render_advance_svg(node_json).unwrap()));
}

#[test]
fn ordinary_advance_css_values_still_parse() {
    let svg =
        render_advance_text_svg("lane l \"L\"\na[A]\nstyle a fill:rgb(1, 2, 3)\n").unwrap();
    assert!(svg.contains("fill=\"rgb(1, 2, 3)\""), "{svg}");
}

const TERMINALS: &str = "lane hw \"HW\" {\n\
    \x20 cpu[CPU] {\n\
    \x20   anchor out bottom 0.5\n\
    \x20   core0[Core 0]\n\
    \x20   core1[Core 1] { anchor irq right }\n\
    \x20 }\n\
    \x20 mem[Memory] {\n\
    \x20   bank0[Bank 0]\n\
    \x20   bank1[Bank 1]\n\
    \x20   layout row\n\
    \x20 }\n\
    }\n\
    lane sw \"SW\" {\n\
    \x20 bus[Bus]\n\
    }\n\
    cpu.core1@irq --> mem.bank0\n\
    cpu@out --> bus:top\n\
    cpu.core0 -->|dma| mem.bank1\n";

fn scene_node_by<'a>(sc: &'a Picture, id: &str) -> &'a Node {
    sc.nodes.iter().find(|n| n.id == id).expect(id)
}

fn inside_strict(p: (f64, f64), n: &Node) -> bool {
    (p.0 - n.x).abs() < n.w / 2.0 - 0.5 && (p.1 - n.y).abs() < n.h / 2.0 - 0.5
}

#[test]
fn parse_end_reads_every_form_of_the_grammar() {
    let e = end("a").unwrap();
    assert_eq!((e.node.as_str(), e.path.len(), e.at.is_none()), ("a", 0, true));
    let e = end("a:right").unwrap();
    assert_eq!(e.at, Some(AnchorRef::Side(AdvanceSide::Right)));
    let e = end("a@out").unwrap();
    assert_eq!(e.at, Some(AnchorRef::Named("out".into())));
    let e = end("a.b.c@p").unwrap();
    assert_eq!(e.path, vec!["b".to_string(), "c".to_string()]);
    assert_eq!(e.at, Some(AnchorRef::Named("p".into())));
    let e = end("a.b:left").unwrap();
    assert_eq!((e.path.len(), e.at), (1, Some(AnchorRef::Side(AdvanceSide::Left))));
    assert_eq!(end("a.b.c@p").unwrap().to_ref(), "a.b.c@p");
    assert_eq!(end("a:top").unwrap().to_ref(), "a:top");
    let e = end("a:foo").unwrap();
    assert_eq!((e.node.as_str(), e.at.is_none()), ("a:foo", true));
    assert!(end("a.").is_err());
    assert!(end("a@").is_err());
    assert!(end("a@x.y").is_err());
}

#[test]
fn text_node_block_declares_anchors_and_sub_elements() {
    let d = text_diagram(TERMINALS);
    let cpu = d.nodes.iter().find(|n| n.id == "cpu").unwrap();
    assert_eq!(cpu.anchors.len(), 1);
    assert_eq!((cpu.anchors[0].id.as_str(), cpu.anchors[0].side, cpu.anchors[0].offset.clone()),
               ("out", AdvanceSide::Bottom, Num::of("0.5")));
    assert_eq!(cpu.elements.iter().map(|e| e.id.as_str()).collect::<Vec<_>>(), ["core0", "core1"]);
    assert_eq!(cpu.elements[1].anchors[0].id, "irq");
    assert_eq!(cpu.elements[1].anchors[0].side, AdvanceSide::Right);
    let mem = d.nodes.iter().find(|n| n.id == "mem").unwrap();
    assert_eq!(mem.layout, ElementLayout::Row);
    assert_eq!(d.edges[0].from_end.to_ref(), "cpu.core1@irq");
    assert_eq!(d.edges[0].from_side, Some(AdvanceSide::Right));
    assert_eq!(d.edges[1].to_end.to_ref(), "bus:top");
    assert_eq!(d.edges[2].from_end.path, vec!["core0".to_string()]);
    assert_eq!(d.edges[2].label.as_deref(), Some("dma"));
    assert_eq!(node_lane(&d, "mem"), "hw");
}

#[test]
fn text_block_mistakes_are_named_with_a_line_number() {
    let err = |src: &str| AdvanceDiagram::parse_text(src).unwrap_err().message;
    let e = err("lane l \"L\"\na[A] {\n  p[P]\n");
    assert!(e.contains("line 2") && e.contains("never closed"), "{e}");
    let e = err("lane l \"L\"\na[A] {\n  p --> q\n}\n");
    assert!(e.contains("line 3") && e.contains("not allowed inside"), "{e}");
    let e = err("lane l \"L\"\na[A] { p[P]; q[Q]; r[R] }\nb[B]\na.q:top --> b\n");
    assert!(e.contains("line 4") && e.contains("not an exposed side"), "{e}");
    let e = err("lane l \"L\"\na.b[X]\n");
    assert!(e.contains("may not contain '.'"), "{e}");
    let e = err("lane l \"L\"\na[A] { anchor x left }\nb[B]\na@nope --> b\n");
    assert!(e.contains("has no anchor 'nope'"), "{e}");
    let e = err("lane l \"L\"\na[A] { anchor x left 1.5 }\n");
    assert!(e.contains("0..=1"), "{e}");
    let e = err("lane l \"L\"\na[A]\nb[B]\na.zz --> b\n");
    assert!(e.contains("no sub-element 'zz'"), "{e}");
}

#[test]
fn exposed_side_rule_follows_the_layout() {
    let ok = |src: &str| AdvanceDiagram::parse_text(src).is_ok();
    let base = "lane l \"L\"\na[A] { p[P]; q[Q]; r[R] }\nb[B]\n";
    assert!(ok(&format!("{base}a.q:left --> b\n")));
    assert!(ok(&format!("{base}a.p:top --> b\n")));
    assert!(ok(&format!("{base}a.r:bottom --> b\n")));
    assert!(!ok(&format!("{base}a.p:bottom --> b\n")));
    assert!(!ok(&format!("{base}a.r:top --> b\n")));
    let row = "lane l \"L\"\na[A] { p[P]; q[Q]; r[R]; layout row }\nb[B]\n";
    assert!(ok(&format!("{row}a.q:top --> b\n")));
    assert!(!ok(&format!("{row}a.q:left --> b\n")));
    assert!(ok(&format!("{row}a.r:right --> b\n")));
    let nest = "lane l \"L\"\na[A] { p[P] { x[X]; y[Y] }; q[Q] }\nb[B]\n";
    assert!(ok(&format!("{nest}a.p.x:top --> b\n")));
    assert!(!ok(&format!("{nest}a.p.y:bottom --> b\n")), "p is not last, so y's bottom is interior");
}

#[test]
fn json_terminals_round_trip_through_to_json() {
    let d = text_diagram(TERMINALS);
    let json = to_json(&d);
    assert!(json.contains("\"anchors\":[{\"id\":\"out\",\"side\":\"bottom\",\"offset\":0.5}]"), "{json}");
    assert!(json.contains("\"elements\":["), "{json}");
    assert!(json.contains("\"layout\":\"row\""), "{json}");
    assert!(json.contains("\"from\":\"cpu.core1@irq\""), "{json}");
    let back = AdvanceDiagram::parse(&json).unwrap();
    assert_eq!(back.nodes, d.nodes);
    assert_eq!(back.edges, d.edges);
    let plain = text_diagram("lane l \"L\"\na[A]\nb[B]\na:right --> b:top\n");
    let j = to_json(&plain);
    assert!(j.contains("\"from\":\"a\",\"to\":\"b\"") && j.contains("\"from_side\":\"right\""), "{j}");
    assert!(!j.contains("anchors") && !j.contains("elements"), "{j}");
}

#[test]
fn json_input_accepts_terminals_and_checks_them() {
    let src = r#"{"lanes":[{"id":"l","title":"L"}],
        "nodes":[{"id":"a","lane":"l","label":"A","layout":"row",
                  "anchors":[{"id":"o","side":"top","offset":0.25}],
                  "elements":[{"id":"p","label":"P","anchors":[{"id":"q","side":"bottom"}]},{"id":"r"}]},
                 {"id":"b","lane":"l"}],
        "edges":[{"from":"a.p@q","to":"b","from_side":"left"},{"from":"a@o","to":"b:top"}]}"#;
    let d = AdvanceDiagram::parse(src).unwrap();
    assert_eq!(d.nodes[0].layout, ElementLayout::Row);
    assert_eq!(d.nodes[0].elements[1].label, "r");
    assert_eq!(d.edges[0].from_side, Some(AdvanceSide::Bottom));
    assert_eq!(d.edges[1].to_side, Some(AdvanceSide::Top));
    let bad = src.replace("\"from\":\"a.p@q\"", "\"from\":\"a.p@zz\"");
    assert!(AdvanceDiagram::parse(&bad).unwrap_err().message.contains("no anchor 'zz'"));
    let bad = src.replace("\"id\":\"p\"", "\"id\":\"p.x\"");
    assert!(AdvanceDiagram::parse(&bad).unwrap_err().message.contains("may not contain '.'"));
}

#[test]
fn layout_places_sub_elements_inside_a_node_that_grew_to_fit() {
    let sc = layout(&text_diagram(TERMINALS));
    let cpu = scene_node_by(&sc, "cpu");
    assert_eq!(cpu.elements.len(), 2);
    for el in &cpu.elements {
        assert!(el.x - el.w / 2.0 >= cpu.x - cpu.w / 2.0 && el.x + el.w / 2.0 <= cpu.x + cpu.w / 2.0, "{} overflows x", el.id);
        assert!(el.y - el.h / 2.0 >= cpu.y - cpu.h / 2.0 && el.y + el.h / 2.0 <= cpu.y + cpu.h / 2.0, "{} overflows y", el.id);
    }
    assert!(cpu.elements[1].y > cpu.elements[0].y && (cpu.elements[1].w - cpu.elements[0].w).abs() < 1e-9);
    let mem = scene_node_by(&sc, "mem");
    assert!(mem.elements[1].x > mem.elements[0].x && (mem.elements[1].y - mem.elements[0].y).abs() < 1e-9);
    let plain = layout(&text_diagram("lane l \"L\"\ncpu[CPU]\n"));
    assert!(cpu.h > scene_node_by(&plain, "cpu").h);
    let out = cpu.anchors.iter().find(|a| a.id == "out").unwrap();
    assert!((out.y - (cpu.y + cpu.h / 2.0)).abs() < 1e-9 && out.element.is_none());
    let irq = cpu.anchors.iter().find(|a| a.id == "irq").unwrap();
    let core1 = &cpu.elements[irq.element.unwrap()];
    assert_eq!(core1.id, "core1");
    assert!((irq.x - (core1.x + core1.w / 2.0)).abs() < 1e-9);
}

#[test]
fn a_terminal_edge_starts_on_its_element_and_leads_out_through_the_node() {
    let sc = layout(&text_diagram(TERMINALS));
    let cpu = scene_node_by(&sc, "cpu");
    let e = &sc.edges[0];
    let irq = cpu.anchors.iter().find(|a| a.id == "irq").unwrap();
    assert!((e.from_point.0 - irq.x).abs() < 1e-9 && (e.from_point.1 - irq.y).abs() < 1e-9);
    assert_eq!(e.points[0], e.from_point);
    assert!((e.points[1].1 - irq.y).abs() < 1e-9);
    assert!((e.points[1].0 - (cpu.x + cpu.w / 2.0)).abs() < 1e-9);
    let mem = scene_node_by(&sc, "mem");
    let bank0 = &mem.elements[0];
    let tp = e.to_point;
    let on_edge = (tp.0 - (bank0.x - bank0.w / 2.0)).abs() < 1e-9
        || (tp.0 - (bank0.x + bank0.w / 2.0)).abs() < 1e-9
        || (tp.1 - (bank0.y - bank0.h / 2.0)).abs() < 1e-9
        || (tp.1 - (bank0.y + bank0.h / 2.0)).abs() < 1e-9;
    assert!(on_edge, "to_point {:?} is not on bank0's boundary", tp);
    assert_eq!(e.from_end.to_ref(), "cpu.core1@irq");
    assert_eq!(e.to_end.to_ref(), "mem.bank0");
    for w in e.points.windows(2) {
        assert!((w[0].0 - w[1].0).abs() < 1e-9 || (w[0].1 - w[1].1).abs() < 1e-9, "diagonal segment");
    }
}

#[test]
fn a_ported_edge_never_runs_back_through_its_own_nodes() {
    let sc = layout(&text_diagram(
        "lane backend \"B\" {\n  b[API Gateway]\n}\nlane frontend \"F\" {\n  d[Dashboard]\n}\nd:right --> b:top\n",
    ));
    let (b, d) = (scene_node_by(&sc, "b"), scene_node_by(&sc, "d"));
    let e = &sc.edges[0];
    for w in e.points.windows(2) {
        for t in [0.25, 0.5, 0.75] {
            let p = (w[0].0 + (w[1].0 - w[0].0) * t, w[0].1 + (w[1].1 - w[0].1) * t);
            assert!(!inside_strict(p, b) && !inside_strict(p, d), "segment {:?}-{:?} crosses a node", w[0], w[1]);
        }
    }
    assert!(e.points[1].0 > e.points[0].0);
    let last = e.points.len() - 1;
    assert!(e.points[last - 1].1 < e.points[last].1);
}

#[test]
fn a_ported_edge_that_was_already_clear_is_unchanged() {
    let sc = layout(&text_diagram("lane L \"L\"\na[A]\nlane R \"R\"\nc[C]\na:right --> c:left\n"));
    let e = &sc.edges[0];
    assert!(e.points.iter().all(|p| (p.1 - e.points[0].1).abs() < 1e-9), "{:?}", e.points);
    assert!(e.points.len() <= 4, "{:?}", e.points);
}

#[test]
fn scene_json_carries_elements_anchors_and_terminal_points() {
    let sc = layout(&text_diagram(TERMINALS));
    let j = scene_to_json(&sc);
    assert!(j.contains("\"elements\":[{\"id\":\"core0\""), "{j}");
    assert!(j.contains("\"path\":[\"core0\"]"), "{j}");
    assert!(j.contains("\"anchors\":[") && j.contains("\"id\":\"irq\"") && j.contains("\"element\":1"), "{j}");
    assert!(j.contains("\"from_point\":[") && j.contains("\"from_end\":\"cpu.core1@irq\""), "{j}");
    let plain = scene_to_json(&layout(&text_diagram("lane l \"L\"\na[A]\nb[B]\na --> b\n")));
    assert!(plain.contains("\"from_point\":[") && !plain.contains("from_end") && !plain.contains("elements"), "{plain}");
}

#[test]
fn hit_test_prefers_anchor_then_element_then_node() {
    let sc = layout(&text_diagram(TERMINALS));
    let ni = sc.nodes.iter().position(|n| n.id == "cpu").unwrap();
    let cpu = &sc.nodes[ni];
    let irq = cpu.anchors.iter().position(|a| a.id == "irq").unwrap();
    let a = &cpu.anchors[irq];
    assert_eq!(sc.hit_test(a.x + 1.0, a.y - 1.0, 4.0), Some(AdvanceHit::Anchor(ni, irq)));
    assert_eq!(sc.anchor_at(a.x, a.y, 0.1), Some((ni, irq)));
    let core0 = &cpu.elements[0];
    assert_eq!(sc.hit_test(core0.x, core0.y, 0.5), Some(AdvanceHit::Element(ni, 0)));
    assert_eq!(sc.element_at(core0.x, core0.y), Some((ni, 0)));
    assert_eq!(sc.hit_test(cpu.x, cpu.y - cpu.h / 2.0 + 10.0, 0.5), Some(AdvanceHit::Node(ni)));
    assert_eq!(sc.element_at(cpu.x, cpu.y - cpu.h / 2.0 + 10.0), None);
}

#[test]
fn svg_draws_compartments_with_their_labels() {
    let svg = to_svg(&layout(&text_diagram(TERMINALS)));
    assert_eq!(svg.matches("rx=\"4\"").count(), 4, "{svg}");
    for l in ["CPU", "Core 0", "Core 1", "Memory", "Bank 0", "Bank 1", "Bus", "dma"] {
        assert!(svg.contains(&format!(">{l}<")), "missing label {l}");
    }
    let styled = r#"{"lanes":[{"id":"l","title":"L"}],
        "nodes":[{"id":"a","lane":"l","elements":[{"id":"p","style":{"fill":"x\" onload=1"}}]}],"edges":[]}"#;
    let svg = render_advance_svg(styled).unwrap();
    assert!(!svg.contains("\" onload"), "{svg}");
}

#[test]
fn inline_block_and_multi_line_block_parse_the_same() {
    let a = text_diagram("lane l \"L\"\na[A] { anchor o left; p[P]; q[Q]; layout row }\n");
    let b = text_diagram("lane l \"L\"\na[A] {\n  anchor o left\n  p[P]\n  q[Q]\n  layout row\n}\n");
    assert_eq!(a.nodes, b.nodes);
    let d = text_diagram("lane l \"L\"\nc{Check}\n");
    assert_eq!(d.nodes[0].shape, Shape::Diamond);
    assert!(d.nodes[0].elements.is_empty());
}
