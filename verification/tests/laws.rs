//! What holds of whole diagrams, on concrete ones.

use flowmaid::advance::hit::AdvanceHit;
use flowmaid::advance::place::sequence::emission_order;
use flowmaid::advance::read_json::px_number;
use flowmaid::advance::render::{
    layout_advance, place, render_advance_routed, render_advance_routed_with_lanes,
    render_advance_svg,
};
use flowmaid::advance::scene::{AdvanceScene, AdvanceSceneLane, Point, Px};
use flowmaid::advance::scene_json::scene_to_json;
use flowmaid::advance::svg::MarkerCounter;
use flowmaid::advance::svg_node::{ShapeStyle, Theme};
use flowmaid::advance::write_json::to_json;
use flowmaid::advance::AdvanceDiagram;
use flowmaid::json::{as_array, as_object, as_str, obj_get, parse_json, JsonValue};
use flowmaid::layout::compact::GAP_B;
use flowmaid::layout::engine::layout_sized;
use flowmaid::model::{Direction, Edge, EdgeKind, Graph, Node, NodeStyle, Shape};
use flowmaid::wide::Wide;

fn px(v: Px) -> Px {
    v * 64000
}

fn theme() -> Theme {
    Theme {
        shapes: Vec::new(),
        other: ShapeStyle { fill: "#ffffff".to_string(), stroke: "#44507a".to_string() },
    }
}

const TWO_LANES: &str = r#"{
  "lanes": [{"id": "left"}, {"id": "right"}],
  "nodes": [
    {"id": "q", "lane": "right", "label": "queue"},
    {"id": "p", "lane": "left", "label": "press"}
  ],
  "edges": [{"from": "p", "to": "q", "label": "go"}]
}"#;

const NESTED: &str = r#"{
  "direction": "DIRECTION",
  "lanes": [
    {"id": "outer", "children": [{"id": "one"}, {"id": "two", "children": [{"id": "deep"}]}]},
    {"id": "other"}
  ],
  "nodes": [
    {"id": "a", "lane": "one"}, {"id": "b", "lane": "one"}, {"id": "c", "lane": "deep"},
    {"id": "d", "lane": "outer"}, {"id": "e", "lane": "other", "w": 300, "h": 90},
    {"id": "f", "lane": "two"}
  ],
  "edges": [{"from": "a", "to": "b"}, {"from": "b", "to": "e"}, {"from": "c", "to": "f"}]
}"#;

/// The place of a label in a picture.
fn text_at(svg: &str, label: &str) -> (f64, f64) {
    let end = svg.find(&format!(">{label}</text>")).unwrap();
    let tag = &svg[svg[..end].rfind("<text").unwrap()..end];
    (number_after(tag, " x=\""), number_after(tag, " y=\""))
}

fn number_after(tag: &str, key: &str) -> f64 {
    let rest = &tag[tag.find(key).unwrap() + key.len()..];
    rest[..rest.find('"').unwrap()].parse().unwrap()
}

#[test]
fn given_places_go_to_the_nodes_as_they_are_listed() {
    let d = AdvanceDiagram::parse(TWO_LANES).unwrap();
    let sc = layout_advance(TWO_LANES).unwrap();
    assert_eq!(emission_order(&d), vec![1, 0]);
    let ids: Vec<&str> = sc.nodes.iter().map(|n| n.id.as_str()).collect();
    assert_eq!(ids, vec!["p", "q"]);
    let places = vec![Some(px(100)), Some(px(200)), Some(px(400)), Some(px(230))];
    let svg = render_advance_routed(TWO_LANES, &places, &theme(), &mut MarkerCounter::default())
        .unwrap();
    let (p, q) = (text_at(&svg, "press"), text_at(&svg, "queue"));
    assert_eq!((q.0 - p.0, q.1 - p.1), (300.0, 30.0));
    let wide = vec![Some(px(200)), Some(px(260))];
    let svg = render_advance_routed_with_lanes(
        TWO_LANES,
        &places,
        &wide,
        Some(px(10)),
        Some(px(20)),
        &theme(),
        &mut MarkerCounter::default(),
    )
    .unwrap();
    let (p, q) = (text_at(&svg, "press"), text_at(&svg, "queue"));
    assert_eq!((q.0 - p.0, q.1 - p.1), (300.0, 30.0));
}

#[test]
fn every_node_is_listed_once() {
    let d = AdvanceDiagram::parse(&NESTED.replace("DIRECTION", "vertical")).unwrap();
    let sc = place(&d);
    let order = emission_order(&d);
    let listed: Vec<&str> = order.iter().map(|i| d.nodes[*i].id.as_str()).collect();
    let placed: Vec<&str> = sc.nodes.iter().map(|n| n.id.as_str()).collect();
    assert_eq!(listed, placed);
    let mut sorted = order.clone();
    sorted.sort();
    assert_eq!(sorted, vec![0, 1, 2, 3, 4, 5]);
}

#[test]
fn stroke_widths_are_positive_and_finite() {
    for text in ["\"-2px\"", "\"inf\"", "\"NaN\"", "\"0px\"", "-1"] {
        let err = px_number(&parse_json(text).unwrap()).unwrap_err();
        assert_eq!(err, "stroke-width must be a positive finite number");
    }
    assert_eq!(px_number(&parse_json("\" 2.5px\"").unwrap()).unwrap().text, "2.5");
}

fn lane<'a>(sc: &'a AdvanceScene, id: &str) -> &'a AdvanceSceneLane {
    sc.lanes.iter().find(|l| l.id == id).unwrap()
}

fn inside(a: &AdvanceSceneLane, b: &AdvanceSceneLane) -> bool {
    b.x <= a.x && a.x + a.w <= b.x + b.w && b.y <= a.y && a.y + a.h <= b.y + b.h
}

#[test]
fn nodes_stay_in_their_lanes() {
    for direction in ["vertical", "horizontal"] {
        let text = NESTED.replace("DIRECTION", direction);
        let d = AdvanceDiagram::parse(&text).unwrap();
        let mut even = AdvanceDiagram::parse(&text).unwrap();
        even.config.lane_gap = even.config.node_gap_y.clone();
        for sc in [place(&d), place(&even)] {
            for n in &sc.nodes {
                let l = lane(&sc, &n.lane);
                assert!(l.x <= n.x - n.w / 2 && n.x + n.w / 2 <= l.x + l.w, "{}", n.id);
                assert!(l.y <= n.y - n.h / 2 && n.y + n.h / 2 <= l.y + l.h, "{}", n.id);
            }
            assert!(inside(lane(&sc, "one"), lane(&sc, "outer")));
            assert!(inside(lane(&sc, "two"), lane(&sc, "outer")));
            assert!(inside(lane(&sc, "deep"), lane(&sc, "two")));
            let (a, b) = (lane(&sc, "outer"), lane(&sc, "other"));
            if direction == "vertical" {
                assert!(a.x + a.w < b.x);
            } else {
                assert!(a.y + a.h < b.y);
            }
        }
    }
}

fn graph(n: usize, edges: &[(usize, usize)]) -> Graph {
    Graph {
        direction: Direction::TD,
        nodes: (0..n)
            .map(|i| Node {
                id: format!("n{i}"),
                label: format!("n{i}"),
                shape: Shape::Rect,
                style: NodeStyle { fill: None, stroke: None, stroke_width: None, color: None },
            })
            .collect(),
        edges: edges
            .iter()
            .map(|&(from, to)| Edge { from, to, label: None, kind: EdgeKind::Arrow })
            .collect(),
        subgraphs: vec![],
        sub_edges: vec![],
    }
}

#[test]
fn nodes_of_a_layer_do_not_overlap() {
    let g = graph(
        9,
        &[(0, 1), (0, 2), (0, 3), (1, 4), (2, 4), (3, 5), (0, 6), (1, 6), (6, 7), (5, 8), (2, 8), (0, 8)],
    );
    let sizes: Vec<(Px, Px)> = (0..9).map(|i| (px(30 + 37 * (i % 4)), px(20 + 5 * i))).collect();
    let r = layout_sized(&g, &sizes);
    for i in 0..9 {
        for j in 0..i {
            let (a, b) = (r.nodes[i], r.nodes[j]);
            if a.layer == b.layer {
                let far = (a.b - b.b).abs();
                assert!(a.bsize / 2 + GAP_B + b.bsize / 2 <= far, "{i} and {j}");
            }
        }
    }
}

#[test]
fn labels_stay_where_routing_put_them() {
    let source = r#"{
      "lanes": [{"id": "l"}],
      "nodes": [
        {"id": "a", "lane": "l", "x": -400, "y": -300},
        {"id": "b", "lane": "l", "x": -400, "y": 200}
      ],
      "edges": [{"from": "a", "to": "b", "label": "falls"}]
    }"#;
    let sc = layout_advance(source).unwrap();
    let e = &sc.edges[0];
    let at = e.label_pos.unwrap();
    assert!(px(-400) <= at.x && at.x < 0);
    assert!(px(-300) < at.y && at.y < px(200));
    assert!(e.points.iter().all(|p| p.x > 0 && p.y > 0));
}

fn moved(sc: &AdvanceScene, by: Px) -> AdvanceScene {
    let mut sc = sc.clone();
    for l in sc.lanes.iter_mut() {
        l.x += by;
        l.y -= by;
    }
    for n in sc.nodes.iter_mut() {
        n.x += by;
        n.y -= by;
    }
    for e in sc.edges.iter_mut() {
        for p in e.points.iter_mut() {
            *p = Point { x: p.x + by, y: p.y - by };
        }
    }
    sc
}

#[test]
fn far_scenes_are_hit_like_near_ones() {
    let near = place(&AdvanceDiagram::parse(TWO_LANES).unwrap());
    let by: Px = 1 << 62;
    let far = moved(&near, by);
    for (x, y) in [(0, 0), (60, 60), (90, 90), (150, 100), (200, 90), (250, 120), (320, 90)] {
        let (x, y) = (px(x), px(y));
        let (fx, fy) = (x + by, y - by);
        assert_eq!(near.hit_test(x, y, px(5)), far.hit_test(fx, fy, px(5)));
        assert_eq!(near.edge_at(x, y, px(200)), far.edge_at(fx, fy, px(200)));
        assert_eq!(near.lane_at(x, y), far.lane_at(fx, fy));
        assert_eq!(near.nearest_node(x, y), far.nearest_node(fx, fy));
    }
    assert_eq!(far.nearest_node(-by, by), Some((0, u128::MAX)));
    let n = &far.nodes[1];
    assert_eq!(far.hit_test(n.x, n.y, 0), Some(AdvanceHit::Node(1)));
    assert_eq!(far.edge_at(Px::MIN, Px::MAX, Px::MAX), None);
}

#[test]
fn pictures_share_no_arrowhead() {
    let mut counter = MarkerCounter::default();
    let one = render_advance_svg(TWO_LANES, &theme(), &mut counter).unwrap();
    let two = render_advance_svg(TWO_LANES, &theme(), &mut counter).unwrap();
    assert!(one.contains("id=\"advance-arrow-1\"") && !one.contains("advance-arrow-2"));
    assert!(two.contains("id=\"advance-arrow-2\"") && !two.contains("advance-arrow-1"));
    assert_eq!(counter.next, 3);
}

fn list<'a>(v: &'a JsonValue, key: &str) -> &'a [JsonValue] {
    as_array(obj_get(as_object(v).unwrap(), key).unwrap()).unwrap()
}

fn text<'a>(v: &'a JsonValue, key: &str) -> Option<&'a str> {
    obj_get(as_object(v).unwrap(), key).and_then(|v| as_str(v))
}

#[test]
fn written_scenes_list_their_parts() {
    let source = r#"{
      "lanes": [{"id": "l"}],
      "nodes": [
        {"id": "a", "lane": "l", "anchors": [{"id": "out", "side": "right"}]},
        {"id": "b", "lane": "l", "style": {"stroke-width": 2.5}}
      ],
      "edges": [{"from": "a@out", "to": "b"}]
    }"#;
    let sc = layout_advance(source).unwrap();
    let v = parse_json(&scene_to_json(&sc)).unwrap();
    assert_eq!(text(&list(&v, "lanes")[0], "id"), Some("l"));
    let nodes = list(&v, "nodes");
    assert_eq!(nodes.len(), 2);
    assert_eq!(text(&nodes[1], "id"), Some("b"));
    let edge = &list(&v, "edges")[0];
    assert_eq!((text(edge, "from"), text(edge, "to")), (Some("a"), Some("b")));
    assert_eq!(text(edge, "from_end"), Some("a@out"));
    assert_eq!(text(edge, "to_end"), None);
}

#[test]
fn parsed_diagrams_survive_being_written() {
    let source = r#"{
      "title": "t", "config": {"margin": 12.5},
      "lanes": [{"id": "l", "children": [{"id": "m"}]}],
      "nodes": [
        {"id": "a", "lane": "m", "w": 120.5, "style": {"stroke-width": "1.5px"},
         "elements": [{"id": "core", "anchors": [{"id": "pin", "side": "left", "offset": 0.25}]}]},
        {"id": "b", "lane": "l"}
      ],
      "edges": [{"from": "a.core@pin", "to": "b:right"}]
    }"#;
    let d = AdvanceDiagram::parse(source).unwrap();
    let again = AdvanceDiagram::parse(&to_json(&d)).unwrap();
    assert_eq!(again, d);
}

#[test]
fn a_lane_that_no_edge_leaves_is_stacked_in_order() {
    let source = r#"{
      "config": {"order": "topology"},
      "lanes": [{"id": "l"}],
      "nodes": [{"id": "c", "lane": "l"}, {"id": "b", "lane": "l"}, {"id": "a", "lane": "l"}],
      "edges": [{"from": "a", "to": "b"}, {"from": "b", "to": "c"}]
    }"#;
    let d = AdvanceDiagram::parse(source).unwrap();
    assert_eq!(emission_order(&d), vec![2, 1, 0]);
}

#[test]
fn plain_routes_start_and_end_on_borders() {
    let sc = place(&AdvanceDiagram::parse(&NESTED.replace("DIRECTION", "vertical")).unwrap());
    for e in &sc.edges {
        let ends = [(&e.from, e.points[0]), (&e.to, e.points[e.points.len() - 1])];
        for (id, p) in ends {
            let n = sc.nodes.iter().find(|n| n.id == *id).unwrap();
            let (dx, dy) = ((p.x - n.x).abs(), (p.y - n.y).abs());
            assert!(dx <= n.w / 2 && dy <= n.h / 2 && (dx == n.w / 2 || dy == n.h / 2));
        }
    }
}

#[test]
fn wide_numbers_are_exact() {
    let a = Wide::of(u128::MAX);
    let b = a.plus(&Wide::of(1));
    assert!(a.less(&b) && !b.less(&a) && !a.less(&a));
    assert_eq!(b.capped(), u128::MAX);
    assert_eq!(Wide::of(1 << 70).times(&Wide::of(3)).capped(), 3 << 70);
    let square = b.times(&b);
    let other = a.times(&b);
    assert!(other.less(&square));
    assert!(!square.less(&other.plus(&b)) && !other.plus(&b).less(&square));
    assert_eq!(Wide::of(0).times(&square).capped(), 0);
}
