//! Architecture diagrams: nesting, placement, routes and SVG.

use flowmaid::architecture::arrange::arrange;
use flowmaid::architecture::icons::icon_glyph;
use flowmaid::architecture::scene::{orthogonal_route, scene, ArchScene};
use flowmaid::architecture::svg::to_svg;
use flowmaid::architecture::{
    check, depth_of, ArchEdge, ArchGroup, ArchService, ArchSide, Architecture,
};
use flowmaid::advance::scene::Point;

fn accents() -> Vec<String> {
    vec!["#111111".to_string(), "#222222".to_string(), "#333333".to_string()]
}

fn group(id: &str, icon: Option<&str>, title: &str, parent: Option<usize>) -> ArchGroup {
    ArchGroup {
        id: id.to_string(),
        icon: icon.map(|s| s.to_string()),
        title: title.to_string(),
        parent,
    }
}

fn service(id: &str, icon: Option<&str>, title: &str, group: Option<usize>) -> ArchService {
    ArchService {
        id: id.to_string(),
        icon: icon.map(|s| s.to_string()),
        title: title.to_string(),
        group,
    }
}

fn edge(from: usize, to: usize, arrow_start: bool, arrow_end: bool) -> ArchEdge {
    ArchEdge {
        from,
        from_side: ArchSide::R,
        to,
        to_side: ArchSide::L,
        arrow_start,
        arrow_end,
    }
}

fn pair(edges: Vec<ArchEdge>) -> Architecture {
    Architecture {
        groups: vec![group("g", None, "Group", None)],
        services: vec![
            service("a", Some("A"), "A", Some(0)),
            service("b", Some("B"), "B", Some(0)),
        ],
        edges,
    }
}

fn drawn(a: &Architecture) -> ArchScene {
    assert!(check(a));
    scene(a, &accents())
}

#[test]
fn basic_group_and_service() {
    let a = Architecture {
        groups: vec![group("infra", None, "Infrastructure", None)],
        services: vec![
            service("db", Some("Database"), "Database", Some(0)),
            service("api", Some("API"), "API", Some(0)),
        ],
        edges: vec![],
    };
    assert_eq!(a.groups.len(), 1);
    assert_eq!(a.services.len(), 2);
    let sc = drawn(&a);
    assert_eq!(sc.nodes.len(), 2);
    assert_eq!(sc.clusters.len(), 1);
}

#[test]
fn edge_between_services() {
    let sc = drawn(&pair(vec![edge(0, 1, false, false)]));
    assert_eq!(sc.edges.len(), 1);
    assert!(!sc.edges[0].waypoints.is_empty());
}

#[test]
fn directed_edge() {
    let a = pair(vec![edge(0, 1, false, true)]);
    let e = &a.edges[0];
    assert!(!e.arrow_start);
    assert!(e.arrow_end);
    let sc = drawn(&a);
    assert!(!sc.edges[0].arrow_start);
    assert!(sc.edges[0].arrow_end);
}

#[test]
fn svg_markers_respect_per_end_arrows() {
    let mut a = pair(vec![]);
    a.services.push(service("c", Some("C"), "C", Some(0)));
    a.services.push(service("d", Some("D"), "D", Some(0)));
    a.edges = vec![
        edge(0, 1, false, true),
        edge(2, 3, true, false),
        edge(1, 2, false, false),
    ];
    let svg = to_svg(&drawn(&a));
    let ends = svg.matches("marker-end='url(#flowmaid-arch-arrow-end)'").count();
    let starts = svg.matches("marker-start='url(#flowmaid-arch-arrow-start)'").count();
    assert_eq!(ends, 1, "only the --> edge has an end arrowhead");
    assert_eq!(starts, 1, "only the <-- edge has a start arrowhead");
}

#[test]
fn bidirectional_svg_has_both_markers() {
    let svg = to_svg(&drawn(&pair(vec![edge(0, 1, true, true)])));
    assert!(svg.contains("marker-end='url(#flowmaid-arch-arrow-end)'"));
    assert!(svg.contains("marker-start='url(#flowmaid-arch-arrow-start)'"));
}

#[test]
fn icon_is_rendered_to_svg() {
    let a = Architecture {
        groups: vec![group("infra", Some("cloud"), "Infra", None)],
        services: vec![service("db", Some("database"), "Database", Some(0))],
        edges: vec![],
    };
    let svg = to_svg(&drawn(&a));
    assert!(svg.contains("🗄"));
    assert!(svg.contains("☁"));
}

#[test]
fn nested_groups_place_services_inside() {
    let a = Architecture {
        groups: vec![group("outer", None, "Outer", None), group("inner", None, "Inner", Some(0))],
        services: vec![service("s", Some("S"), "Service", Some(1))],
        edges: vec![],
    };
    assert_eq!(a.groups.len(), 2);
    assert_eq!(a.services.len(), 1);
    let sc = drawn(&a);
    assert_eq!(sc.clusters.len(), 2);
    let inner = &sc.clusters[1];
    let node = &sc.nodes[0];
    assert!(node.x > inner.x);
    assert!(node.x < inner.x + inner.w);
    assert!(node.y > inner.y);
    assert!(node.y < inner.y + inner.h);
    assert_eq!(depth_of(0, &a), 0);
    assert_eq!(depth_of(1, &a), 1);
}

#[test]
fn a_group_inside_itself_is_no_diagram() {
    let looped = Architecture {
        groups: vec![group("a", None, "A", Some(1)), group("b", None, "B", Some(0))],
        services: vec![],
        edges: vec![],
    };
    assert!(!check(&looped));
    let dangling = Architecture {
        groups: vec![],
        services: vec![service("s", None, "S", None)],
        edges: vec![edge(0, 1, false, false)],
    };
    assert!(!check(&dangling));
}

#[test]
fn icons_have_glyphs_by_name() {
    assert_eq!(icon_glyph("cloud"), Some("☁"));
    assert_eq!(icon_glyph("no-such-icon"), None);
}

#[test]
fn four_equal_boxes_form_a_square() {
    let one = (6400000, 6400000);
    let (at, w, h) = arrange(&vec![one, one, one, one]);
    assert_eq!(at[0].1, at[1].1);
    assert_eq!(at[2].1, at[3].1);
    assert_eq!(at[0].0, at[2].0);
    assert!(at[0].1 < at[2].1);
    assert!(w > 0 && h > 0);
}

#[test]
fn ways_between_services_are_orthogonal() {
    let a = Point { x: 0, y: 0 };
    let b = Point { x: 6400000, y: 3200000 };
    let way = orthogonal_route(a, b);
    for p in way.windows(2) {
        assert!(p[0].x == p[1].x || p[0].y == p[1].y);
    }
    assert_eq!((way[0].x, way[0].y), (0, 0));
    let last = way.last().unwrap();
    assert_eq!((last.x, last.y), (6400000, 3200000));
}
