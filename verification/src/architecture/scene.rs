//! The geometry of an architecture diagram.

use vstd::prelude::*;

use crate::advance::place::lengths::{bounded, plus, sum};
use crate::advance::route::geometry::{at, course, half};
use crate::advance::scene::{Point, Px};
use crate::architecture::icons::{glyph, icon_glyph};
use crate::architecture::place::{
    canvas, canvas_of, group_at, is_plan, place_group, place_service, plan, service_at, size, Plan,
    SERVICE_H, SERVICE_W,
};
use crate::architecture::{depth_of, indices_exist, level, nests, ArchGroup, ArchSide, Architecture};
use crate::model::opt_text;
use crate::style::{accent, accent_of};
use crate::text::cat3;

verus! {

/// A group in its place.
#[derive(Debug)]
pub struct ArchCluster {
    pub id: String,
    pub title: String,
    pub x: Px,
    pub y: Px,
    pub w: Px,
    pub h: Px,
    pub depth: usize,
}

/// A service in its place; `x`/`y` is its centre.
#[derive(Debug)]
pub struct ArchNode {
    pub id: String,
    pub label: String,
    pub x: Px,
    pub y: Px,
    pub stroke: String,
    pub icon: Option<String>,
}

/// An edge between two services, by their numbers, and its way.
#[derive(Debug)]
pub struct ArchLine {
    pub from: usize,
    pub to: usize,
    pub waypoints: Vec<Point>,
    pub arrow_start: bool,
    pub arrow_end: bool,
}

/// Everything that is drawn of an architecture diagram.
#[derive(Debug)]
pub struct ArchScene {
    pub width: Px,
    pub height: Px,
    pub clusters: Vec<ArchCluster>,
    pub nodes: Vec<ArchNode>,
    pub edges: Vec<ArchLine>,
}

/// The character for an optional icon.
pub open spec fn icon(name: Option<Seq<char>>) -> Option<Seq<char>> {
    match name {
        Some(n) => glyph(n),
        None => None,
    }
}

fn icon_of(name: &Option<String>) -> (r: Option<String>)
    ensures
        opt_text(r) == icon(opt_text(*name)),
{
    match name {
        Some(n) => match icon_glyph(n.as_str()) {
            Some(g) => Some(g.to_owned()),
            None => None,
        },
        None => None,
    }
}

/// The title of a group, behind its icon where it has one.
pub open spec fn title(g: ArchGroup) -> Seq<char> {
    match icon(opt_text(g.icon)) {
        Some(i) => i + " "@ + g.title@,
        None => g.title@,
    }
}

/// Whether `c` is group `i` in its place.
pub open spec fn is_cluster(c: ArchCluster, d: Architecture, i: int) -> bool {
    &&& c.id@ == d.groups@[i].id@
    &&& c.title@ == title(d.groups@[i])
    &&& (c.x as int, c.y as int) == group_at(d, i)
    &&& (c.w as int, c.h as int) == size(d, i)
    &&& c.depth == level(d, i)
}

/// The centre of a service.
pub open spec fn centre(d: Architecture, s: int) -> (int, int) {
    let (x, y) = service_at(d, s);
    (plus(x, SERVICE_W / 2), plus(y, SERVICE_H / 2))
}

/// Whether `n` is service `s` in its place.
pub open spec fn is_service(n: ArchNode, d: Architecture, s: int, accents: Seq<String>) -> bool {
    &&& n.id@ == d.services@[s].id@
    &&& n.label@ == d.services@[s].title@
    &&& (n.x as int, n.y as int) == centre(d, s)
    &&& n.stroke@ == accent_of(accents, s)
    &&& opt_text(n.icon) == icon(opt_text(d.services@[s].icon))
}

/// The middle of a side of a service.
pub open spec fn port_at(d: Architecture, s: int, side: ArchSide) -> (int, int) {
    let (x, y) = service_at(d, s);
    let (cx, cy) = centre(d, s);
    match side {
        ArchSide::T => (cx, y),
        ArchSide::B => (cx, plus(y, SERVICE_H as int)),
        ArchSide::L => (x, cy),
        ArchSide::R => (plus(x, SERVICE_W as int), cy),
    }
}

pub open spec fn distance(a: int, b: int) -> int {
    if a < b {
        b - a
    } else {
        a - b
    }
}

/// The way between two points: straight where they are on one line, else
/// with its turns halfway along the longer direction.
pub open spec fn way(a: (int, int), b: (int, int)) -> Seq<(int, int)> {
    if a.0 == b.0 || a.1 == b.1 {
        seq![a, b]
    } else if distance(a.0, b.0) > distance(a.1, b.1) {
        let m = (a.0 + b.0) / 2;
        seq![a, (m, a.1), (m, b.1), b]
    } else {
        let m = (a.1 + b.1) / 2;
        seq![a, (a.0, m), (b.0, m), b]
    }
}

/// Every part of a way runs along an axis, from its start to its end.
pub proof fn law_way_is_orthogonal(a: (int, int), b: (int, int), i: int)
    ensures
        way(a, b)[0] == a,
        way(a, b).last() == b,
        0 <= i < way(a, b).len() - 1 ==> way(a, b)[i].0 == way(a, b)[i + 1].0 || way(a, b)[i].1
            == way(a, b)[i + 1].1,
{
}

/// Whether `l` is edge `k` in its place.
pub open spec fn is_line(l: ArchLine, d: Architecture, k: int) -> bool {
    let e = d.edges@[k];
    &&& l.from == e.from && l.to == e.to
    &&& l.arrow_start == e.arrow_start && l.arrow_end == e.arrow_end
    &&& course(l.waypoints@) == way(
        port_at(d, e.from as int, e.from_side),
        port_at(d, e.to as int, e.to_side),
    )
}

/// Whether `s` is what is drawn of a diagram.
pub open spec fn is_scene(s: ArchScene, d: Architecture, accents: Seq<String>) -> bool {
    &&& (s.width as int, s.height as int) == canvas(d)
    &&& s.clusters@.len() == d.groups@.len()
    &&& forall|i: int| 0 <= i < s.clusters@.len() ==> is_cluster(#[trigger] s.clusters@[i], d, i)
    &&& s.nodes@.len() == d.services@.len()
    &&& forall|i: int|
        0 <= i < s.nodes@.len() ==> is_service(#[trigger] s.nodes@[i], d, i, accents)
    &&& s.edges@.len() == d.edges@.len()
    &&& forall|i: int| 0 <= i < s.edges@.len() ==> is_line(#[trigger] s.edges@[i], d, i)
}

fn cluster_of(d: &Architecture, p: &Plan, i: usize) -> (r: ArchCluster)
    requires
        nests(*d),
        is_plan(*p, *d),
        i < d.groups@.len(),
    ensures
        is_cluster(r, *d, i as int),
{
    let g = &d.groups[i];
    let title = match icon_of(&g.icon) {
        Some(c) => cat3(c.as_str(), " ", g.title.as_str()),
        None => g.title.clone(),
    };
    let (x, y) = place_group(d, p, i);
    assert((p.sizes@[i as int].0 as int, p.sizes@[i as int].1 as int) == size(*d, i as int));
    let (w, h) = p.sizes[i];
    ArchCluster { id: g.id.clone(), title, x, y, w, h, depth: depth_of(i, d) }
}

fn service_of(d: &Architecture, p: &Plan, s: usize, accents: &Vec<String>) -> (r: ArchNode)
    requires
        nests(*d),
        indices_exist(*d),
        is_plan(*p, *d),
        s < d.services@.len(),
        accents@.len() > 0,
    ensures
        is_service(r, *d, s as int, accents@),
{
    let v = &d.services[s];
    let (x, y) = place_service(d, p, s);
    ArchNode {
        id: v.id.clone(),
        label: v.title.clone(),
        x: sum(x, SERVICE_W / 2),
        y: sum(y, SERVICE_H / 2),
        stroke: accent(accents, s),
        icon: icon_of(&v.icon),
    }
}

fn port(d: &Architecture, p: &Plan, s: usize, side: ArchSide) -> (r: Point)
    requires
        nests(*d),
        indices_exist(*d),
        is_plan(*p, *d),
        s < d.services@.len(),
    ensures
        at(r) == port_at(*d, s as int, side),
        bounded(r.x as int),
        bounded(r.y as int),
{
    let (x, y) = place_service(d, p, s);
    let cx: Px = sum(x, SERVICE_W / 2);
    let cy: Px = sum(y, SERVICE_H / 2);
    match side {
        ArchSide::T => Point { x: cx, y },
        ArchSide::B => Point { x: cx, y: sum(y, SERVICE_H) },
        ArchSide::L => Point { x, y: cy },
        ArchSide::R => Point { x: sum(x, SERVICE_W), y: cy },
    }
}

fn gap(a: Px, b: Px) -> (r: Px)
    requires
        bounded(a as int),
        bounded(b as int),
    ensures
        r == distance(a as int, b as int),
{
    if a < b {
        b - a
    } else {
        a - b
    }
}

/// The way between two points.
pub fn orthogonal_route(a: Point, b: Point) -> (r: Vec<Point>)
    requires
        bounded(a.x as int),
        bounded(a.y as int),
        bounded(b.x as int),
        bounded(b.y as int),
    ensures
        course(r@) == way(at(a), at(b)),
{
    let r = if a.x == b.x || a.y == b.y {
        vec![a, b]
    } else if gap(a.x, b.x) > gap(a.y, b.y) {
        let m: Px = half(a.x + b.x);
        vec![a, Point { x: m, y: a.y }, Point { x: m, y: b.y }, b]
    } else {
        let m: Px = half(a.y + b.y);
        vec![a, Point { x: a.x, y: m }, Point { x: b.x, y: m }, b]
    };
    assert(course(r@) =~= way(at(a), at(b)));
    r
}

fn line_of(d: &Architecture, p: &Plan, k: usize) -> (r: ArchLine)
    requires
        nests(*d),
        indices_exist(*d),
        is_plan(*p, *d),
        k < d.edges@.len(),
    ensures
        is_line(r, *d, k as int),
{
    let e = &d.edges[k];
    assert(d.edges@[k as int].from < d.services@.len());
    let a = port(d, p, e.from, e.from_side);
    let b = port(d, p, e.to, e.to_side);
    ArchLine {
        from: e.from,
        to: e.to,
        waypoints: orthogonal_route(a, b),
        arrow_start: e.arrow_start,
        arrow_end: e.arrow_end,
    }
}

/// Compute everything that is drawn of an architecture diagram.
pub fn scene(d: &Architecture, accents: &Vec<String>) -> (r: ArchScene)
    requires
        nests(*d),
        indices_exist(*d),
        accents@.len() > 0,
    ensures
        is_scene(r, *d, accents@),
{
    let p = plan(d);
    let (width, height) = canvas_of(d, &p);
    let mut clusters: Vec<ArchCluster> = Vec::new();
    let mut i: usize = 0;
    while i < d.groups.len()
        invariant
            i <= d.groups@.len(),
            nests(*d),
            is_plan(p, *d),
            clusters@.len() == i,
            forall|k: int| 0 <= k < i ==> is_cluster(#[trigger] clusters@[k], *d, k),
        decreases d.groups@.len() - i,
    {
        clusters.push(cluster_of(d, &p, i));
        i += 1;
    }
    let mut nodes: Vec<ArchNode> = Vec::new();
    let mut s: usize = 0;
    while s < d.services.len()
        invariant
            s <= d.services@.len(),
            nests(*d),
            indices_exist(*d),
            is_plan(p, *d),
            accents@.len() > 0,
            nodes@.len() == s,
            forall|k: int| 0 <= k < s ==> is_service(#[trigger] nodes@[k], *d, k, accents@),
        decreases d.services@.len() - s,
    {
        nodes.push(service_of(d, &p, s, accents));
        s += 1;
    }
    let mut edges: Vec<ArchLine> = Vec::new();
    let mut e: usize = 0;
    while e < d.edges.len()
        invariant
            e <= d.edges@.len(),
            nests(*d),
            indices_exist(*d),
            is_plan(p, *d),
            edges@.len() == e,
            forall|k: int| 0 <= k < e ==> is_line(#[trigger] edges@[k], *d, k),
        decreases d.edges@.len() - e,
    {
        edges.push(line_of(d, &p, e));
        e += 1;
    }
    ArchScene { width, height, clusters, nodes, edges }
}

} // verus!
