//! The routes of all edges of a diagram.

use vstd::prelude::*;

use crate::advance::ends::{all_exposed, lane_node_index, lane_node_ids, resolve_element, terminal, walk};
use crate::advance::place::lengths::{bound, cut_wide};
use crate::advance::route::geometry::{
    at, course, course_near, dedup_pts, frame, near, node_rect, point_near, side_middle, side_point,
    spot_near, spots_near, without_repeats, Frame, Rect, Spot,
};
use crate::advance::route::label_spots::{
    choose_label_pos, frames, label_box, label_candidates, label_frame, label_spot, places,
};
use crate::advance::route::paths::{
    cross_lane_path, loop_path, route_cross_lane, route_same_lane, route_self_loop, same_lane_path,
};
use crate::advance::route::ports::{
    exposed_side, natural_side, own_side, pick_exposed_side, ported_path, route_ported,
};
use crate::advance::scene::{
    scene_anchors, scene_elements, scene_nodes, AdvanceSceneEdge, AdvanceSceneNode, Point, Px,
    SceneAnchorView, SceneEdgeView, SceneElementView, SceneNodeView,
};
use crate::advance::{
    AdvanceDiagram, AdvanceDirection, AdvanceEdge, AdvanceEnd, AdvanceNode, AdvanceSide, AnchorRef,
    AnchorRefView, DiagramView, EndView, LaneEdgeView, LaneNodeView,
};
use crate::model::{copy_opt, name_from, name_index};
use crate::text::{same_strings, str_eq, strings};

verus! {

/// Half the distance of parallel edges.
pub const HALF_FAN: i64 = 512000;

/// The box of a placed node.
pub open spec fn spot(n: SceneNodeView) -> Spot {
    Spot { x: n.x, y: n.y, w: n.w, h: n.h }
}

pub open spec fn element_spot(e: SceneElementView) -> Spot {
    Spot { x: e.x, y: e.y, w: e.w, h: e.h }
}

fn spot_of(n: &AdvanceSceneNode) -> (r: Spot)
    ensures
        r == spot(n@),
{
    Spot { x: n.x, y: n.y, w: n.w, h: n.h }
}

/// Whether a placed node, with all its parts, is near enough to compute
/// with.
pub open spec fn node_near(n: SceneNodeView) -> bool {
    &&& spot_near(spot(n))
    &&& forall|i: int|
        0 <= i < n.elements.len() ==> spot_near(element_spot(#[trigger] n.elements[i]))
    &&& forall|i: int|
        0 <= i < n.anchors.len() ==> near((#[trigger] n.anchors[i]).x as int, 2) && near(
            n.anchors[i].y as int,
            2,
        )
}

pub open spec fn nodes_near(s: Seq<SceneNodeView>) -> bool {
    forall|i: int| 0 <= i < s.len() ==> node_near(#[trigger] s[i])
}

/// The ids of placed nodes.
pub open spec fn scene_ids(nodes: Seq<SceneNodeView>) -> Seq<Seq<char>> {
    nodes.map_values(|n: SceneNodeView| n.id)
}

/// The placed node with the given id.
pub fn scene_node_index(nodes: &Vec<AdvanceSceneNode>, id: &str) -> (r: Option<usize>)
    ensures
        match name_index(scene_ids(scene_nodes(nodes@)), id@) {
            Some(i) => r is Some && r->Some_0 == i && 0 <= i < nodes@.len(),
            None => r is None,
        },
{
    let ghost ids = scene_ids(scene_nodes(nodes@));
    let mut i: usize = 0;
    while i < nodes.len()
        invariant
            i <= nodes@.len(),
            ids == scene_ids(scene_nodes(nodes@)),
            name_index(ids, id@) == name_from(ids, id@, i as int),
        decreases nodes@.len() - i,
    {
        assert(ids[i as int] == nodes@[i as int].id@);
        if str_eq(nodes[i].id.as_str(), id) {
            return Some(i);
        }
        i += 1;
    }
    None
}

/// Whether a node is neither of two, and in the lane if one is given.
pub open spec fn is_other(
    n: SceneNodeView,
    a: Seq<char>,
    b: Seq<char>,
    lane: Option<Seq<char>>,
) -> bool {
    n.id != a && n.id != b && (match lane {
        Some(l) => n.lane == l,
        None => true,
    })
}

/// The boxes of those of the first `k` nodes that are neither of two, and in
/// the lane if one is given.
pub open spec fn others(
    nodes: Seq<SceneNodeView>,
    k: int,
    a: Seq<char>,
    b: Seq<char>,
    lane: Option<Seq<char>>,
) -> Seq<Spot>
    decreases k,
{
    if k <= 0 {
        Seq::empty()
    } else if is_other(nodes[k - 1], a, b, lane) {
        others(nodes, k - 1, a, b, lane).push(spot(nodes[k - 1]))
    } else {
        others(nodes, k - 1, a, b, lane)
    }
}

/// The boxes of the first `k` nodes.
pub open spec fn all_spots(nodes: Seq<SceneNodeView>) -> Seq<Spot> {
    nodes.map_values(|n: SceneNodeView| spot(n))
}

fn collect_others(nodes: &Vec<AdvanceSceneNode>, a: &str, b: &str, lane: Option<&str>) -> (r: Vec<
    Spot,
>)
    requires
        nodes_near(scene_nodes(nodes@)),
    ensures
        r@ == others(
            scene_nodes(nodes@),
            nodes@.len() as int,
            a@,
            b@,
            match lane {
                Some(l) => Some(l@),
                None => None,
            },
        ),
        spots_near(r@),
{
    let ghost all = scene_nodes(nodes@);
    let ghost l: Option<Seq<char>> = match lane {
        Some(l) => Some(l@),
        None => None,
    };
    let mut r: Vec<Spot> = Vec::new();
    let mut i: usize = 0;
    while i < nodes.len()
        invariant
            i <= nodes@.len(),
            all == scene_nodes(nodes@),
            nodes_near(all),
            l == (match lane {
                Some(l) => Some(l@),
                None => None,
            }),
            r@ == others(all, i as int, a@, b@, l),
            spots_near(r@),
        decreases nodes@.len() - i,
    {
        let n = &nodes[i];
        assert(all[i as int] == n@);
        assert(node_near(all[i as int]));
        let in_lane = match lane {
            Some(l) => str_eq(n.lane.as_str(), l),
            None => true,
        };
        if !str_eq(n.id.as_str(), a) && !str_eq(n.id.as_str(), b) && in_lane {
            r.push(spot_of(n));
        }
        i += 1;
    }
    r
}

fn collect_spots(nodes: &Vec<AdvanceSceneNode>) -> (r: Vec<Spot>)
    requires
        nodes_near(scene_nodes(nodes@)),
    ensures
        r@ == all_spots(scene_nodes(nodes@)),
        spots_near(r@),
{
    let ghost all = scene_nodes(nodes@);
    let mut r: Vec<Spot> = Vec::new();
    let mut i: usize = 0;
    while i < nodes.len()
        invariant
            i <= nodes@.len(),
            all == scene_nodes(nodes@),
            nodes_near(all),
            r@ == all_spots(all).take(i as int),
            spots_near(r@),
        decreases nodes@.len() - i,
    {
        let n = &nodes[i];
        assert(all[i as int] == n@);
        assert(node_near(all[i as int]));
        r.push(spot_of(n));
        i += 1;
        assert(r@ =~= all_spots(all).take(i as int));
    }
    assert(all_spots(all).take(all.len() as int) =~= all_spots(all));
    r
}

/// The first anchor from `k` on with the given id, on the sub-element
/// `element` or, without one, on the node itself.
pub open spec fn anchor_from(
    anchors: Seq<SceneAnchorView>,
    element: Option<int>,
    id: Seq<char>,
    k: int,
) -> Option<int>
    decreases anchors.len() - k,
{
    if k < 0 || k >= anchors.len() {
        None
    } else if anchors[k].id == id && (match anchors[k].element {
        Some(e) => element == Some(e as int),
        None => element is None,
    }) {
        Some(k)
    } else {
        anchor_from(anchors, element, id, k + 1)
    }
}

/// The first sub-element from `k` on with the given path.
pub open spec fn element_from(
    elements: Seq<SceneElementView>,
    path: Seq<Seq<char>>,
    k: int,
) -> Option<int>
    decreases elements.len() - k,
{
    if k < 0 || k >= elements.len() {
        None
    } else if elements[k].path == path {
        Some(k)
    } else {
        element_from(elements, path, k + 1)
    }
}

/// The name of the anchor that an end asks for.
pub open spec fn anchor_name(end: EndView) -> Option<Seq<char>> {
    match end.at {
        Some(AnchorRefView::Named(id)) => Some(id),
        _ => None,
    }
}

/// The anchor that an end asks for on a sub-element or on the node itself.
pub open spec fn wanted_anchor(n: SceneNodeView, end: EndView, element: Option<int>) -> Option<
    (int, int),
> {
    match anchor_name(end) {
        Some(id) => match anchor_from(n.anchors, element, id, 0) {
            Some(i) => Some((n.anchors[i].x as int, n.anchors[i].y as int)),
            None => None,
        },
        None => None,
    }
}

/// The point straight out of `side` from `p` on the boundary of a node.
pub open spec fn to_boundary(n: SceneNodeView, side: AdvanceSide, p: (int, int)) -> (int, int) {
    let f = frame(spot(n));
    match side {
        AdvanceSide::Left => (f.l, p.1),
        AdvanceSide::Right => (f.r, p.1),
        AdvanceSide::Top => (p.0, f.t),
        AdvanceSide::Bottom => (p.0, f.b),
    }
}

/// Where an edge end is, and where its route meets the node's boundary. For
/// a sub-element the second lies straight out of `side`; else the two are
/// one point.
pub open spec fn end_points(n: SceneNodeView, end: EndView, side: AdvanceSide) -> (
    (int, int),
    (int, int),
) {
    let plain = side_middle(spot(n), side);
    if end.path.len() == 0 {
        match wanted_anchor(n, end, None) {
            Some(p) => (p, p),
            None => (plain, plain),
        }
    } else {
        match element_from(n.elements, end.path, 0) {
            Some(i) => {
                let p = match wanted_anchor(n, end, Some(i)) {
                    Some(p) => p,
                    None => side_middle(element_spot(n.elements[i]), side),
                };
                (p, to_boundary(n, side, p))
            },
            None => (plain, plain),
        }
    }
}

fn find_anchor(n: &AdvanceSceneNode, end: &AdvanceEnd, element: Option<usize>) -> (r: Option<Point>)
    requires
        node_near(n@),
    ensures
        match wanted_anchor(
            n@,
            end@,
            match element {
                Some(e) => Some(e as int),
                None => None,
            },
        ) {
            Some(p) => r matches Some(q) && at(q) == p && point_near(at(q), 2),
            None => r is None,
        },
{
    let ghost who: Option<int> = match element {
        Some(e) => Some(e as int),
        None => None,
    };
    let ghost anchors = n@.anchors;
    let id = match &end.at {
        Some(AnchorRef::Named(id)) => id,
        _ => return None,
    };
    assert(anchor_name(end@) == Some(id@));
    let mut k: usize = 0;
    while k < n.anchors.len()
        invariant
            k <= n.anchors@.len(),
            node_near(n@),
            anchors == n@.anchors,
            anchors == scene_anchors(n.anchors@),
            anchor_name(end@) == Some(id@),
            who == (match element {
                Some(e) => Some(e as int),
                None => None,
            }),
            anchor_from(anchors, who, id@, 0) == anchor_from(anchors, who, id@, k as int),
        decreases n.anchors@.len() - k,
    {
        let a = &n.anchors[k];
        assert(anchors[k as int] == a@);
        assert(near(n@.anchors[k as int].x as int, 2));
        let here = match (a.element, element) {
            (Some(e), Some(w)) => e == w,
            (None, None) => true,
            _ => false,
        };
        if here && str_eq(a.id.as_str(), id.as_str()) {
            return Some(Point { x: a.x, y: a.y });
        }
        k += 1;
    }
    None
}

fn find_element(n: &AdvanceSceneNode, path: &Vec<String>) -> (r: Option<usize>)
    ensures
        match element_from(n@.elements, strings(path@), 0) {
            Some(i) => r matches Some(q) && q == i && 0 <= i < n@.elements.len(),
            None => r is None,
        },
{
    let ghost elements = n@.elements;
    let mut k: usize = 0;
    while k < n.elements.len()
        invariant
            k <= n.elements@.len(),
            elements == n@.elements,
            elements == scene_elements(n.elements@),
            element_from(elements, strings(path@), 0) == element_from(
                elements,
                strings(path@),
                k as int,
            ),
        decreases n.elements@.len() - k,
    {
        assert(elements[k as int] == n.elements@[k as int]@);
        if same_strings(&n.elements[k].path, path) {
            return Some(k);
        }
        k += 1;
    }
    None
}

/// Resolve one edge end to its terminal point and the point on the node's
/// boundary.
pub fn resolve_terminal(n: &AdvanceSceneNode, end: &AdvanceEnd, side: AdvanceSide) -> (r: (
    Point,
    Point,
))
    requires
        node_near(n@),
    ensures
        (at(r.0), at(r.1)) == end_points(n@, end@, side),
        point_near(at(r.0), 2),
        point_near(at(r.1), 2),
{
    let s = spot_of(n);
    let plain = side_point(s, side);
    assert(strings(end.path@).len() == end.path@.len());
    if end.path.len() == 0 {
        return match find_anchor(n, end, None) {
            Some(p) => (p, p),
            None => (plain, plain),
        };
    }
    match find_element(n, &end.path) {
        Some(i) => {
            let e = &n.elements[i];
            assert(n@.elements[i as int] == e@);
            assert(spot_near(element_spot(n@.elements[i as int])));
            let p = match find_anchor(n, end, Some(i)) {
                Some(p) => p,
                None => side_point(Spot { x: e.x, y: e.y, w: e.w, h: e.h }, side),
            };
            let f = node_rect(s);
            let q = match side {
                AdvanceSide::Left => Point { x: f.l, y: p.y },
                AdvanceSide::Right => Point { x: f.r, y: p.y },
                AdvanceSide::Top => Point { x: p.x, y: f.t },
                AdvanceSide::Bottom => Point { x: p.x, y: f.b },
            };
            (p, q)
        },
        None => (plain, plain),
    }
}

/// The side on which an end that may name a sub-element is met: the given
/// one, else the node's own; on a sub-element the nearest such side that is
/// exposed.
pub open spec fn end_side(
    node: LaneNodeView,
    end: EndView,
    given: Option<AdvanceSide>,
    a: Spot,
    b: Spot,
    dir: AdvanceDirection,
    is_from: bool,
    same_lane: bool,
) -> AdvanceSide {
    let natural = match given {
        Some(s) => s,
        None => own_side(a, b, dir, is_from, same_lane),
    };
    let (me, other) = if is_from {
        (a, b)
    } else {
        (b, a)
    };
    if end.path.len() == 0 {
        natural
    } else {
        match walk(node.id, node.elements, node.layout, all_exposed(), end.path) {
            Ok((_, exposed)) => exposed_side(natural, exposed, other.x - me.x, other.y - me.y),
            Err(_) => natural,
        }
    }
}

fn side_for(
    node: &AdvanceNode,
    end: &AdvanceEnd,
    given: Option<AdvanceSide>,
    a: Spot,
    b: Spot,
    dir: AdvanceDirection,
    is_from: bool,
    same_lane: bool,
) -> (r: AdvanceSide)
    requires
        spot_near(a),
        spot_near(b),
    ensures
        r == end_side(node@, end@, given, a, b, dir, is_from, same_lane),
{
    let natural = match given {
        Some(s) => s,
        None => natural_side(a, b, dir, is_from, same_lane),
    };
    assert(strings(end.path@).len() == end.path@.len());
    if end.path.len() == 0 {
        return natural;
    }
    let (me, other) = if is_from {
        (a, b)
    } else {
        (b, a)
    };
    match resolve_element(node, &end.path) {
        Ok((_, exposed)) => pick_exposed_side(
            natural,
            exposed,
            other.x - me.x,
            other.y - me.y,
        ),
        Err(_) => natural,
    }
}

/// The side of a node that an edge asks for, else the node's own.
pub open spec fn given_or_own(
    given: Option<AdvanceSide>,
    a: Spot,
    b: Spot,
    dir: AdvanceDirection,
    is_from: bool,
    same_lane: bool,
) -> AdvanceSide {
    match given {
        Some(s) => s,
        None => own_side(a, b, dir, is_from, same_lane),
    }
}

/// The route of an edge between the placed nodes `a` and `b`, which the
/// diagram's nodes `from` and `to` stand for.
pub open spec fn edge_path(
    nodes: Seq<SceneNodeView>,
    e: LaneEdgeView,
    a: SceneNodeView,
    b: SceneNodeView,
    from: LaneNodeView,
    to: LaneNodeView,
    fan: int,
    dir: AdvanceDirection,
) -> Seq<(int, int)> {
    let sa = spot(a);
    let sb = spot(b);
    let same = a.lane == b.lane || e.from == e.to;
    let n = nodes.len() as int;
    if terminal(e.from_end) || terminal(e.to_end) {
        let fs = end_side(from, e.from_end, e.from_side, sa, sb, dir, true, same);
        let ts = end_side(to, e.to_end, e.to_side, sa, sb, dir, false, same);
        let (t0, b0) = end_points(a, e.from_end, fs);
        let (t3, b3) = end_points(b, e.to_end, ts);
        without_repeats(seq![t0] + ported_path(sa, fs, b0, sb, ts, b3, fan) + seq![t3])
    } else if e.from_side is None && e.to_side is None {
        if e.from == e.to {
            loop_path(sa, fan, dir)
        } else if a.lane == b.lane {
            same_lane_path(sa, sb, others(nodes, n, a.id, b.id, Some(a.lane)), fan, dir)
        } else {
            cross_lane_path(sa, sb, others(nodes, n, a.id, b.id, None), fan, dir)
        }
    } else {
        let fs = given_or_own(e.from_side, sa, sb, dir, true, same);
        let ts = given_or_own(e.to_side, sa, sb, dir, false, same);
        ported_path(sa, fs, side_middle(sa, fs), sb, ts, side_middle(sb, ts), fan)
    }
}

fn route_terminal(
    e: &AdvanceEdge,
    a: &AdvanceSceneNode,
    b: &AdvanceSceneNode,
    from: &AdvanceNode,
    to: &AdvanceNode,
    fan: Px,
    dir: AdvanceDirection,
    same: bool,
) -> (r: Vec<Point>)
    requires
        node_near(a@),
        node_near(b@),
        near(fan as int, 1),
        same == (a@.lane == b@.lane || e@.from == e@.to),
        terminal(e@.from_end) || terminal(e@.to_end),
    ensures
        forall|nodes: Seq<SceneNodeView>| #[trigger]
            edge_path(nodes, e@, a@, b@, from@, to@, fan as int, dir) == course(r@),
        course_near(r@, 4),
{
    let sa = spot_of(a);
    let sb = spot_of(b);
    let fs = side_for(from, &e.from_end, e.from_side, sa, sb, dir, true, same);
    let ts = side_for(to, &e.to_end, e.to_side, sa, sb, dir, false, same);
    let (t0, b0) = resolve_terminal(a, &e.from_end, fs);
    let (t3, b3) = resolve_terminal(b, &e.to_end, ts);
    let mut body = route_ported(sa, fs, b0, sb, ts, b3, fan);
    let ghost inner = course(body@);
    let mut pts: Vec<Point> = vec![t0];
    let ghost head = pts@;
    let ghost tail = body@;
    pts.append(&mut body);
    let ghost joined = pts@;
    pts.push(t3);
    assert(pts@ =~= head + tail + seq![t3]);
    assert(course(pts@) =~= seq![at(t0)] + inner + seq![at(t3)]);
    assert(course_near(pts@, 4)) by {
        assert forall|i: int| 0 <= i < pts@.len() implies point_near(at(#[trigger] pts@[i]), 4) by {
            if 0 < i < pts@.len() - 1 {
                assert(pts@[i] == tail[i - 1]);
            }
        }
    }
    dedup_pts(&pts)
}

fn route_one(
    nodes: &Vec<AdvanceSceneNode>,
    e: &AdvanceEdge,
    a: &AdvanceSceneNode,
    b: &AdvanceSceneNode,
    from: &AdvanceNode,
    to: &AdvanceNode,
    fan: Px,
    dir: AdvanceDirection,
) -> (r: Vec<Point>)
    requires
        nodes_near(scene_nodes(nodes@)),
        node_near(a@),
        node_near(b@),
        near(fan as int, 1),
    ensures
        course(r@) == edge_path(scene_nodes(nodes@), e@, a@, b@, from@, to@, fan as int, dir),
        course_near(r@, 4),
{
    let is_self = str_eq(e.from.as_str(), e.to.as_str());
    let one_lane = str_eq(a.lane.as_str(), b.lane.as_str());
    let same = one_lane || is_self;
    if e.from_end.is_terminal() || e.to_end.is_terminal() {
        return route_terminal(e, a, b, from, to, fan, dir, same);
    }
    let sa = spot_of(a);
    let sb = spot_of(b);
    if e.from_side.is_none() && e.to_side.is_none() {
        if is_self {
            route_self_loop(sa, fan, dir)
        } else if one_lane {
            let o = collect_others(
                nodes,
                a.id.as_str(),
                b.id.as_str(),
                Some(a.lane.as_str()),
            );
            route_same_lane(sa, sb, &o, fan, dir)
        } else {
            let o = collect_others(nodes, a.id.as_str(), b.id.as_str(), None);
            route_cross_lane(sa, sb, &o, fan, dir)
        }
    } else {
        let fs = match e.from_side {
            Some(s) => s,
            None => natural_side(sa, sb, dir, true, same),
        };
        let ts = match e.to_side {
            Some(s) => s,
            None => natural_side(sa, sb, dir, false, same),
        };
        route_ported(sa, fs, side_point(sa, fs), sb, ts, side_point(sb, ts), fan)
    }
}

/// How many of the first `k` edges run from `from` to `to`.
pub open spec fn parallel(edges: Seq<LaneEdgeView>, k: int, from: Seq<char>, to: Seq<char>) -> int
    decreases k,
{
    if k <= 0 {
        0
    } else {
        parallel(edges, k - 1, from, to) + (if edges[k - 1].from == from && edges[k - 1].to == to {
            1int
        } else {
            0
        })
    }
}

/// How far edge `k` is moved aside: parallel edges spread evenly around the
/// middle.
pub open spec fn fan_of(edges: Seq<LaneEdgeView>, k: int) -> int {
    let e = edges[k];
    let before = parallel(edges, k, e.from, e.to);
    let total = parallel(edges, edges.len() as int, e.from, e.to);
    bound((2 * before - total + 1) * HALF_FAN)
}

fn count_parallel(edges: &Vec<AdvanceEdge>, k: usize, from: &str, to: &str) -> (r: usize)
    requires
        k <= edges@.len(),
    ensures
        r == parallel(crate::advance::lane_edge_views(edges@), k as int, from@, to@),
        r <= k,
{
    let ghost all = crate::advance::lane_edge_views(edges@);
    let mut n: usize = 0;
    let mut i: usize = 0;
    while i < k
        invariant
            i <= k,
            k <= edges@.len(),
            all == crate::advance::lane_edge_views(edges@),
            n <= i,
            n == parallel(all, i as int, from@, to@),
        decreases k - i,
    {
        assert(all[i as int] == edges@[i as int]@);
        if str_eq(edges[i].from.as_str(), from) && str_eq(edges[i].to.as_str(), to) {
            n += 1;
        }
        i += 1;
    }
    n
}

fn find_fan(edges: &Vec<AdvanceEdge>, k: usize) -> (r: Px)
    requires
        k < edges@.len(),
    ensures
        r == fan_of(crate::advance::lane_edge_views(edges@), k as int),
        near(r as int, 1),
{
    let e = &edges[k];
    assert(crate::advance::lane_edge_views(edges@)[k as int] == e@);
    let before: usize = count_parallel(edges, k, e.from.as_str(), e.to.as_str());
    let total: usize = count_parallel(edges, edges.len(), e.from.as_str(), e.to.as_str());
    assert(before <= 0xffff_ffff_ffff_ffff && total <= 0xffff_ffff_ffff_ffff);
    let steps: i128 = 2 * before as i128 - total as i128 + 1;
    cut_wide(steps * 512000)
}

/// Whether every edge's ends are nodes of the diagram that are placed.
pub open spec fn ends_placed(d: DiagramView, nodes: Seq<SceneNodeView>) -> bool {
    forall|k: int|
        0 <= k < d.edges.len() ==> end_placed(d, nodes, (#[trigger] d.edges[k]).from) && end_placed(
            d,
            nodes,
            d.edges[k].to,
        )
}

pub open spec fn end_placed(d: DiagramView, nodes: Seq<SceneNodeView>, id: Seq<char>) -> bool {
    name_index(scene_ids(nodes), id) is Some && name_index(lane_node_ids(d.nodes), id) is Some
}

/// The route of edge `k` of a diagram.
pub open spec fn path_of(d: DiagramView, nodes: Seq<SceneNodeView>, k: int, dir: AdvanceDirection) -> Seq<
    (int, int),
> {
    let e = d.edges[k];
    edge_path(
        nodes,
        e,
        nodes[name_index(scene_ids(nodes), e.from)->Some_0],
        nodes[name_index(scene_ids(nodes), e.to)->Some_0],
        d.nodes[name_index(lane_node_ids(d.nodes), e.from)->Some_0],
        d.nodes[name_index(lane_node_ids(d.nodes), e.to)->Some_0],
        fan_of(d.edges, k),
        dir,
    )
}

/// The boxes that the label of an edge keeps off: those of all nodes but its
/// ends; for a loop those of all nodes.
pub open spec fn label_obstacles(nodes: Seq<SceneNodeView>, e: LaneEdgeView) -> Seq<Spot> {
    if e.from == e.to {
        all_spots(nodes)
    } else {
        others(nodes, nodes.len() as int, e.from, e.to, None)
    }
}

/// Where the label of edge `k` goes, behind the labels `placed`.
pub open spec fn label_at(
    d: DiagramView,
    nodes: Seq<SceneNodeView>,
    widths: Seq<Px>,
    k: int,
    dir: AdvanceDirection,
    placed: Seq<Frame>,
) -> Option<(int, int)> {
    if d.edges[k].label is Some {
        label_spot(
            places(path_of(d, nodes, k, dir)),
            widths[k] as int,
            label_obstacles(nodes, d.edges[k]),
            placed,
        )
    } else {
        None
    }
}

/// The boxes of the labels of the first `k` edges.
pub open spec fn placed_labels(
    d: DiagramView,
    nodes: Seq<SceneNodeView>,
    widths: Seq<Px>,
    k: int,
    dir: AdvanceDirection,
) -> Seq<Frame>
    decreases k,
{
    if k <= 0 {
        Seq::empty()
    } else {
        let before = placed_labels(d, nodes, widths, k - 1, dir);
        match label_at(d, nodes, widths, k - 1, dir, before) {
            Some(p) => before.push(label_frame(p, widths[k - 1] as int)),
            None => before,
        }
    }
}

/// Whether `r` is edge `k` of the diagram with its route and its label in
/// their places.
pub open spec fn is_routed(
    r: SceneEdgeView,
    d: DiagramView,
    nodes: Seq<SceneNodeView>,
    widths: Seq<Px>,
    k: int,
    dir: AdvanceDirection,
) -> bool {
    let e = d.edges[k];
    let a = nodes[name_index(scene_ids(nodes), e.from)->Some_0];
    let b = nodes[name_index(scene_ids(nodes), e.to)->Some_0];
    let path = path_of(d, nodes, k, dir);
    &&& r.from == e.from && r.to == e.to && r.label == e.label && r.kind == e.kind
    &&& r.style == e.style && r.from_side == e.from_side && r.to_side == e.to_side
    &&& r.from_end == e.from_end && r.to_end == e.to_end
    &&& course(r.points) == path
    &&& match label_at(d, nodes, widths, k, dir, placed_labels(d, nodes, widths, k, dir)) {
        Some(p) => r.label_pos matches Some(q) && at(q) == p,
        None => r.label_pos is None,
    }
    &&& at(r.from_point) == (if path.len() > 0 {
        path[0]
    } else {
        (a.x as int, a.y as int)
    })
    &&& at(r.to_point) == (if path.len() > 0 {
        path.last()
    } else {
        (b.x as int, b.y as int)
    })
}

fn place_label(
    nodes: &Vec<AdvanceSceneNode>,
    e: &AdvanceEdge,
    points: &Vec<Point>,
    width: Px,
    placed: &Vec<Rect>,
) -> (r: Option<Point>)
    requires
        nodes_near(scene_nodes(nodes@)),
        course_near(points@, 4),
        near(width as int, 1),
    ensures
        match label_spot(
            places(course(points@)),
            width as int,
            label_obstacles(scene_nodes(nodes@), e@),
            frames(placed@),
        ) {
            Some(p) => r matches Some(q) && at(q) == p && point_near(at(q), 5),
            None => r is None,
        },
{
    let candidates = label_candidates(points);
    let spots = if str_eq(e.from.as_str(), e.to.as_str()) {
        collect_spots(nodes)
    } else {
        collect_others(nodes, e.from.as_str(), e.to.as_str(), None)
    };
    choose_label_pos(&candidates, width, &spots, placed)
}

/// The largest widths that labels may have.
pub open spec fn widths_near(widths: Seq<Px>) -> bool {
    forall|k: int| 0 <= k < widths.len() ==> near((#[trigger] widths[k]) as int, 1)
}

/// Whether a routed edge is near enough to compute with.
pub open spec fn edge_near(e: SceneEdgeView) -> bool {
    &&& course_near(e.points, 4)
    &&& point_near(at(e.from_point), 4)
    &&& point_near(at(e.to_point), 4)
}

/// Route all edges of a diagram between its placed nodes. `widths` holds the
/// width of the label of each edge.
pub fn route_edges(
    d: &AdvanceDiagram,
    nodes: &Vec<AdvanceSceneNode>,
    widths: &Vec<Px>,
    dir: AdvanceDirection,
) -> (r: Vec<AdvanceSceneEdge>)
    requires
        ends_placed(d@, scene_nodes(nodes@)),
        nodes_near(scene_nodes(nodes@)),
        widths@.len() == d.edges@.len(),
        widths_near(widths@),
    ensures
        r@.len() == d.edges@.len(),
        forall|k: int|
            0 <= k < r@.len() ==> is_routed(
                (#[trigger] r@[k])@,
                d@,
                scene_nodes(nodes@),
                widths@,
                k,
                dir,
            ) && edge_near(r@[k]@),
{
    let ghost all = scene_nodes(nodes@);
    let mut out: Vec<AdvanceSceneEdge> = Vec::new();
    let mut placed: Vec<Rect> = Vec::new();
    let mut k: usize = 0;
    assert(frames(placed@) =~= Seq::empty());
    while k < d.edges.len()
        invariant
            k <= d.edges@.len(),
            all == scene_nodes(nodes@),
            ends_placed(d@, all),
            nodes_near(all),
            widths@.len() == d.edges@.len(),
            widths_near(widths@),
                frames(placed@) == placed_labels(d@, all, widths@, k as int, dir),
            out@.len() == k,
            forall|i: int|
                0 <= i < k ==> is_routed((#[trigger] out@[i])@, d@, all, widths@, i, dir)
                    && edge_near(out@[i]@),
        decreases d.edges@.len() - k,
    {
        let e = &d.edges[k];
        assert(d@.edges[k as int] == e@);
        assert(end_placed(d@, all, d@.edges[k as int].from));
        assert(near(widths@[k as int] as int, 1));
        let ghost before = out@;
        match (
            scene_node_index(nodes, e.from.as_str()),
            scene_node_index(nodes, e.to.as_str()),
            lane_node_index(&d.nodes, e.from.as_str()),
            lane_node_index(&d.nodes, e.to.as_str()),
        ) {
            (Some(i), Some(j), Some(f), Some(t)) => {
                let a = &nodes[i];
                let b = &nodes[j];
                assert(all[i as int] == a@ && all[j as int] == b@);
                assert(node_near(all[i as int]) && node_near(all[j as int]));
                assert(d@.nodes[f as int] == d.nodes@[f as int]@);
                assert(d@.nodes[t as int] == d.nodes@[t as int]@);
                let fan: Px = find_fan(&d.edges, k);
                let points = route_one(nodes, e, a, b, &d.nodes[f], &d.nodes[t], fan, dir);
                assert(course(points@) == path_of(d@, all, k as int, dir));
                let label_pos = match &e.label {
                    Some(_) => place_label(nodes, e, &points, widths[k], &placed),
                    None => None,
                };
                let ghost labels = placed@;
                if let Some(p) = label_pos {
                    placed.push(label_box(p, widths[k]));
                    assert(frames(placed@) =~= frames(labels).push(
                        label_frame(at(p), widths@[k as int] as int),
                    ));
                }
                let n: usize = points.len();
                let from_point = if n > 0 {
                    points[0]
                } else {
                    Point { x: a.x, y: a.y }
                };
                let to_point = if n > 0 {
                    points[n - 1]
                } else {
                    Point { x: b.x, y: b.y }
                };
                assert(course(points@).len() == n);
                let edge = AdvanceSceneEdge {
                    from: e.from.clone(),
                    to: e.to.clone(),
                    label: copy_opt(&e.label),
                    kind: e.kind,
                    points,
                    style: e.style.clone(),
                    from_side: e.from_side,
                    to_side: e.to_side,
                    label_pos,
                    from_point,
                    to_point,
                    from_end: e.from_end.clone(),
                    to_end: e.to_end.clone(),
                };
                assert(is_routed(edge@, d@, all, widths@, k as int, dir));
                assert(edge_near(edge@)) by {
                    if n > 0 {
                        assert(point_near(at(points@[0]), 4) && point_near(at(points@[n - 1]), 4));
                    }
                }
                out.push(edge);
            },
            _ => {},
        }
        k += 1;
        assert forall|i: int| 0 <= i < k implies is_routed(
            (#[trigger] out@[i])@,
            d@,
            all,
            widths@,
            i,
            dir,
        ) && edge_near(out@[i]@) by {
            if i < k - 1 {
                assert(out@[i] == before[i]);
            }
        }
    }
    out
}

} // verus!
