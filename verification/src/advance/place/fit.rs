//! Moving a scene onto its canvas.

use vstd::prelude::*;

use crate::advance::place::canvas::{lane_fits, lanes_fit};
use crate::advance::place::lengths::bounded;
use crate::advance::route::edges::{edge_near, node_near, nodes_near, spot};
use crate::advance::route::geometry::{
    at, course_near, greater, half, least, lesser, most, near, point_near, spot_near,
};
use crate::advance::scene::{
    scene_anchors, scene_edges, scene_elements, scene_lanes, scene_nodes, AdvanceScene,
    AdvanceSceneAnchor, AdvanceSceneEdge, AdvanceSceneElement, AdvanceSceneLane, AdvanceSceneNode,
    Point, Px, SceneAnchorView, SceneEdgeView, SceneElementView, SceneLaneView, SceneNodeView,
    SceneView,
};

verus! {

/// The leftmost edge among the first `k` lanes.
pub open spec fn lanes_left(lanes: Seq<SceneLaneView>, k: int) -> Option<int>
    decreases k,
{
    if k <= 0 {
        None
    } else {
        lesser_of(lanes_left(lanes, k - 1), lanes[k - 1].x as int)
    }
}

/// The topmost edge among the first `k` lanes.
pub open spec fn lanes_top(lanes: Seq<SceneLaneView>, k: int) -> Option<int>
    decreases k,
{
    if k <= 0 {
        None
    } else {
        lesser_of(lanes_top(lanes, k - 1), lanes[k - 1].y as int)
    }
}

pub open spec fn lesser_of(a: Option<int>, b: int) -> Option<int> {
    match a {
        Some(v) => Some(least(v, b)),
        None => Some(b),
    }
}

/// The leftmost edge among `from` and the first `k` nodes.
pub open spec fn nodes_left(nodes: Seq<SceneNodeView>, k: int, from: Option<int>) -> Option<int>
    decreases k,
{
    if k <= 0 {
        from
    } else {
        let n = nodes[k - 1];
        lesser_of(nodes_left(nodes, k - 1, from), n.x - n.w as int / 2)
    }
}

/// The topmost edge among `from` and the first `k` nodes.
pub open spec fn nodes_top(nodes: Seq<SceneNodeView>, k: int, from: Option<int>) -> Option<int>
    decreases k,
{
    if k <= 0 {
        from
    } else {
        let n = nodes[k - 1];
        lesser_of(nodes_top(nodes, k - 1, from), n.y - n.h as int / 2)
    }
}

/// How far something that starts at `first` has to move to start at `pad`.
pub open spec fn move_to(first: Option<int>, pad: int) -> int {
    match first {
        Some(v) => most(pad - v, 0),
        None => 0,
    }
}

/// How far a scene has to move to the right.
pub open spec fn move_right(sc: SceneView, pad: int) -> int {
    move_to(
        nodes_left(
            sc.nodes,
            sc.nodes.len() as int,
            lanes_left(sc.lanes, sc.lanes.len() as int),
        ),
        pad,
    )
}

/// How far a scene has to move down.
pub open spec fn move_down(sc: SceneView, pad: int) -> int {
    move_to(
        nodes_top(
            sc.nodes,
            sc.nodes.len() as int,
            lanes_top(sc.lanes, sc.lanes.len() as int),
        ),
        pad,
    )
}

pub open spec fn moved_lane(l: SceneLaneView, dx: int, dy: int) -> SceneLaneView {
    SceneLaneView {
        id: l.id,
        title: l.title,
        x: (l.x + dx) as Px,
        y: (l.y + dy) as Px,
        w: l.w,
        h: l.h,
    }
}

pub open spec fn moved_element(e: SceneElementView, dx: int, dy: int) -> SceneElementView {
    SceneElementView {
        id: e.id,
        label: e.label,
        path: e.path,
        parent: e.parent,
        x: (e.x + dx) as Px,
        y: (e.y + dy) as Px,
        w: e.w,
        h: e.h,
        style: e.style,
    }
}

pub open spec fn moved_anchor(a: SceneAnchorView, dx: int, dy: int) -> SceneAnchorView {
    SceneAnchorView {
        id: a.id,
        side: a.side,
        element: a.element,
        x: (a.x + dx) as Px,
        y: (a.y + dy) as Px,
    }
}

pub open spec fn moved_node(n: SceneNodeView, dx: int, dy: int) -> SceneNodeView {
    SceneNodeView {
        id: n.id,
        label: n.label,
        lane: n.lane,
        x: (n.x + dx) as Px,
        y: (n.y + dy) as Px,
        w: n.w,
        h: n.h,
        shape: n.shape,
        style: n.style,
        elements: n.elements.map_values(|e: SceneElementView| moved_element(e, dx, dy)),
        anchors: n.anchors.map_values(|a: SceneAnchorView| moved_anchor(a, dx, dy)),
    }
}

pub open spec fn moved_point(p: Point, dx: int, dy: int) -> Point {
    Point { x: (p.x + dx) as Px, y: (p.y + dy) as Px }
}

/// An edge moved with its route. The place of its label stays.
pub open spec fn moved_edge(e: SceneEdgeView, dx: int, dy: int) -> SceneEdgeView {
    SceneEdgeView {
        from: e.from,
        to: e.to,
        label: e.label,
        kind: e.kind,
        points: e.points.map_values(|p: Point| moved_point(p, dx, dy)),
        style: e.style,
        from_side: e.from_side,
        to_side: e.to_side,
        label_pos: e.label_pos,
        from_point: moved_point(e.from_point, dx, dy),
        to_point: moved_point(e.to_point, dx, dy),
        from_end: e.from_end,
        to_end: e.to_end,
    }
}

/// A scene moved by `(dx, dy)`, on a canvas that grows as much.
pub open spec fn moved(sc: SceneView, dx: int, dy: int) -> SceneView {
    SceneView {
        width: (sc.width + dx) as Px,
        height: (sc.height + dy) as Px,
        title: sc.title,
        description: sc.description,
        direction: sc.direction,
        style: sc.style,
        lanes: sc.lanes.map_values(|l: SceneLaneView| moved_lane(l, dx, dy)),
        nodes: sc.nodes.map_values(|n: SceneNodeView| moved_node(n, dx, dy)),
        edges: sc.edges.map_values(|e: SceneEdgeView| moved_edge(e, dx, dy)),
    }
}

/// A scene moved so that nothing is left of or above `pad`.
pub open spec fn fitted(sc: SceneView, pad: int) -> SceneView {
    let dx = move_right(sc, pad);
    let dy = move_down(sc, pad);
    if dx > 0 || dy > 0 {
        moved(sc, dx, dy)
    } else {
        sc
    }
}

/// Whether a scene is near enough to be moved.
pub open spec fn scene_near(sc: SceneView) -> bool {
    &&& bounded(sc.width as int) && bounded(sc.height as int)
    &&& lanes_fit(sc.lanes)
    &&& nodes_near(sc.nodes)
    &&& forall|i: int| 0 <= i < sc.edges.len() ==> edge_near(#[trigger] sc.edges[i])
}

fn shift(v: Px, by: Px) -> (r: Px)
    requires
        near(v as int, 5),
        near(by as int, 4),
    ensures
        r == v + by,
{
    v + by
}

fn shift_lanes(v: &mut Vec<AdvanceSceneLane>, dx: Px, dy: Px)
    requires
        lanes_fit(scene_lanes(old(v)@)),
        near(dx as int, 4),
        near(dy as int, 4),
    ensures
        scene_lanes(final(v)@) == scene_lanes(old(v)@).map_values(
            |l: SceneLaneView| moved_lane(l, dx as int, dy as int),
        ),
{
    let ghost before = scene_lanes(v@);
    let mut i: usize = 0;
    while i < v.len()
        invariant
            i <= v@.len(),
            v@.len() == before.len(),
            lanes_fit(before),
            near(dx as int, 4),
            near(dy as int, 4),
            forall|k: int|
                0 <= k < i ==> (#[trigger] v@[k])@ == moved_lane(before[k], dx as int, dy as int),
            forall|k: int| i <= k < v@.len() ==> (#[trigger] v@[k])@ == before[k],
        decreases v@.len() - i,
    {
        assert(v@[i as int]@ == before[i as int]);
        assert(lane_fits(before[i as int]));
        let x: Px = shift(v[i].x, dx);
        let y: Px = shift(v[i].y, dy);
        v[i].x = x;
        v[i].y = y;
        i += 1;
    }
    assert(scene_lanes(v@) =~= before.map_values(
        |l: SceneLaneView| moved_lane(l, dx as int, dy as int),
    ));
}

fn shift_elements(v: &mut Vec<AdvanceSceneElement>, dx: Px, dy: Px)
    requires
        forall|i: int|
            0 <= i < old(v)@.len() ==> near((#[trigger] old(v)@[i]).x as int, 4) && near(
                old(v)@[i].y as int,
                4,
            ),
        near(dx as int, 4),
        near(dy as int, 4),
    ensures
        scene_elements(final(v)@) == scene_elements(old(v)@).map_values(
            |e: SceneElementView| moved_element(e, dx as int, dy as int),
        ),
{
    let ghost start = v@;
    let ghost before = scene_elements(v@);
    let mut i: usize = 0;
    while i < v.len()
        invariant
            i <= v@.len(),
            v@.len() == start.len(),
            before == scene_elements(start),
            forall|k: int|
                0 <= k < start.len() ==> near((#[trigger] start[k]).x as int, 4) && near(
                    start[k].y as int,
                    4,
                ),
            near(dx as int, 4),
            near(dy as int, 4),
            forall|k: int|
                0 <= k < i ==> (#[trigger] v@[k])@ == moved_element(
                    before[k],
                    dx as int,
                    dy as int,
                ),
            forall|k: int| i <= k < v@.len() ==> (#[trigger] v@[k]) == start[k],
        decreases v@.len() - i,
    {
        assert(v@[i as int] == start[i as int]);
        assert(before[i as int] == start[i as int]@);
        let x: Px = shift(v[i].x, dx);
        let y: Px = shift(v[i].y, dy);
        v[i].x = x;
        v[i].y = y;
        i += 1;
    }
    assert(scene_elements(v@) =~= before.map_values(
        |e: SceneElementView| moved_element(e, dx as int, dy as int),
    ));
}

fn shift_anchors(v: &mut Vec<AdvanceSceneAnchor>, dx: Px, dy: Px)
    requires
        forall|i: int|
            0 <= i < old(v)@.len() ==> near((#[trigger] old(v)@[i]).x as int, 4) && near(
                old(v)@[i].y as int,
                4,
            ),
        near(dx as int, 4),
        near(dy as int, 4),
    ensures
        scene_anchors(final(v)@) == scene_anchors(old(v)@).map_values(
            |a: SceneAnchorView| moved_anchor(a, dx as int, dy as int),
        ),
{
    let ghost start = v@;
    let ghost before = scene_anchors(v@);
    let mut i: usize = 0;
    while i < v.len()
        invariant
            i <= v@.len(),
            v@.len() == start.len(),
            before == scene_anchors(start),
            forall|k: int|
                0 <= k < start.len() ==> near((#[trigger] start[k]).x as int, 4) && near(
                    start[k].y as int,
                    4,
                ),
            near(dx as int, 4),
            near(dy as int, 4),
            forall|k: int|
                0 <= k < i ==> (#[trigger] v@[k])@ == moved_anchor(
                    before[k],
                    dx as int,
                    dy as int,
                ),
            forall|k: int| i <= k < v@.len() ==> (#[trigger] v@[k]) == start[k],
        decreases v@.len() - i,
    {
        assert(v@[i as int] == start[i as int]);
        assert(before[i as int] == start[i as int]@);
        let x: Px = shift(v[i].x, dx);
        let y: Px = shift(v[i].y, dy);
        v[i].x = x;
        v[i].y = y;
        i += 1;
    }
    assert(scene_anchors(v@) =~= before.map_values(
        |a: SceneAnchorView| moved_anchor(a, dx as int, dy as int),
    ));
}

fn shift_node(n: AdvanceSceneNode, dx: Px, dy: Px) -> (r: AdvanceSceneNode)
    requires
        node_near(n@),
        near(dx as int, 4),
        near(dy as int, 4),
    ensures
        r@ == moved_node(n@, dx as int, dy as int),
{
    let ghost whole = n@;
    let mut elements = n.elements;
    let mut anchors = n.anchors;
    proof {
        assert(spot_near(spot(whole)));
        assert forall|i: int| 0 <= i < elements@.len() implies near(
            (#[trigger] elements@[i]).x as int,
            4,
        ) && near(elements@[i].y as int, 4) by {
            assert(whole.elements[i] == elements@[i]@);
            assert(spot_near(crate::advance::route::edges::element_spot(whole.elements[i])));
        }
        assert forall|i: int| 0 <= i < anchors@.len() implies near(
            (#[trigger] anchors@[i]).x as int,
            4,
        ) && near(anchors@[i].y as int, 4) by {
            assert(whole.anchors[i] == anchors@[i]@);
        }
    }
    shift_elements(&mut elements, dx, dy);
    shift_anchors(&mut anchors, dx, dy);
    AdvanceSceneNode {
        id: n.id,
        label: n.label,
        lane: n.lane,
        x: shift(n.x, dx),
        y: shift(n.y, dy),
        w: n.w,
        h: n.h,
        shape: n.shape,
        style: n.style,
        elements,
        anchors,
    }
}

fn shift_points(v: &Vec<Point>, dx: Px, dy: Px) -> (r: Vec<Point>)
    requires
        course_near(v@, 4),
        near(dx as int, 4),
        near(dy as int, 4),
    ensures
        r@ == v@.map_values(|p: Point| moved_point(p, dx as int, dy as int)),
{
    let ghost want = v@.map_values(|p: Point| moved_point(p, dx as int, dy as int));
    let mut r: Vec<Point> = Vec::new();
    let mut i: usize = 0;
    while i < v.len()
        invariant
            i <= v@.len(),
            course_near(v@, 4),
            near(dx as int, 4),
            near(dy as int, 4),
            want == v@.map_values(|p: Point| moved_point(p, dx as int, dy as int)),
            r@ == want.take(i as int),
        decreases v@.len() - i,
    {
        assert(point_near(at(v@[i as int]), 4));
        r.push(Point { x: shift(v[i].x, dx), y: shift(v[i].y, dy) });
        i += 1;
        assert(r@ =~= want.take(i as int));
    }
    assert(want.take(want.len() as int) =~= want);
    r
}

fn shift_edge(e: AdvanceSceneEdge, dx: Px, dy: Px) -> (r: AdvanceSceneEdge)
    requires
        edge_near(e@),
        near(dx as int, 4),
        near(dy as int, 4),
    ensures
        r@ == moved_edge(e@, dx as int, dy as int),
{
    AdvanceSceneEdge {
        points: shift_points(&e.points, dx, dy),
        from_point: Point { x: shift(e.from_point.x, dx), y: shift(e.from_point.y, dy) },
        to_point: Point { x: shift(e.to_point.x, dx), y: shift(e.to_point.y, dy) },
        from: e.from,
        to: e.to,
        label: e.label,
        kind: e.kind,
        style: e.style,
        from_side: e.from_side,
        to_side: e.to_side,
        label_pos: e.label_pos,
        from_end: e.from_end,
        to_end: e.to_end,
    }
}

fn shift_nodes(v: Vec<AdvanceSceneNode>, dx: Px, dy: Px) -> (r: Vec<AdvanceSceneNode>)
    requires
        nodes_near(scene_nodes(v@)),
        near(dx as int, 4),
        near(dy as int, 4),
    ensures
        scene_nodes(r@) == scene_nodes(v@).map_values(
            |n: SceneNodeView| moved_node(n, dx as int, dy as int),
        ),
{
    let ghost all = scene_nodes(v@);
    let ghost want = all.map_values(|n: SceneNodeView| moved_node(n, dx as int, dy as int));
    let ghost start = v@;
    let mut rest = v;
    let mut back: Vec<AdvanceSceneNode> = Vec::new();
    while rest.len() > 0
        invariant
            start.len() == all.len(),
            all == scene_nodes(start),
            nodes_near(all),
            near(dx as int, 4),
            near(dy as int, 4),
            want == all.map_values(|n: SceneNodeView| moved_node(n, dx as int, dy as int)),
            rest@ == start.take(rest@.len() as int),
            rest@.len() + back@.len() == start.len(),
            forall|k: int|
                0 <= k < back@.len() ==> (#[trigger] back@[k])@ == want[start.len() - 1 - k],
        decreases rest@.len(),
    {
        let ghost n = rest@.len() as int;
        match rest.pop() {
            Some(node) => {
                assert(node == start[n - 1]);
                assert(all[n - 1] == node@);
                assert(node_near(all[n - 1]));
                assert(rest@ =~= start.take(n - 1));
                back.push(shift_node(node, dx, dy));
            },
            None => {},
        }
    }
    let mut r: Vec<AdvanceSceneNode> = Vec::new();
    let ghost turned = back@;
    while back.len() > 0
        invariant
            turned.len() == want.len(),
            start.len() == want.len(),
            forall|k: int|
                0 <= k < turned.len() ==> (#[trigger] turned[k])@ == want[start.len() - 1 - k],
            back@ == turned.take(back@.len() as int),
            r@.len() + back@.len() == turned.len(),
            forall|k: int| 0 <= k < r@.len() ==> (#[trigger] r@[k])@ == want[k],
        decreases back@.len(),
    {
        let ghost n = back@.len() as int;
        match back.pop() {
            Some(node) => {
                assert(node == turned[n - 1]);
                assert(back@ =~= turned.take(n - 1));
                r.push(node);
            },
            None => {},
        }
    }
    assert(scene_nodes(r@) =~= want);
    r
}

fn shift_edges(v: Vec<AdvanceSceneEdge>, dx: Px, dy: Px) -> (r: Vec<AdvanceSceneEdge>)
    requires
        forall|i: int| 0 <= i < scene_edges(v@).len() ==> edge_near(#[trigger] scene_edges(v@)[i]),
        near(dx as int, 4),
        near(dy as int, 4),
    ensures
        scene_edges(r@) == scene_edges(v@).map_values(
            |e: SceneEdgeView| moved_edge(e, dx as int, dy as int),
        ),
{
    let ghost all = scene_edges(v@);
    let ghost want = all.map_values(|e: SceneEdgeView| moved_edge(e, dx as int, dy as int));
    let ghost start = v@;
    let mut rest = v;
    let mut back: Vec<AdvanceSceneEdge> = Vec::new();
    while rest.len() > 0
        invariant
            start.len() == all.len(),
            all == scene_edges(start),
            forall|i: int| 0 <= i < all.len() ==> edge_near(#[trigger] all[i]),
            near(dx as int, 4),
            near(dy as int, 4),
            want == all.map_values(|e: SceneEdgeView| moved_edge(e, dx as int, dy as int)),
            rest@ == start.take(rest@.len() as int),
            rest@.len() + back@.len() == start.len(),
            forall|k: int|
                0 <= k < back@.len() ==> (#[trigger] back@[k])@ == want[start.len() - 1 - k],
        decreases rest@.len(),
    {
        let ghost n = rest@.len() as int;
        match rest.pop() {
            Some(edge) => {
                assert(edge == start[n - 1]);
                assert(all[n - 1] == edge@);
                assert(edge_near(all[n - 1]));
                assert(rest@ =~= start.take(n - 1));
                back.push(shift_edge(edge, dx, dy));
            },
            None => {},
        }
    }
    let mut r: Vec<AdvanceSceneEdge> = Vec::new();
    let ghost turned = back@;
    while back.len() > 0
        invariant
            turned.len() == want.len(),
            start.len() == want.len(),
            forall|k: int|
                0 <= k < turned.len() ==> (#[trigger] turned[k])@ == want[start.len() - 1 - k],
            back@ == turned.take(back@.len() as int),
            r@.len() + back@.len() == turned.len(),
            forall|k: int| 0 <= k < r@.len() ==> (#[trigger] r@[k])@ == want[k],
        decreases back@.len(),
    {
        let ghost n = back@.len() as int;
        match back.pop() {
            Some(edge) => {
                assert(edge == turned[n - 1]);
                assert(back@ =~= turned.take(n - 1));
                r.push(edge);
            },
            None => {},
        }
    }
    assert(scene_edges(r@) =~= want);
    r
}

spec fn opt_int(o: Option<Px>) -> Option<int> {
    match o {
        Some(v) => Some(v as int),
        None => None,
    }
}

fn smaller(a: Option<Px>, b: Px) -> (r: Option<Px>)
    requires
        a matches Some(v) ==> near(v as int, 2),
        near(b as int, 2),
    ensures
        opt_int(r) == lesser_of(opt_int(a), b as int),
        r matches Some(v) ==> near(v as int, 2),
{
    match a {
        Some(v) => Some(lesser(v, b)),
        None => Some(b),
    }
}

fn distance_to(first: Option<Px>, pad: Px) -> (r: Px)
    requires
        first matches Some(v) ==> near(v as int, 2),
        bounded(pad as int),
    ensures
        r == move_to(opt_int(first), pad as int),
        near(r as int, 4),
{
    match first {
        Some(v) => greater(pad - v, 0),
        None => 0,
    }
}

/// Move a scene so that nothing is left of or above `pad`.
pub fn fit_canvas(sc: AdvanceScene, pad: Px) -> (r: AdvanceScene)
    requires
        scene_near(sc@),
        bounded(pad as int),
    ensures
        r@ == fitted(sc@, pad as int),
{
    let ghost whole = sc@;
    let mut left: Option<Px> = None;
    let mut top: Option<Px> = None;
    let mut i: usize = 0;
    while i < sc.lanes.len()
        invariant
            i <= sc.lanes@.len(),
            whole == sc@,
            scene_near(whole),
            opt_int(left) == lanes_left(whole.lanes, i as int),
            opt_int(top) == lanes_top(whole.lanes, i as int),
            left matches Some(v) ==> near(v as int, 2),
            top matches Some(v) ==> near(v as int, 2),
        decreases sc.lanes@.len() - i,
    {
        assert(whole.lanes[i as int] == sc.lanes@[i as int]@);
        assert(lane_fits(whole.lanes[i as int]));
        left = smaller(left, sc.lanes[i].x);
        top = smaller(top, sc.lanes[i].y);
        i += 1;
    }
    let ghost from_left = opt_int(left);
    let ghost from_top = opt_int(top);
    let mut i: usize = 0;
    while i < sc.nodes.len()
        invariant
            i <= sc.nodes@.len(),
            whole == sc@,
            scene_near(whole),
            opt_int(left) == nodes_left(whole.nodes, i as int, from_left),
            opt_int(top) == nodes_top(whole.nodes, i as int, from_top),
            left matches Some(v) ==> near(v as int, 2),
            top matches Some(v) ==> near(v as int, 2),
        decreases sc.nodes@.len() - i,
    {
        assert(whole.nodes[i as int] == sc.nodes@[i as int]@);
        assert(node_near(whole.nodes[i as int]));
        assert(spot_near(spot(whole.nodes[i as int])));
        left = smaller(left, sc.nodes[i].x - half(sc.nodes[i].w));
        top = smaller(top, sc.nodes[i].y - half(sc.nodes[i].h));
        i += 1;
    }
    let dx: Px = distance_to(left, pad);
    let dy: Px = distance_to(top, pad);
    assert(dx == move_right(whole, pad as int));
    assert(dy == move_down(whole, pad as int));
    if dx > 0 || dy > 0 {
        let mut lanes = sc.lanes;
        shift_lanes(&mut lanes, dx, dy);
        let nodes = shift_nodes(sc.nodes, dx, dy);
        let edges = shift_edges(sc.edges, dx, dy);
        AdvanceScene {
            width: shift(sc.width, dx),
            height: shift(sc.height, dy),
            title: sc.title,
            description: sc.description,
            direction: sc.direction,
            style: sc.style,
            lanes,
            nodes,
            edges,
        }
    } else {
        sc
    }
}

} // verus!
