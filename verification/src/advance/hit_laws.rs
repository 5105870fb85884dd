//! Picking finds what lies at the point.

use vstd::prelude::*;

use crate::advance::hit::{
    apart, box_distance2, distance2, element_holds, fraction_less, holds, innermost, lane_holds,
    nearest_anchor, nearest_box, nearest_edge, nearest_on, picked, route_distance2,
    segment_distance2, smallest_lane, topmost, AdvanceHit, FoundAnchor,
};
use crate::advance::scene::{
    Point, SceneAnchorView, SceneEdgeView, SceneElementView, SceneLaneView, SceneNodeView, SceneView,
};
use crate::model::{EdgeKind, Shape};

verus! {

/// The square of the distance of two points.
pub open spec fn gap2(x: int, y: int, a: int, b: int) -> int {
    (x - a) * (x - a) + (y - b) * (y - b)
}

/// Whether a point lies in a box around a centre.
pub open spec fn in_box(cx: int, cy: int, w: int, h: int, x: int, y: int) -> bool {
    2 * cx - w <= 2 * x <= 2 * cx + w && 2 * cy - h <= 2 * y <= 2 * cy + h
}

proof fn lemma_gap2(x: int, y: int, a: int, b: int)
    ensures
        distance2(x, y, a, b) == gap2(x, y, a, b),
        0 <= gap2(x, y, a, b),
{
    let (u, v) = (x - a, y - b);
    assert(u * u == (-u) * (-u)) by (nonlinear_arith);
    assert(v * v == (-v) * (-v)) by (nonlinear_arith);
    assert(0 <= u * u && 0 <= v * v) by (nonlinear_arith);
}

/// A node holds its centre, and nothing outside the box around it. Circles
/// hold the points within half their width of the centre. Diamonds hold the
/// points of their two axes that lie in the box, and of the corners of the
/// box none. All other shapes hold just the points of the box.
pub proof fn law_nodes_hold_their_points(n: SceneNodeView, x: int, y: int)
    requires
        n.w > 0,
        n.h > 0,
    ensures
        ({
            let (cx, cy, w, h) = (n.x as int, n.y as int, n.w as int, n.h as int);
            let round = n.shape == Shape::Circle || n.shape == Shape::DoubleCircle;
            &&& holds(n, cx, cy)
            &&& round ==> holds(n, x, y) == (4 * gap2(x, y, cx, cy) <= w * w)
            &&& !round && holds(n, x, y) ==> in_box(cx, cy, w, h, x, y)
            &&& !round && n.shape != Shape::Diamond && in_box(cx, cy, w, h, x, y) ==> holds(n, x, y)
            &&& n.shape == Shape::Diamond && (x == cx || y == cy) && in_box(cx, cy, w, h, x, y)
                ==> holds(n, x, y)
            &&& n.shape == Shape::Diamond && (2 * x == 2 * cx - w || 2 * x == 2 * cx + w) && (2 * y
                == 2 * cy - h || 2 * y == 2 * cy + h) ==> !holds(n, x, y)
        }),
{
    let (cx, cy, w, h) = (n.x as int, n.y as int, n.w as int, n.h as int);
    let (dx, dy) = (apart(x, cx), apart(y, cy));
    lemma_gap2(x, y, cx, cy);
    assert(0 < w * h && 0 < w * w) by (nonlinear_arith)
        requires
            0 < w,
            0 < h,
    ;
    assert(0 * w == 0 && 0 * h == 0 && apart(cx, cx) == 0 && apart(cy, cy) == 0);
    assert(0int * 0int == 0);
    if n.shape == Shape::Diamond {
        assert(2 * (dx * h) + 2 * (dy * w) <= w * h ==> 2 * dx <= w && 2 * dy <= h)
            by (nonlinear_arith)
            requires
                0 <= dx,
                0 <= dy,
                0 < w,
                0 < h,
        ;
        assert(dx == 0 && 2 * dy <= h ==> 2 * (dx * h) + 2 * (dy * w) <= w * h)
            by (nonlinear_arith)
            requires
                0 < w,
                0 < h,
        ;
        assert(dy == 0 && 2 * dx <= w ==> 2 * (dx * h) + 2 * (dy * w) <= w * h)
            by (nonlinear_arith)
            requires
                0 < w,
                0 < h,
        ;
        assert(2 * dx == w && 2 * dy == h ==> 2 * (dx * h) + 2 * (dy * w) == 2 * (w * h))
            by (nonlinear_arith);
    }
}

/// The node at a point is the last one that holds it; there is none only
/// where no node holds it.
pub proof fn law_topmost_node_is_the_last(nodes: Seq<SceneNodeView>, k: int, x: int, y: int)
    requires
        0 <= k <= nodes.len(),
    ensures
        match topmost(nodes, k, x, y) {
            Some(n) => {
                &&& 0 <= n < k
                &&& holds(nodes[n], x, y)
                &&& forall|i: int| n < i < k ==> !holds(#[trigger] nodes[i], x, y)
            },
            None => forall|i: int| 0 <= i < k ==> !holds(#[trigger] nodes[i], x, y),
        },
    decreases k,
{
    if k > 0 {
        law_topmost_node_is_the_last(nodes, k - 1, x, y);
    }
}

/// Whether `d` is the square of the distance of the nearest anchor, and the
/// anchor that was found is one at that distance within `tol`.
spec fn anchor_found(nodes: Seq<SceneNodeView>, f: FoundAnchor, x: int, y: int, tol: int) -> bool {
    match f {
        Some(b) => {
            let anchor = nodes[b.0].anchors[b.1];
            &&& b.2 == gap2(x, y, anchor.x as int, anchor.y as int)
            &&& 0 <= tol
            &&& b.2 <= tol * tol
        },
        None => true,
    }
}

/// Whether an anchor is no better than what was found.
pub open spec fn no_nearer(a: SceneAnchorView, f: FoundAnchor, x: int, y: int, tol: int) -> bool {
    let d = gap2(x, y, a.x as int, a.y as int);
    match f {
        Some(b) => b.2 <= d,
        None => tol < 0 || tol * tol < d,
    }
}

proof fn lemma_nearest_on(
    nodes: Seq<SceneNodeView>,
    n: int,
    k: int,
    x: int,
    y: int,
    tol: int,
    best: FoundAnchor,
)
    requires
        0 <= n < nodes.len(),
        0 <= k <= nodes[n].anchors.len(),
        anchor_found(nodes, best, x, y, tol),
        best matches Some(b) ==> 0 <= b.0 < n && 0 <= b.1 < nodes[b.0].anchors.len(),
    ensures
        ({
            let f = nearest_on(nodes[n].anchors, n, k, x, y, tol, best);
            &&& anchor_found(nodes, f, x, y, tol)
            &&& f matches Some(b) ==> 0 <= b.0 <= n && 0 <= b.1 < nodes[b.0].anchors.len()
            &&& best matches Some(o) ==> (f matches Some(b) && b.2 <= o.2)
            &&& forall|j: int|
                0 <= j < k ==> no_nearer(#[trigger] nodes[n].anchors[j], f, x, y, tol)
        }),
    decreases k,
{
    if k > 0 {
        lemma_nearest_on(nodes, n, k - 1, x, y, tol, best);
        let a = nodes[n].anchors[k - 1];
        lemma_gap2(x, y, a.x as int, a.y as int);
        let before = nearest_on(nodes[n].anchors, n, k - 1, x, y, tol, best);
        assert forall|j: int| 0 <= j < k implies no_nearer(
            #[trigger] nodes[n].anchors[j],
            nearest_on(nodes[n].anchors, n, k, x, y, tol, best),
            x,
            y,
            tol,
        ) by {
            if j < k - 1 {
                assert(no_nearer(nodes[n].anchors[j], before, x, y, tol));
            }
        }
    }
}

/// The anchor at a point is within `tol` of it, and no anchor of any node is
/// nearer; there is none only where no anchor is within `tol`.
pub proof fn law_nearest_anchor_is_nearest(
    nodes: Seq<SceneNodeView>,
    k: int,
    x: int,
    y: int,
    tol: int,
)
    requires
        0 <= k <= nodes.len(),
    ensures
        ({
            let f = nearest_anchor(nodes, k, x, y, tol);
            &&& f matches Some(b) ==> {
                let anchor = nodes[b.0].anchors[b.1];
                &&& 0 <= b.0 < k && 0 <= b.1 < nodes[b.0].anchors.len()
                &&& 0 <= tol && gap2(x, y, anchor.x as int, anchor.y as int) <= tol * tol
                &&& b.2 == gap2(x, y, anchor.x as int, anchor.y as int)
            }
            &&& forall|i: int, j: int|
                0 <= i < k && 0 <= j < nodes[i].anchors.len() ==> no_nearer(
                    #[trigger] nodes[i].anchors[j],
                    f,
                    x,
                    y,
                    tol,
                )
        }),
    decreases k,
{
    if k > 0 {
        law_nearest_anchor_is_nearest(nodes, k - 1, x, y, tol);
        let before = nearest_anchor(nodes, k - 1, x, y, tol);
        let n = nodes[k - 1].anchors.len() as int;
        lemma_nearest_on(nodes, k - 1, n, x, y, tol, before);
        let f = nearest_anchor(nodes, k, x, y, tol);
        assert forall|i: int, j: int| 0 <= i < k && 0 <= j < nodes[i].anchors.len() implies no_nearer(
            #[trigger] nodes[i].anchors[j],
            f,
            x,
            y,
            tol,
        ) by {
            if i < k - 1 {
                assert(no_nearer(nodes[i].anchors[j], before, x, y, tol));
            }
        }
    }
}

/// The sub-element at a point holds it in its box, and no other that does
/// lies deeper; there is none only where no box holds it.
pub proof fn law_innermost_element_is_deepest(
    elements: Seq<SceneElementView>,
    k: int,
    x: int,
    y: int,
)
    requires
        0 <= k <= elements.len(),
    ensures
        match innermost(elements, k, x, y) {
            Some(b) => {
                let e = elements[b.0];
                &&& 0 <= b.0 < k
                &&& in_box(e.x as int, e.y as int, e.w as int, e.h as int, x, y)
                &&& b.1 == e.path.len()
                &&& forall|i: int|
                    0 <= i < k && element_holds(#[trigger] elements[i], x, y)
                        ==> elements[i].path.len() <= e.path.len() && (elements[i].path.len()
                        == e.path.len() ==> i <= b.0)
            },
            None => forall|i: int| 0 <= i < k ==> !element_holds(#[trigger] elements[i], x, y),
        },
    decreases k,
{
    if k > 0 {
        law_innermost_element_is_deepest(elements, k - 1, x, y);
    }
}

/// A sub-element holds just the points of its box.
pub proof fn law_elements_hold_their_boxes(e: SceneElementView, x: int, y: int)
    ensures
        element_holds(e, x, y) == in_box(e.x as int, e.y as int, e.w as int, e.h as int, x, y),
{
}

/// The lane at a point has it inside, and no lane that has is smaller.
pub proof fn law_lane_at_a_point_is_smallest(lanes: Seq<SceneLaneView>, k: int, x: int, y: int)
    requires
        0 <= k <= lanes.len(),
    ensures
        match smallest_lane(lanes, k, x, y) {
            Some(b) => {
                let l = lanes[b.0];
                &&& 0 <= b.0 < k
                &&& l.x <= x <= l.x + l.w && l.y <= y <= l.y + l.h
                &&& b.1 == l.w * l.h
                &&& forall|i: int|
                    0 <= i < k && lane_holds(#[trigger] lanes[i], x, y) ==> l.w * l.h
                        <= lanes[i].w * lanes[i].h
            },
            None => forall|i: int| 0 <= i < k ==> !lane_holds(#[trigger] lanes[i], x, y),
        },
    decreases k,
{
    if k > 0 {
        law_lane_at_a_point_is_smallest(lanes, k - 1, x, y);
    }
}

/// The distance of a point to a box, in half units: it is that to some point
/// of the box, and no point of the box is nearer.
pub proof fn law_box_distance_is_to_the_nearest_point(n: SceneNodeView, x: int, y: int)
    requires
        n.w >= 0,
        n.h >= 0,
    ensures
        ({
            let (cx, cy, w, h) = (n.x as int, n.y as int, n.w as int, n.h as int);
            let d = box_distance2(n, x, y);
            &&& exists|u: int, v: int|
                2 * cx - w <= u <= 2 * cx + w && 2 * cy - h <= v <= 2 * cy + h && d
                    == #[trigger] gap2(2 * x, 2 * y, u, v)
            &&& forall|u: int, v: int|
                2 * cx - w <= u <= 2 * cx + w && 2 * cy - h <= v <= 2 * cy + h ==> d
                    <= #[trigger] gap2(2 * x, 2 * y, u, v)
        }),
{
    let (cx, cy, w, h) = (n.x as int, n.y as int, n.w as int, n.h as int);
    let d = box_distance2(n, x, y);
    let u = nearest_in(2 * cx - w, 2 * cx + w, 2 * x);
    let v = nearest_in(2 * cy - h, 2 * cy + h, 2 * y);
    lemma_square_sign(2 * x - u);
    lemma_square_sign(2 * y - v);
    assert(d == gap2(2 * x, 2 * y, u, v));
    assert forall|p: int, q: int|
        2 * cx - w <= p <= 2 * cx + w && 2 * cy - h <= q <= 2 * cy + h implies d
        <= #[trigger] gap2(2 * x, 2 * y, p, q) by {
        lemma_nearest_in(2 * cx - w, 2 * cx + w, 2 * x, p);
        lemma_nearest_in(2 * cy - h, 2 * cy + h, 2 * y, q);
    }
}

/// The number of a range that is nearest to `v`.
spec fn nearest_in(lo: int, hi: int, v: int) -> int {
    if v < lo {
        lo
    } else if v > hi {
        hi
    } else {
        v
    }
}

proof fn lemma_square_sign(a: int)
    ensures
        a * a == (-a) * (-a),
        0 <= a * a,
{
    assert(a * a == (-a) * (-a)) by (nonlinear_arith);
    assert(0 <= a * a) by (nonlinear_arith);
}

proof fn lemma_nearest_in(lo: int, hi: int, v: int, p: int)
    requires
        lo <= p <= hi,
    ensures
        ({
            let u = nearest_in(lo, hi, v);
            (v - u) * (v - u) <= (v - p) * (v - p)
        }),
{
    let u = nearest_in(lo, hi, v);
    let (a, b) = (v - u, v - p);
    assert(a * a <= b * b) by (nonlinear_arith)
        requires
            (a == 0) || (0 <= a <= b) || (b <= a <= 0),
    ;
}

/// The nearest node: no node has its box nearer to the point.
pub proof fn law_nearest_node_is_nearest(nodes: Seq<SceneNodeView>, k: int, x: int, y: int)
    requires
        0 <= k <= nodes.len(),
    ensures
        match nearest_box(nodes, k, x, y) {
            Some(b) => {
                &&& 0 <= b.0 < k
                &&& b.1 == box_distance2(nodes[b.0], x, y)
                &&& forall|i: int| 0 <= i < k ==> b.1 <= box_distance2(#[trigger] nodes[i], x, y)
            },
            None => k == 0,
        },
    decreases k,
{
    if k > 0 {
        law_nearest_node_is_nearest(nodes, k - 1, x, y);
    }
}

/// The square of the distance of a point to the point that lies the `s`-th
/// of `t` parts along a segment, times the square of `t`.
pub open spec fn part_distance2(x: int, y: int, a: Point, b: Point, s: int, t: int) -> int {
    gap2(t * x, t * y, t * a.x + s * (b.x - a.x), t * a.y + s * (b.y - a.y))
}

proof fn lemma_square_of_difference(a: int, b: int)
    ensures
        (a - b) * (a - b) == a * a - 2 * (a * b) + b * b,
{
    assert((a - b) * (a - b) == a * a - 2 * (a * b) + b * b) by (nonlinear_arith);
}

proof fn lemma_square_of_sum(a: int, b: int)
    ensures
        (a + b) * (a + b) == a * a + 2 * (a * b) + b * b,
{
    assert((a + b) * (a + b) == a * a + 2 * (a * b) + b * b) by (nonlinear_arith);
}

proof fn lemma_swap(a: int, b: int, c: int, d: int)
    ensures
        (a * b) * (c * d) == (a * c) * (b * d),
{
    assert((a * b) * (c * d) == (a * c) * (b * d)) by (nonlinear_arith);
}

proof fn lemma_distribute(a: int, b: int, c: int)
    ensures
        a * (b + c) == a * b + a * c,
        (b + c) * a == b * a + c * a,
{
    assert(a * (b + c) == a * b + a * c) by (nonlinear_arith);
    assert((b + c) * a == b * a + c * a) by (nonlinear_arith);
}

proof fn lemma_expand_one(p: int, v: int, s: int, t: int)
    ensures
        (t * p - s * v) * (t * p - s * v) == (t * t) * (p * p) - 2 * ((t * s) * (p * v)) + (s * s) * (
        v * v),
{
    lemma_square_of_difference(t * p, s * v);
    lemma_swap(t, p, t, p);
    lemma_swap(s, v, s, v);
    lemma_swap(t, p, s, v);
}

proof fn lemma_expand(px: int, py: int, vx: int, vy: int, s: int, t: int)
    ensures
        (t * px - s * vx) * (t * px - s * vx) + (t * py - s * vy) * (t * py - s * vy) == (t * t) * (
        px * px + py * py) - 2 * ((t * s) * (px * vx + py * vy)) + (s * s) * (vx * vx + vy * vy),
{
    lemma_expand_one(px, vx, s, t);
    lemma_expand_one(py, vy, s, t);
    lemma_distribute(t * t, px * px, py * py);
    lemma_distribute(t * s, px * vx, py * vy);
    lemma_distribute(s * s, vx * vx, vy * vy);
}

proof fn lemma_lagrange(px: int, py: int, vx: int, vy: int)
    ensures
        (px * px + py * py) * (vx * vx + vy * vy) == (px * vx + py * vy) * (px * vx + py * vy) + (px
            * vy - py * vx) * (px * vy - py * vx),
{
    let (a, b, c, e) = (px * vx, py * vy, px * vy, py * vx);
    lemma_square_of_sum(a, b);
    lemma_square_of_difference(c, e);
    assert(a * b == c * e) by (nonlinear_arith)
        requires
            a == px * vx,
            b == py * vy,
            c == px * vy,
            e == py * vx,
    ;
    lemma_distribute(px * px + py * py, vx * vx, vy * vy);
    lemma_distribute(vx * vx, px * px, py * py);
    lemma_distribute(vy * vy, px * px, py * py);
    lemma_swap(px, vx, px, vx);
    lemma_swap(py, vy, py, vy);
    lemma_swap(px, vy, px, vy);
    lemma_swap(py, vx, py, vx);
}

/// The square of the distance to a part of a segment, completed.
proof fn lemma_complete(from2: int, len2: int, dot: int, cross: int, s: int, t: int)
    requires
        from2 * len2 == dot * dot + cross * cross,
    ensures
        len2 * ((t * t) * from2 - 2 * ((t * s) * dot) + (s * s) * len2) == (cross * cross) * (t * t)
            + (t * dot - s * len2) * (t * dot - s * len2),
{
    let (a, b, c) = ((t * t) * from2, 2 * ((t * s) * dot), (s * s) * len2);
    assert(len2 * (a - b + c) == len2 * a - len2 * b + len2 * c) by (nonlinear_arith);
    assert(len2 * a == (t * t) * (from2 * len2)) by (nonlinear_arith)
        requires
            a == (t * t) * from2,
    ;
    lemma_distribute(t * t, dot * dot, cross * cross);
    lemma_expand_one(dot, len2, s, t);
    assert(len2 * b == 2 * ((t * s) * (dot * len2))) by (nonlinear_arith)
        requires
            b == 2 * ((t * s) * dot),
    ;
    assert(len2 * c == (s * s) * (len2 * len2)) by (nonlinear_arith)
        requires
            c == (s * s) * len2,
    ;
    assert((cross * cross) * (t * t) == (t * t) * (cross * cross)) by (nonlinear_arith);
}

proof fn lemma_parts(x: int, y: int, a: Point, b: Point, s: int, t: int)
    ensures
        ({
            let (px, py) = (x - a.x, y - a.y);
            let (vx, vy) = (b.x - a.x, b.y - a.y);
            part_distance2(x, y, a, b, s, t) == (t * t) * (px * px + py * py) - 2 * ((t * s) * (px
                * vx + py * vy)) + (s * s) * (vx * vx + vy * vy)
        }),
{
    let (px, py) = (x - a.x, y - a.y);
    let (vx, vy) = (b.x - a.x, b.y - a.y);
    assert(t * x - (t * a.x + s * vx) == t * px - s * vx) by (nonlinear_arith)
        requires
            px == x - a.x,
    ;
    assert(t * y - (t * a.y + s * vy) == t * py - s * vy) by (nonlinear_arith)
        requires
            py == y - a.y,
    ;
    lemma_expand(px, py, vx, vy, s, t);
}

proof fn lemma_ones(a: int, b: int, c: int, s: int, t: int)
    requires
        t == 1,
        s == 0 || s == 1,
    ensures
        (t * t) * a == a,
        a * (t * t) == a,
        (t * s) * b == (if s == 0 {
            0
        } else {
            b
        }),
        (s * s) * c == (if s == 0 {
            0
        } else {
            c
        }),
{
    assert((t * t) * a == a && a * (t * t) == a) by (nonlinear_arith)
        requires
            t == 1,
    ;
    assert((t * s) * b == s * b) by (nonlinear_arith)
        requires
            t == 1,
    ;
    assert((s * s) * c == s * c) by (nonlinear_arith)
        requires
            s == 0 || s == 1,
    ;
}

/// The distance of a point to a segment is that to some point of the
/// segment, and no point of the segment is nearer. Both are compared as
/// squares of fractions.
pub proof fn law_segment_distance_is_to_the_nearest_point(x: int, y: int, a: Point, b: Point)
    ensures
        ({
            let d = segment_distance2(x, y, a, b);
            &&& 0 <= d.0
            &&& 0 < d.1
            &&& exists|s: int, t: int|
                0 <= s <= t && 0 < t && d.0 * (t * t) == d.1 * #[trigger] part_distance2(
                    x,
                    y,
                    a,
                    b,
                    s,
                    t,
                )
            &&& forall|s: int, t: int|
                0 <= s <= t && 0 < t ==> d.0 * (t * t) <= d.1 * #[trigger] part_distance2(
                    x,
                    y,
                    a,
                    b,
                    s,
                    t,
                )
        }),
{
    let d = segment_distance2(x, y, a, b);
    let (px, py) = (x - a.x, y - a.y);
    let (vx, vy) = (b.x - a.x, b.y - a.y);
    let len2 = vx * vx + vy * vy;
    let from2 = px * px + py * py;
    let dot = px * vx + py * vy;
    let cross = px * vy - py * vx;
    lemma_gap2(x, y, a.x as int, a.y as int);
    lemma_gap2(x, y, b.x as int, b.y as int);
    lemma_square_sign(vx);
    lemma_square_sign(vy);
    lemma_square_sign(cross);
    lemma_lagrange(px, py, vx, vy);
    let (s0, t0) = if dot <= 0 || len2 == 0 {
        (0int, 1int)
    } else if dot >= len2 {
        (1int, 1int)
    } else {
        (dot, len2)
    };
    lemma_parts(x, y, a, b, s0, t0);
    if dot <= 0 || len2 == 0 {
        assert(from2 == gap2(x, y, a.x as int, a.y as int));
        lemma_ones(from2, dot, len2, s0, t0);
        lemma_ones(d.0, dot, len2, s0, t0);
        assert(part_distance2(x, y, a, b, s0, t0) == from2);
    } else if dot >= len2 {
        lemma_ones(from2, dot, len2, s0, t0);
        lemma_ones(from2 - 2 * dot + len2, dot, len2, s0, t0);
        assert(part_distance2(x, y, a, b, s0, t0) == from2 - 2 * dot + len2);
        assert(d.0 == from2 - 2 * dot + len2) by {
            assert(x - b.x == px - vx && y - b.y == py - vy);
            assert((px - vx) * (px - vx) == px * px - 2 * (px * vx) + vx * vx) by (nonlinear_arith);
            assert((py - vy) * (py - vy) == py * py - 2 * (py * vy) + vy * vy) by (nonlinear_arith);
        }
    } else {
        lemma_complete(from2, len2, dot, cross, dot, len2);
        assert(len2 * dot - dot * len2 == 0) by (nonlinear_arith);
    }
    assert(d.0 * (t0 * t0) == d.1 * part_distance2(x, y, a, b, s0, t0));
    assert forall|s: int, t: int| 0 <= s <= t && 0 < t implies d.0 * (t * t)
        <= d.1 * #[trigger] part_distance2(x, y, a, b, s, t) by {
        lemma_parts(x, y, a, b, s, t);
        if dot <= 0 || len2 == 0 {
            if len2 == 0 {
                assert(vx == 0 && vy == 0) by (nonlinear_arith)
                    requires
                        vx * vx + vy * vy == 0,
                ;
                assert(dot == 0);
            }
            assert(0 <= (s * s) * len2) by (nonlinear_arith)
                requires
                    0 <= len2,
            ;
            assert((t * s) * dot <= 0) by (nonlinear_arith)
                requires
                    0 <= s,
                    0 < t,
                    dot <= 0,
            ;
            assert(from2 * (t * t) == (t * t) * from2) by (nonlinear_arith);
        } else if dot >= len2 {
            assert((t * t) * (from2 - 2 * dot + len2) <= (t * t) * from2 - 2 * ((t * s) * dot) + (s
                * s) * len2) by {
                assert((t * t) * (from2 - 2 * dot + len2) == (t * t) * from2 - 2 * ((t * t) * dot)
                    + (t * t) * len2) by (nonlinear_arith);
                lemma_far_end(s, t, dot, len2);
            }
            assert((from2 - 2 * dot + len2) * (t * t) == (t * t) * (from2 - 2 * dot + len2))
                by (nonlinear_arith);
        } else {
            lemma_complete(from2, len2, dot, cross, s, t);
            lemma_square_sign(t * dot - s * len2);
        }
    }
}

proof fn lemma_far_end(s: int, t: int, dot: int, len2: int)
    requires
        0 <= s <= t,
        0 < t,
        0 <= len2 <= dot,
    ensures
        (t * t) * len2 - 2 * ((t * t) * dot) <= (s * s) * len2 - 2 * ((t * s) * dot),
{
    let u = t - s;
    assert(2 * ((t * t) * dot) - 2 * ((t * s) * dot) == 2 * ((t * u) * dot)) by (nonlinear_arith)
        requires
            u == t - s,
    ;
    assert((t * t) * len2 - (s * s) * len2 == (u * (t + s)) * len2) by (nonlinear_arith)
        requires
            u == t - s,
    ;
    assert((u * (t + s)) * len2 <= (u * (2 * t)) * len2) by (nonlinear_arith)
        requires
            0 <= u,
            s <= t,
            0 <= len2,
    ;
    assert((u * (2 * t)) * len2 == 2 * ((t * u) * len2)) by (nonlinear_arith);
    assert((t * u) * len2 <= (t * u) * dot) by (nonlinear_arith)
        requires
            0 <= u,
            0 < t,
            len2 <= dot,
    ;
}

/// Whether fraction `p` is no more than fraction `q`.
pub open spec fn fraction_le(p: (int, int), q: (int, int)) -> bool {
    p.0 * q.1 <= q.0 * p.1
}

proof fn lemma_le_chain(p: (int, int), q: (int, int), r: (int, int))
    requires
        0 < p.1,
        0 < q.1,
        0 < r.1,
        fraction_le(p, q),
        fraction_le(q, r),
    ensures
        fraction_le(p, r),
{
    let (a, b, c, d, e, f) = (p.0, p.1, q.0, q.1, r.0, r.1);
    assert(a * f <= e * b) by (nonlinear_arith)
        requires
            0 < b,
            0 < d,
            0 < f,
            a * d <= c * b,
            c * f <= e * d,
    {
        assert((a * d) * f <= (c * b) * f) by (nonlinear_arith)
            requires
                0 < f,
                a * d <= c * b,
        ;
        assert((c * f) * b <= (e * d) * b) by (nonlinear_arith)
            requires
                0 < b,
                c * f <= e * d,
        ;
        assert((a * f) * d <= (e * b) * d) by (nonlinear_arith)
            requires
                (a * d) * f <= (c * b) * f,
                (c * f) * b <= (e * d) * b,
        ;
        assert(a * f <= e * b) by (nonlinear_arith)
            requires
                0 < d,
                (a * f) * d <= (e * b) * d,
        ;
    }
}

/// The distance of a point to a route is that to the nearest of its
/// segments.
pub proof fn law_route_distance_is_least(points: Seq<Point>, k: int, x: int, y: int)
    requires
        0 <= k < points.len(),
    ensures
        match route_distance2(points, k, x, y) {
            Some(d) => {
                &&& 0 <= d.0 && 0 < d.1
                &&& exists|i: int|
                    0 < i <= k && d == #[trigger] segment_distance2(x, y, points[i - 1], points[i])
                &&& forall|i: int|
                    0 < i <= k ==> fraction_le(
                        d,
                        #[trigger] segment_distance2(x, y, points[i - 1], points[i]),
                    )
            },
            None => k == 0,
        },
    decreases k,
{
    if k > 0 {
        law_route_distance_is_least(points, k - 1, x, y);
        let e = segment_distance2(x, y, points[k - 1], points[k]);
        law_segment_distance_is_to_the_nearest_point(x, y, points[k - 1], points[k]);
        match route_distance2(points, k - 1, x, y) {
            Some(c) => {
                if fraction_less(e, c) {
                    assert forall|i: int| 0 < i <= k implies fraction_le(
                        e,
                        #[trigger] segment_distance2(x, y, points[i - 1], points[i]),
                    ) by {
                        if i < k {
                            law_segment_distance_is_to_the_nearest_point(
                                x,
                                y,
                                points[i - 1],
                                points[i],
                            );
                            lemma_le_chain(
                                e,
                                c,
                                segment_distance2(x, y, points[i - 1], points[i]),
                            );
                        }
                    }
                }
            },
            None => {},
        }
    }
}

/// Whether an edge can be picked at a point: it is drawn, and its route
/// comes within `tol`.
pub open spec fn in_reach(e: SceneEdgeView, x: int, y: int, tol: int) -> bool {
    &&& e.kind != EdgeKind::Invisible
    &&& 0 <= tol
    &&& exists|i: int|
        0 < i < e.points.len() && fraction_le(
            #[trigger] segment_distance2(x, y, e.points[i - 1], e.points[i]),
            (tol * tol, 1),
        )
}

proof fn lemma_in_reach(e: SceneEdgeView, x: int, y: int, tol: int)
    ensures
        ({
            let d = route_distance2(e.points, e.points.len() - 1, x, y);
            &&& d matches Some(c) ==> 0 < c.1
            &&& in_reach(e, x, y, tol) == (e.kind != EdgeKind::Invisible && 0 <= tol && (d matches
                Some(c) && fraction_le(c, (tol * tol, 1))))
        }),
{
    let n = e.points.len() - 1;
    if n >= 0 {
        law_route_distance_is_least(e.points, n, x, y);
        match route_distance2(e.points, n, x, y) {
            Some(c) => {
                if in_reach(e, x, y, tol) {
                    let i = choose|i: int|
                        0 < i < e.points.len() && fraction_le(
                            #[trigger] segment_distance2(x, y, e.points[i - 1], e.points[i]),
                            (tol * tol, 1),
                        );
                    let s = segment_distance2(x, y, e.points[i - 1], e.points[i]);
                    law_segment_distance_is_to_the_nearest_point(
                        x,
                        y,
                        e.points[i - 1],
                        e.points[i],
                    );
                    lemma_le_chain(c, s, (tol * tol, 1));
                }
                if fraction_le(c, (tol * tol, 1)) {
                    let i = choose|i: int|
                        0 < i <= n && c == #[trigger] segment_distance2(
                            x,
                            y,
                            e.points[i - 1],
                            e.points[i],
                        );
                    assert(fraction_le(
                        segment_distance2(x, y, e.points[i - 1], e.points[i]),
                        (tol * tol, 1),
                    ));
                }
            },
            None => {},
        }
    }
}

/// The edge at a point is drawn and within `tol` of it, and no such edge is
/// nearer; there is none only where no edge is.
pub proof fn law_nearest_edge_is_nearest(
    edges: Seq<SceneEdgeView>,
    k: int,
    x: int,
    y: int,
    tol: int,
)
    requires
        0 <= k <= edges.len(),
    ensures
        match nearest_edge(edges, k, x, y, tol) {
            Some(b) => {
                &&& 0 <= b.0 < k
                &&& 0 < b.1.1
                &&& in_reach(edges[b.0], x, y, tol)
                &&& route_distance2(edges[b.0].points, edges[b.0].points.len() - 1, x, y) == Some(
                    b.1,
                )
                &&& forall|i: int|
                    0 <= i < k && in_reach(#[trigger] edges[i], x, y, tol) ==> {
                        let d = route_distance2(edges[i].points, edges[i].points.len() - 1, x, y);
                        d matches Some(c) && fraction_le(b.1, c)
                    }
            },
            None => forall|i: int| 0 <= i < k ==> !in_reach(#[trigger] edges[i], x, y, tol),
        },
    decreases k,
{
    if k > 0 {
        law_nearest_edge_is_nearest(edges, k - 1, x, y, tol);
        let e = edges[k - 1];
        lemma_in_reach(e, x, y, tol);
        let before = nearest_edge(edges, k - 1, x, y, tol);
        let after = nearest_edge(edges, k, x, y, tol);
        if after != before {
            let b = after->0;
            assert forall|i: int| 0 <= i < k && in_reach(#[trigger] edges[i], x, y, tol) implies {
                let d = route_distance2(edges[i].points, edges[i].points.len() - 1, x, y);
                d matches Some(c) && fraction_le(b.1, c)
            } by {
                if i < k - 1 {
                    let c = route_distance2(
                        edges[i].points,
                        edges[i].points.len() - 1,
                        x,
                        y,
                    )->0;
                    lemma_in_reach(edges[i], x, y, tol);
                    lemma_le_chain(b.1, (before->0).1, c);
                }
            }
        }
    }
}

/// What is picked at a point: an anchor wherever one is within `tol`; else
/// where some node holds the point a sub-element of that node or the node;
/// else an edge that is within `tol`; else a lane around the point. Nothing
/// is picked only where there is none of these.
pub proof fn law_picking_follows_the_paint_order(sc: SceneView, x: int, y: int, tol: int)
    requires
        sc.nodes.len() <= usize::MAX,
        sc.edges.len() <= usize::MAX,
        sc.lanes.len() <= usize::MAX,
        forall|i: int|
            0 <= i < sc.nodes.len() ==> (#[trigger] sc.nodes[i]).anchors.len() <= usize::MAX
                && sc.nodes[i].elements.len() <= usize::MAX,
    ensures
        ({
            let anchored = exists|i: int, j: int|
                0 <= i < sc.nodes.len() && 0 <= j < sc.nodes[i].anchors.len() && 0 <= tol && gap2(
                    x,
                    y,
                    (#[trigger] sc.nodes[i].anchors[j]).x as int,
                    sc.nodes[i].anchors[j].y as int,
                ) <= tol * tol;
            let held = exists|i: int|
                0 <= i < sc.nodes.len() && holds(#[trigger] sc.nodes[i], x, y);
            let passed = exists|i: int|
                0 <= i < sc.edges.len() && in_reach(#[trigger] sc.edges[i], x, y, tol);
            let around = exists|i: int|
                0 <= i < sc.lanes.len() && lane_holds(#[trigger] sc.lanes[i], x, y);
            match picked(sc, x, y, tol) {
                Some(AdvanceHit::Anchor(n, a)) => {
                    &&& n < sc.nodes.len() && a < sc.nodes[n as int].anchors.len()
                    &&& 0 <= tol && gap2(
                        x,
                        y,
                        sc.nodes[n as int].anchors[a as int].x as int,
                        sc.nodes[n as int].anchors[a as int].y as int,
                    ) <= tol * tol
                },
                Some(AdvanceHit::Element(n, e)) => {
                    &&& !anchored
                    &&& n < sc.nodes.len() && e < sc.nodes[n as int].elements.len()
                    &&& holds(sc.nodes[n as int], x, y)
                    &&& element_holds(sc.nodes[n as int].elements[e as int], x, y)
                },
                Some(AdvanceHit::Node(n)) => {
                    &&& !anchored
                    &&& n < sc.nodes.len() && holds(sc.nodes[n as int], x, y)
                    &&& forall|i: int|
                        0 <= i < sc.nodes[n as int].elements.len() ==> !element_holds(
                            #[trigger] sc.nodes[n as int].elements[i],
                            x,
                            y,
                        )
                },
                Some(AdvanceHit::Edge(e)) => {
                    &&& !anchored && !held
                    &&& e < sc.edges.len() && in_reach(sc.edges[e as int], x, y, tol)
                },
                Some(AdvanceHit::Lane(l)) => {
                    &&& !anchored && !held && !passed
                    &&& l < sc.lanes.len() && lane_holds(sc.lanes[l as int], x, y)
                },
                None => !anchored && !held && !passed && !around,
            }
        }),
{
    let n = sc.nodes.len() as int;
    law_nearest_anchor_is_nearest(sc.nodes, n, x, y, tol);
    law_topmost_node_is_the_last(sc.nodes, n, x, y);
    law_nearest_edge_is_nearest(sc.edges, sc.edges.len() as int, x, y, tol);
    law_lane_at_a_point_is_smallest(sc.lanes, sc.lanes.len() as int, x, y);
    match topmost(sc.nodes, n, x, y) {
        Some(t) => {
            let elements = sc.nodes[t].elements;
            law_innermost_element_is_deepest(elements, elements.len() as int, x, y);
            match innermost(elements, elements.len() as int, x, y) {
                Some(e) => {
                    law_elements_hold_their_boxes(elements[e.0], x, y);
                },
                None => {},
            }
        },
        None => {},
    }
    assert forall|i: int, j: int|
        0 <= i < sc.nodes.len() && 0 <= j < sc.nodes[i].anchors.len() implies no_nearer(
        #[trigger] sc.nodes[i].anchors[j],
        nearest_anchor(sc.nodes, n, x, y, tol),
        x,
        y,
        tol,
    ) by {}
}

} // verus!
