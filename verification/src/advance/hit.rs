//! Picking the part of a scene at a point.
//!
//! Distances are compared by their squares, so nothing is rounded.

use vstd::prelude::*;

use crate::advance::scene::{
    scene_anchors, scene_edges, scene_elements, scene_lanes, scene_nodes, AdvanceScene,
    AdvanceSceneEdge, AdvanceSceneNode, Point, Px, SceneAnchorView, SceneEdgeView, SceneElementView,
    SceneLaneView, SceneNodeView, SceneView,
};
use crate::model::{EdgeKind, Shape};
use crate::wide::{lemma_natural, Wide};

verus! {

/// A part of a scene: its index among the scene's nodes, edges or lanes; for
/// a sub-element or an anchor the node's index and the index in the node.
#[derive(Debug, Clone, Copy, PartialEq, Eq, Structural)]
pub enum AdvanceHit {
    Node(usize),
    Edge(usize),
    Lane(usize),
    Element(usize, usize),
    Anchor(usize, usize),
}

/// How far two coordinates are apart.
pub open spec fn apart(a: int, b: int) -> int {
    if a < b {
        b - a
    } else {
        a - b
    }
}

fn gap(a: Px, b: Px) -> (r: u64)
    ensures
        r == apart(a as int, b as int),
{
    if a < b {
        (b as i128 - a as i128) as u64
    } else {
        (a as i128 - b as i128) as u64
    }
}

fn product(a: u64, b: u64) -> (r: u128)
    ensures
        r == a * b,
{
    assert(0 <= a * b <= 0xffff_ffff_ffff_ffff * 0xffff_ffff_ffff_ffff) by (nonlinear_arith)
        requires
            0 <= a <= 0xffff_ffff_ffff_ffff,
            0 <= b <= 0xffff_ffff_ffff_ffff,
    ;
    a as u128 * b as u128
}

/// Whether a node's shape holds a point: diamonds and circles are smaller
/// than their boxes.
pub open spec fn holds(n: SceneNodeView, x: int, y: int) -> bool {
    let dx = apart(x, n.x as int);
    let dy = apart(y, n.y as int);
    if n.w <= 0 || n.h <= 0 {
        false
    } else {
        match n.shape {
            Shape::Diamond => 2 * (dx * n.h) + 2 * (dy * n.w) <= n.w * n.h,
            Shape::Circle | Shape::DoubleCircle => 4 * (dx * dx + dy * dy) <= n.w * n.w,
            _ => 2 * dx <= n.w && 2 * dy <= n.h,
        }
    }
}

proof fn lemma_squares(a: int, b: int)
    requires
        0 <= a,
        0 <= b,
    ensures
        a <= b ==> a * a <= b * b,
        a < b ==> a * a < b * b,
{
    assert(a <= b ==> a * a <= b * b) by (nonlinear_arith)
        requires
            0 <= a,
            0 <= b,
    ;
    assert(a < b ==> a * a < b * b) by (nonlinear_arith)
        requires
            0 <= a,
            0 <= b,
    ;
}

/// A shape holds no point outside the box around it.
proof fn lemma_in_box(n: SceneNodeView, x: int, y: int)
    requires
        holds(n, x, y),
    ensures
        2 * apart(x, n.x as int) <= n.w,
        2 * apart(y, n.y as int) <= (match n.shape {
            Shape::Circle | Shape::DoubleCircle => n.w,
            _ => n.h,
        }),
{
    let dx = apart(x, n.x as int);
    let dy = apart(y, n.y as int);
    let w = n.w as int;
    let h = n.h as int;
    match n.shape {
        Shape::Diamond => {
            assert(2 * dx <= w && 2 * dy <= h) by (nonlinear_arith)
                requires
                    0 <= dx,
                    0 <= dy,
                    0 < w,
                    0 < h,
                    2 * (dx * h) + 2 * (dy * w) <= w * h,
            ;
        },
        Shape::Circle | Shape::DoubleCircle => {
            assert((2 * dx) * (2 * dx) == 4 * (dx * dx)) by (nonlinear_arith);
            assert((2 * dy) * (2 * dy) == 4 * (dy * dy)) by (nonlinear_arith);
            assert(0 <= dx * dx && 0 <= dy * dy) by (nonlinear_arith);
            lemma_squares(w, 2 * dx);
            lemma_squares(w, 2 * dy);
        },
        _ => {},
    }
}

fn node_contains(n: &AdvanceSceneNode, x: Px, y: Px) -> (r: bool)
    ensures
        r == holds(n@, x as int, y as int),
{
    if n.w <= 0 || n.h <= 0 {
        return false;
    }
    let dx: u64 = gap(x, n.x);
    let dy: u64 = gap(y, n.y);
    let w: u64 = n.w as u64;
    let h: u64 = match n.shape {
        Shape::Circle | Shape::DoubleCircle => n.w as u64,
        _ => n.h as u64,
    };
    if dx > w / 2 || dy > h / 2 {
        proof {
            if holds(n@, x as int, y as int) {
                lemma_in_box(n@, x as int, y as int);
            }
        }
        return false;
    }
    proof {
        lemma_bound(dx as int, h as int);
        lemma_bound(dy as int, w as int);
        lemma_bound(dx as int, dx as int);
        lemma_bound(dy as int, dy as int);
        assert(dx * n.h == dx * h || n.shape == Shape::Circle || n.shape == Shape::DoubleCircle);
    }
    match n.shape {
        Shape::Diamond => 2 * product(dx, h) + 2 * product(dy, w) <= product(w, h),
        Shape::Circle | Shape::DoubleCircle => 4 * (product(dx, dx) + product(dy, dy)) <= product(
            w,
            w,
        ),
        _ => true,
    }
}

proof fn lemma_bound(a: int, b: int)
    requires
        0 <= a <= 0x4000_0000_0000_0000,
        0 <= b <= 0x8000_0000_0000_0000,
    ensures
        0 <= a * b <= 0x4000_0000_0000_0000 * 0x8000_0000_0000_0000,
        b <= 0x4000_0000_0000_0000 ==> a * b <= 0x4000_0000_0000_0000 * 0x4000_0000_0000_0000,
{
    assert(0 <= a * b <= 0x4000_0000_0000_0000 * 0x8000_0000_0000_0000) by (nonlinear_arith)
        requires
            0 <= a <= 0x4000_0000_0000_0000,
            0 <= b <= 0x8000_0000_0000_0000,
    ;
    assert(b <= 0x4000_0000_0000_0000 ==> a * b <= 0x4000_0000_0000_0000 * 0x4000_0000_0000_0000)
        by (nonlinear_arith)
        requires
            0 <= a <= 0x4000_0000_0000_0000,
            0 <= b <= 0x8000_0000_0000_0000,
    ;
}

/// The last of the first `k` nodes whose shape holds a point.
pub open spec fn topmost(nodes: Seq<SceneNodeView>, k: int, x: int, y: int) -> Option<int>
    decreases k,
{
    if k <= 0 {
        None
    } else if holds(nodes[k - 1], x, y) {
        Some(k - 1)
    } else {
        topmost(nodes, k - 1, x, y)
    }
}

/// The square of the distance of two points.
pub open spec fn distance2(x: int, y: int, a: int, b: int) -> int {
    apart(x, a) * apart(x, a) + apart(y, b) * apart(y, b)
}

/// An anchor that was found: its node, its index there, and the square of
/// its distance.
pub type FoundAnchor = Option<(int, int, int)>;

/// The nearer of `best` and anchor `a` of node `n`, where it is within
/// `tol`; of two at the same distance the later.
pub open spec fn nearer_anchor(
    anchor: SceneAnchorView,
    n: int,
    a: int,
    x: int,
    y: int,
    tol: int,
    best: FoundAnchor,
) -> FoundAnchor {
    let d = distance2(x, y, anchor.x as int, anchor.y as int);
    if tol >= 0 && d <= tol * tol && (match best {
        Some(b) => d <= b.2,
        None => true,
    }) {
        Some((n, a, d))
    } else {
        best
    }
}

/// The nearest of `best` and the first `k` anchors of node `n`.
pub open spec fn nearest_on(
    anchors: Seq<SceneAnchorView>,
    n: int,
    k: int,
    x: int,
    y: int,
    tol: int,
    best: FoundAnchor,
) -> FoundAnchor
    decreases k,
{
    if k <= 0 {
        best
    } else {
        nearer_anchor(
            anchors[k - 1],
            n,
            k - 1,
            x,
            y,
            tol,
            nearest_on(anchors, n, k - 1, x, y, tol, best),
        )
    }
}

/// The nearest anchor of the first `k` nodes.
pub open spec fn nearest_anchor(
    nodes: Seq<SceneNodeView>,
    k: int,
    x: int,
    y: int,
    tol: int,
) -> FoundAnchor
    decreases k,
{
    if k <= 0 {
        None
    } else {
        nearest_on(
            nodes[k - 1].anchors,
            k - 1,
            nodes[k - 1].anchors.len() as int,
            x,
            y,
            tol,
            nearest_anchor(nodes, k - 1, x, y, tol),
        )
    }
}

/// Whether a sub-element's box holds a point.
pub open spec fn element_holds(e: SceneElementView, x: int, y: int) -> bool {
    2 * apart(x, e.x as int) <= e.w && 2 * apart(y, e.y as int) <= e.h
}

/// The deepest of the first `k` sub-elements whose box holds a point, with
/// its depth; of two at the same depth the later.
pub open spec fn innermost(elements: Seq<SceneElementView>, k: int, x: int, y: int) -> Option<
    (int, int),
>
    decreases k,
{
    if k <= 0 {
        None
    } else {
        let best = innermost(elements, k - 1, x, y);
        let e = elements[k - 1];
        if element_holds(e, x, y) && (match best {
            Some(b) => e.path.len() >= b.1,
            None => true,
        }) {
            Some((k - 1, e.path.len() as int))
        } else {
            best
        }
    }
}

/// The square of the distance of a point to a segment, as a fraction: to the
/// nearer end where the point lies beyond one, else to the line.
pub open spec fn segment_distance2(x: int, y: int, a: Point, b: Point) -> (int, int) {
    let abx = b.x - a.x;
    let aby = b.y - a.y;
    let len2 = abx * abx + aby * aby;
    let dot = (x - a.x) * abx + (y - a.y) * aby;
    let cross = (x - a.x) * aby - (y - a.y) * abx;
    if dot <= 0 || len2 == 0 {
        (distance2(x, y, a.x as int, a.y as int), 1)
    } else if dot >= len2 {
        (distance2(x, y, b.x as int, b.y as int), 1)
    } else {
        (cross * cross, len2)
    }
}

/// Whether fraction `p` is less than fraction `q`.
pub open spec fn fraction_less(p: (int, int), q: (int, int)) -> bool {
    p.0 * q.1 < q.0 * p.1
}

/// The square of the distance of a point to the first `k` segments of a
/// route.
pub open spec fn route_distance2(points: Seq<Point>, k: int, x: int, y: int) -> Option<(int, int)>
    decreases k,
{
    if k <= 0 {
        None
    } else {
        let d = segment_distance2(x, y, points[k - 1], points[k]);
        match route_distance2(points, k - 1, x, y) {
            Some(b) => if fraction_less(d, b) {
                Some(d)
            } else {
                Some(b)
            },
            None => Some(d),
        }
    }
}

/// The nearest of the first `k` edges within `tol`, with the square of its
/// distance; of two at the same distance the later. Invisible edges are
/// never picked.
pub open spec fn nearest_edge(edges: Seq<SceneEdgeView>, k: int, x: int, y: int, tol: int) -> Option<
    (int, (int, int)),
>
    decreases k,
{
    if k <= 0 {
        None
    } else {
        let best = nearest_edge(edges, k - 1, x, y, tol);
        let e = edges[k - 1];
        if e.kind == EdgeKind::Invisible || tol < 0 {
            best
        } else {
            match route_distance2(e.points, e.points.len() - 1, x, y) {
                Some(d) => if !fraction_less((tol * tol, 1), d) && (match best {
                    Some(b) => !fraction_less(b.1, d),
                    None => true,
                }) {
                    Some((k - 1, d))
                } else {
                    best
                },
                None => best,
            }
        }
    }
}

/// Whether a lane's box holds a point.
pub open spec fn lane_holds(l: SceneLaneView, x: int, y: int) -> bool {
    l.x <= x <= l.x + l.w && l.y <= y <= l.y + l.h
}

/// The smallest of the first `k` lanes whose box holds a point, with its
/// area; of two of one size the earlier.
pub open spec fn smallest_lane(lanes: Seq<SceneLaneView>, k: int, x: int, y: int) -> Option<
    (int, int),
>
    decreases k,
{
    if k <= 0 {
        None
    } else {
        let best = smallest_lane(lanes, k - 1, x, y);
        let l = lanes[k - 1];
        let area = l.w * l.h;
        if lane_holds(l, x, y) && (match best {
            Some(b) => area < b.1,
            None => true,
        }) {
            Some((k - 1, area))
        } else {
            best
        }
    }
}

/// How far a coordinate is outside the middle `size` around `centre`, in
/// half units.
pub open spec fn beyond(v: int, centre: int, size: int) -> int {
    let d = 2 * apart(v, centre) - size;
    if d > 0 {
        d
    } else {
        0
    }
}

/// The square of the distance of a point to a node's box, in half units.
pub open spec fn box_distance2(n: SceneNodeView, x: int, y: int) -> int {
    let dx = beyond(x, n.x as int, n.w as int);
    let dy = beyond(y, n.y as int, n.h as int);
    dx * dx + dy * dy
}

/// The nearest of the first `k` nodes, with the square of its distance; of
/// two at the same distance the earlier.
pub open spec fn nearest_box(nodes: Seq<SceneNodeView>, k: int, x: int, y: int) -> Option<
    (int, int),
>
    decreases k,
{
    if k <= 0 {
        None
    } else {
        let d = box_distance2(nodes[k - 1], x, y);
        match nearest_box(nodes, k - 1, x, y) {
            Some(b) => if d < b.1 {
                Some((k - 1, d))
            } else {
                Some(b)
            },
            None => Some((k - 1, d)),
        }
    }
}

/// The part of a scene at a point: anchors come before sub-elements, those
/// before nodes, nodes before edges, and lanes last.
pub open spec fn picked(sc: SceneView, x: int, y: int, tol: int) -> Option<AdvanceHit> {
    match nearest_anchor(sc.nodes, sc.nodes.len() as int, x, y, tol) {
        Some(a) => Some(AdvanceHit::Anchor(a.0 as usize, a.1 as usize)),
        None => match topmost(sc.nodes, sc.nodes.len() as int, x, y) {
            Some(n) => match innermost(
                sc.nodes[n].elements,
                sc.nodes[n].elements.len() as int,
                x,
                y,
            ) {
                Some(e) => Some(AdvanceHit::Element(n as usize, e.0 as usize)),
                None => Some(AdvanceHit::Node(n as usize)),
            },
            None => match nearest_edge(sc.edges, sc.edges.len() as int, x, y, tol) {
                Some(e) => Some(AdvanceHit::Edge(e.0 as usize)),
                None => match smallest_lane(sc.lanes, sc.lanes.len() as int, x, y) {
                    Some(l) => Some(AdvanceHit::Lane(l.0 as usize)),
                    None => None,
                },
            },
        },
    }
}

/// A number that is negative, or not.
spec fn signed(negative: bool, v: int) -> int {
    if negative {
        -v
    } else {
        v
    }
}

fn difference(a: Px, b: Px) -> (r: (bool, u64))
    ensures
        signed(r.0, r.1 as int) == a - b,
{
    (a < b, gap(a, b))
}

/// The product of two signed numbers.
fn signed_product(a: (bool, u64), b: (bool, u64)) -> (r: (bool, u128))
    ensures
        signed(r.0, r.1 as int) == signed(a.0, a.1 as int) * signed(b.0, b.1 as int),
{
    let r: u128 = product(a.1, b.1);
    proof {
        let (x, y) = (a.1 as int, b.1 as int);
        assert((-x) * y == -(x * y)) by (nonlinear_arith);
        assert(x * (-y) == -(x * y)) by (nonlinear_arith);
        assert((-x) * (-y) == x * y) by (nonlinear_arith);
    }
    (a.0 != b.0, r)
}

/// The sum of two signed numbers.
fn signed_sum(a: (bool, u128), b: (bool, u128)) -> (r: (bool, Wide))
    ensures
        signed(r.0, r.1@) == signed(a.0, a.1 as int) + signed(b.0, b.1 as int),
{
    if a.0 == b.0 {
        (a.0, Wide::of(a.1).plus(&Wide::of(b.1)))
    } else if a.1 >= b.1 {
        (a.0, Wide::of(a.1 - b.1))
    } else {
        (b.0, Wide::of(b.1 - a.1))
    }
}

fn square_sum(a: u64, b: u64) -> (r: Wide)
    ensures
        r@ == a * a + b * b,
{
    Wide::of(product(a, a)).plus(&Wide::of(product(b, b)))
}

/// The square of a distance as a fraction of two numbers.
#[derive(Debug)]
struct Square {
    num: Wide,
    den: Wide,
}

spec fn fraction(d: Square) -> (int, int) {
    (d.num@, d.den@)
}

fn shorter(p: &Square, q: &Square) -> (r: bool)
    ensures
        r == fraction_less(fraction(*p), fraction(*q)),
{
    p.num.times(&q.den).less(&q.num.times(&p.den))
}

fn segment_distance(x: Px, y: Px, a: Point, b: Point) -> (r: Square)
    ensures
        fraction(r) == segment_distance2(x as int, y as int, a, b),
{
    let abx = difference(b.x, a.x);
    let aby = difference(b.y, a.y);
    let apx = difference(x, a.x);
    let apy = difference(y, a.y);
    let len2 = square_sum(abx.1, aby.1);
    let dot = signed_sum(signed_product(apx, abx), signed_product(apy, aby));
    let p = signed_product(apx, aby);
    let q = signed_product(apy, abx);
    let cross = signed_sum(p, (!q.0, q.1));
    let zero = Wide::of(0);
    let ghost gx = b.x - a.x;
    let ghost gy = b.y - a.y;
    let ghost turn = (x - a.x) * gy - (y - a.y) * gx;
    proof {
        assert(gx * gx == abx.1 * abx.1) by (nonlinear_arith)
            requires
                gx == abx.1 || gx == -(abx.1 as int),
        ;
        assert(gy * gy == aby.1 * aby.1) by (nonlinear_arith)
            requires
                gy == aby.1 || gy == -(aby.1 as int),
        ;
        lemma_natural(dot.1);
        lemma_natural(len2);
    }
    if dot.0 || !zero.less(&dot.1) || !zero.less(&len2) {
        Square { num: square_sum(gap(x, a.x), gap(y, a.y)), den: Wide::of(1) }
    } else if !dot.1.less(&len2) {
        Square { num: square_sum(gap(x, b.x), gap(y, b.y)), den: Wide::of(1) }
    } else {
        proof {
            let v = cross.1@;
            assert(turn * turn == v * v) by (nonlinear_arith)
                requires
                    turn == v || turn == -v,
            ;
        }
        Square { num: cross.1.times(&cross.1), den: len2 }
    }
}

fn route_distance(e: &AdvanceSceneEdge, x: Px, y: Px) -> (r: Option<Square>)
    ensures
        match r {
            Some(d) => route_distance2(e@.points, e@.points.len() - 1, x as int, y as int) == Some(
                fraction(d),
            ),
            None => route_distance2(e@.points, e@.points.len() - 1, x as int, y as int) is None,
        },
{
    let ghost p = e@.points;
    let n: usize = e.points.len();
    let mut best: Option<Square> = None;
    let mut k: usize = 1;
    while k < n
        invariant
            n == p.len(),
            p == e.points@,
            p == e@.points,
            1 <= k,
            k <= n || k == 1,
            match best {
                Some(d) => route_distance2(p, k - 1, x as int, y as int) == Some(fraction(d)),
                None => route_distance2(p, k - 1, x as int, y as int) is None,
            },
        decreases n - k,
    {
        let d = segment_distance(x, y, e.points[k - 1], e.points[k]);
        best = match best {
            Some(b) => if shorter(&d, &b) {
                Some(d)
            } else {
                Some(b)
            },
            None => Some(d),
        };
        k += 1;
    }
    best
}

impl AdvanceScene {
    /// The topmost part at scene point `(x, y)`, or `None`. The order mirrors
    /// the paint order: an anchor beats a sub-element, which beats its node,
    /// which beats an overlapping edge, which beats the lane behind them.
    /// `tol` widens the picking of anchors and edges.
    pub fn hit_test(&self, x: Px, y: Px, tol: Px) -> (r: Option<AdvanceHit>)
        ensures
            r == picked(self@, x as int, y as int, tol as int),
    {
        if let Some((n, a)) = self.anchor_at(x, y, tol) {
            return Some(AdvanceHit::Anchor(n, a));
        }
        if let Some((n, e)) = self.element_at(x, y) {
            return Some(AdvanceHit::Element(n, e));
        }
        if let Some(i) = self.node_at(x, y) {
            return Some(AdvanceHit::Node(i));
        }
        if let Some(i) = self.edge_at(x, y, tol) {
            return Some(AdvanceHit::Edge(i));
        }
        match self.lane_at(x, y) {
            Some(i) => Some(AdvanceHit::Lane(i)),
            None => None,
        }
    }

    /// The anchor within `tol` of `(x, y)`, nearest first, as its node and
    /// its index there.
    pub fn anchor_at(&self, x: Px, y: Px, tol: Px) -> (r: Option<(usize, usize)>)
        ensures
            match nearest_anchor(
                self@.nodes,
                self@.nodes.len() as int,
                x as int,
                y as int,
                tol as int,
            ) {
                Some(b) => r matches Some(q) && q.0 == b.0 && q.1 == b.1 && 0 <= b.0
                    < self@.nodes.len() && 0 <= b.1 < self@.nodes[b.0].anchors.len(),
                None => r is None,
            },
    {
        let ghost nodes = self@.nodes;
        let mut best: Option<(usize, usize, u128)> = None;
        let mut i: usize = 0;
        while i < self.nodes.len()
            invariant
                i <= self.nodes@.len(),
                nodes == self@.nodes,
                nodes == scene_nodes(self.nodes@),
                as_found(best) == nearest_anchor(nodes, i as int, x as int, y as int, tol as int),
                best matches Some(b) ==> b.0 < i && b.1 < nodes[b.0 as int].anchors.len(),
            decreases self.nodes@.len() - i,
        {
            let n = &self.nodes[i];
            assert(nodes[i as int] == n@);
            best = nearest_here(n, i, x, y, tol, best);
            i += 1;
        }
        match best {
            Some((n, a, _)) => Some((n, a)),
            None => None,
        }
    }

    /// The innermost sub-element that holds `(x, y)`, as its node and its
    /// index there.
    pub fn element_at(&self, x: Px, y: Px) -> (r: Option<(usize, usize)>)
        ensures
            match topmost(self@.nodes, self@.nodes.len() as int, x as int, y as int) {
                Some(n) => match innermost(
                    self@.nodes[n].elements,
                    self@.nodes[n].elements.len() as int,
                    x as int,
                    y as int,
                ) {
                    Some(e) => r matches Some(q) && q.0 == n && q.1 == e.0,
                    None => r is None,
                },
                None => r is None,
            },
    {
        let ni: usize = match self.node_at(x, y) {
            Some(i) => i,
            None => return None,
        };
        let n = &self.nodes[ni];
        assert(self@.nodes[ni as int] == n@);
        let ghost elements = n@.elements;
        let mut best: Option<(usize, usize)> = None;
        let mut i: usize = 0;
        while i < n.elements.len()
            invariant
                i <= n.elements@.len(),
                elements == n@.elements,
                elements == scene_elements(n.elements@),
                innermost(elements, i as int, x as int, y as int) == (match best {
                    Some(b) => Some((b.0 as int, b.1 as int)),
                    None => None,
                }),
            decreases n.elements@.len() - i,
        {
            let e = &n.elements[i];
            assert(elements[i as int] == e@);
            let inside = 2 * gap(x, e.x) as i128 <= e.w as i128 && 2 * gap(y, e.y) as i128
                <= e.h as i128;
            let deeper = match best {
                Some((_, depth)) => e.path.len() >= depth,
                None => true,
            };
            if inside && deeper {
                best = Some((i, e.path.len()));
            }
            i += 1;
        }
        assert(i as int == elements.len());
        assert(self@.nodes[ni as int].elements == elements);
        match best {
            Some((ei, _)) => Some((ni, ei)),
            None => None,
        }
    }

    /// Index of the topmost node whose shape holds `(x, y)`; later drawn
    /// wins.
    pub fn node_at(&self, x: Px, y: Px) -> (r: Option<usize>)
        ensures
            match topmost(self@.nodes, self@.nodes.len() as int, x as int, y as int) {
                Some(i) => r matches Some(q) && q == i && 0 <= i < self@.nodes.len(),
                None => r is None,
            },
    {
        let ghost nodes = self@.nodes;
        let mut k: usize = self.nodes.len();
        while k > 0
            invariant
                k <= self.nodes@.len(),
                nodes == self@.nodes,
                nodes == scene_nodes(self.nodes@),
                topmost(nodes, k as int, x as int, y as int) == topmost(
                    nodes,
                    nodes.len() as int,
                    x as int,
                    y as int,
                ),
            decreases k,
        {
            let n = &self.nodes[k - 1];
            assert(nodes[k - 1] == n@);
            if node_contains(n, x, y) {
                return Some(k - 1);
            }
            k -= 1;
        }
        None
    }

    /// Index of the edge nearest `(x, y)` within `tol`. The distance is that
    /// to the drawn route.
    pub fn edge_at(&self, x: Px, y: Px, tol: Px) -> (r: Option<usize>)
        ensures
            match nearest_edge(
                self@.edges,
                self@.edges.len() as int,
                x as int,
                y as int,
                tol as int,
            ) {
                Some(b) => r matches Some(q) && q == b.0 && 0 <= b.0 < self@.edges.len(),
                None => r is None,
            },
    {
        let ghost edges = self@.edges;
        let mut best: Option<(usize, Square)> = None;
        let mut i: usize = 0;
        while i < self.edges.len()
            invariant
                i <= self.edges@.len(),
                edges == self@.edges,
                edges == scene_edges(self.edges@),
                nearest_edge(edges, i as int, x as int, y as int, tol as int) == (match best {
                    Some(b) => Some((b.0 as int, fraction(b.1))),
                    None => None,
                }),
                best matches Some(b) ==> b.0 < i,
            decreases self.edges@.len() - i,
        {
            let e = &self.edges[i];
            assert(edges[i as int] == e@);
            let invisible = match e.kind {
                EdgeKind::Invisible => true,
                _ => false,
            };
            if !invisible && tol >= 0 {
                if let Some(d) = route_distance(e, x, y) {
                    let limit = Square {
                        num: Wide::of(product(tol as u64, tol as u64)),
                        den: Wide::of(1),
                    };
                    let near = !shorter(&limit, &d);
                    let better = match &best {
                        Some((_, b)) => !shorter(b, &d),
                        None => true,
                    };
                    if near && better {
                        best = Some((i, d));
                    }
                }
            }
            i += 1;
        }
        match best {
            Some((i, _)) => Some(i),
            None => None,
        }
    }

    /// Index of the lane whose box holds `(x, y)`; of nested lanes the
    /// smallest.
    pub fn lane_at(&self, x: Px, y: Px) -> (r: Option<usize>)
        ensures
            match smallest_lane(self@.lanes, self@.lanes.len() as int, x as int, y as int) {
                Some(b) => r matches Some(q) && q == b.0 && 0 <= b.0 < self@.lanes.len(),
                None => r is None,
            },
    {
        let ghost lanes = self@.lanes;
        let mut best: Option<(usize, i128)> = None;
        let mut i: usize = 0;
        while i < self.lanes.len()
            invariant
                i <= self.lanes@.len(),
                lanes == self@.lanes,
                lanes == scene_lanes(self.lanes@),
                smallest_lane(lanes, i as int, x as int, y as int) == (match best {
                    Some(b) => Some((b.0 as int, b.1 as int)),
                    None => None,
                }),
                best matches Some(b) ==> b.0 < i,
            decreases self.lanes@.len() - i,
        {
            let l = &self.lanes[i];
            assert(lanes[i as int] == l@);
            proof {
                lemma_area(l.w as int, l.h as int);
            }
            let inside = x >= l.x && x as i128 <= l.x as i128 + l.w as i128 && y >= l.y && y as i128
                <= l.y as i128 + l.h as i128;
            let area: i128 = l.w as i128 * l.h as i128;
            let better = match best {
                Some((_, b)) => area < b,
                None => true,
            };
            if inside && better {
                best = Some((i, area));
            }
            i += 1;
        }
        match best {
            Some((i, _)) => Some(i),
            None => None,
        }
    }

    /// The node nearest `(x, y)`, with the square of its distance in half
    /// units, or the largest number there is where that is less: 0 where the
    /// point is inside the node's box.
    pub fn nearest_node(&self, x: Px, y: Px) -> (r: Option<(usize, u128)>)
        ensures
            match nearest_box(self@.nodes, self@.nodes.len() as int, x as int, y as int) {
                Some(b) => r matches Some(q) && q.0 == b.0 && q.1 == (if b.1 < u128::MAX {
                    b.1
                } else {
                    u128::MAX as int
                }) && 0 <= b.0 < self@.nodes.len(),
                None => r is None,
            },
    {
        let ghost nodes = self@.nodes;
        let mut best: Option<(usize, Wide)> = None;
        let mut i: usize = 0;
        while i < self.nodes.len()
            invariant
                i <= self.nodes@.len(),
                nodes == self@.nodes,
                nodes == scene_nodes(self.nodes@),
                nearest_box(nodes, i as int, x as int, y as int) == (match best {
                    Some(b) => Some((b.0 as int, b.1@)),
                    None => None,
                }),
                best matches Some(b) ==> b.0 < i,
            decreases self.nodes@.len() - i,
        {
            let n = &self.nodes[i];
            assert(nodes[i as int] == n@);
            let dx = overshoot(x, n.x, n.w);
            let dy = overshoot(y, n.y, n.h);
            let d = dx.times(&dx).plus(&dy.times(&dy));
            let better = match &best {
                Some((_, b)) => d.less(b),
                None => true,
            };
            if better {
                best = Some((i, d));
            }
            i += 1;
        }
        match best {
            Some((i, d)) => Some((i, d.capped())),
            None => None,
        }
    }
}

spec fn as_found(best: Option<(usize, usize, u128)>) -> FoundAnchor {
    match best {
        Some(b) => Some((b.0 as int, b.1 as int, b.2 as int)),
        None => None,
    }
}

fn overshoot(v: Px, centre: Px, size: Px) -> (r: Wide)
    ensures
        r@ == beyond(v as int, centre as int, size as int),
{
    let d: i128 = 2 * gap(v, centre) as i128 - size as i128;
    if d > 0 {
        Wide::of(d as u128)
    } else {
        Wide::of(0)
    }
}

proof fn lemma_area(a: int, b: int)
    requires
        -0x8000_0000_0000_0000 <= a <= 0x8000_0000_0000_0000,
        -0x8000_0000_0000_0000 <= b <= 0x8000_0000_0000_0000,
    ensures
        -0x4000_0000_0000_0000_0000_0000_0000_0000 <= a * b
            <= 0x4000_0000_0000_0000_0000_0000_0000_0000,
{
    assert(-0x4000_0000_0000_0000_0000_0000_0000_0000 <= a * b
        <= 0x4000_0000_0000_0000_0000_0000_0000_0000) by (nonlinear_arith)
        requires
            -0x8000_0000_0000_0000 <= a <= 0x8000_0000_0000_0000,
            -0x8000_0000_0000_0000 <= b <= 0x8000_0000_0000_0000,
    ;
}

/// An anchor within `tol` is at most that far away along each axis.
proof fn lemma_near(dx: int, dy: int, tol: int)
    requires
        0 <= dx,
        0 <= dy,
        0 <= tol,
        dx * dx + dy * dy <= tol * tol,
    ensures
        dx <= tol,
        dy <= tol,
{
    lemma_squares(tol, dx);
    lemma_squares(tol, dy);
    assert(0 <= dx * dx && 0 <= dy * dy) by (nonlinear_arith);
}

fn nearest_here(
    n: &AdvanceSceneNode,
    i: usize,
    x: Px,
    y: Px,
    tol: Px,
    best: Option<(usize, usize, u128)>,
) -> (r: Option<(usize, usize, u128)>)
    ensures
        as_found(r) == nearest_on(
            n@.anchors,
            i as int,
            n@.anchors.len() as int,
            x as int,
            y as int,
            tol as int,
            as_found(best),
        ),
        r == best || (r matches Some(b) && b.0 == i && b.1 < n@.anchors.len()),
{
    let ghost anchors = n@.anchors;
    let ghost start = best;
    let mut best = best;
    let mut a: usize = 0;
    while a < n.anchors.len()
        invariant
            a <= n.anchors@.len(),
            anchors == n@.anchors,
            anchors == scene_anchors(n.anchors@),
            as_found(best) == nearest_on(
                anchors,
                i as int,
                a as int,
                x as int,
                y as int,
                tol as int,
                as_found(start),
            ),
            best == start || (best matches Some(b) && b.0 == i && b.1 < a),
        decreases n.anchors@.len() - a,
    {
        let anchor = &n.anchors[a];
        assert(anchors[a as int] == anchor@);
        let dx: u64 = gap(x, anchor.x);
        let dy: u64 = gap(y, anchor.y);
        proof {
            if tol >= 0 && dx * dx + dy * dy <= tol * tol {
                lemma_near(dx as int, dy as int, tol as int);
            }
        }
        if tol >= 0 && dx <= tol as u64 && dy <= tol as u64 {
            let limit: u128 = product(tol as u64, tol as u64);
            proof {
                lemma_squares(dx as int, tol as int);
                lemma_squares(dy as int, tol as int);
                lemma_area(tol as int, tol as int);
            }
            let d: u128 = product(dx, dx) + product(dy, dy);
            let better = match best {
                Some((_, _, b)) => d <= b,
                None => true,
            };
            if d <= limit && better {
                best = Some((i, a, d));
            }
        }
        a += 1;
    }
    best
}

} // verus!
