//! Boxes, sides, segments and points.

use vstd::prelude::*;

use crate::advance::scene::{Point, Px};
use crate::advance::AdvanceSide;

verus! {

/// The farthest coordinate and the largest length: sums over as many lengths
/// as can be indexed, and what is computed of them, still fit a machine
/// integer.
pub const FAR: i64 = 0x40_0000_0000_0000;

/// Whether a coordinate or length is small enough to compute with.
pub open spec fn near(v: int, by: int) -> bool {
    -(by * FAR) <= v <= by * FAR
}

/// The position and the size of a box; `x`/`y` is the centre.
#[derive(Debug, Clone, Copy, PartialEq, Eq, Structural)]
pub struct Spot {
    pub x: Px,
    pub y: Px,
    pub w: Px,
    pub h: Px,
}

/// Whether a box is small and near enough to compute with.
pub open spec fn spot_near(s: Spot) -> bool {
    near(s.x as int, 1) && near(s.y as int, 1) && near(s.w as int, 1) && near(s.h as int, 1)
}

pub open spec fn spots_near(s: Seq<Spot>) -> bool {
    forall|i: int| 0 <= i < s.len() ==> spot_near(#[trigger] s[i])
}

/// A point in mathematical terms.
pub open spec fn at(p: Point) -> (int, int) {
    (p.x as int, p.y as int)
}

/// Points in mathematical terms.
pub open spec fn course(v: Seq<Point>) -> Seq<(int, int)> {
    v.map_values(|p: Point| at(p))
}

/// Whether a point is near enough to compute with.
pub open spec fn point_near(p: (int, int), by: int) -> bool {
    near(p.0, by) && near(p.1, by)
}

/// Whether all points of a route are near enough to compute with.
pub open spec fn course_near(v: Seq<Point>, by: int) -> bool {
    forall|i: int| 0 <= i < v.len() ==> point_near(at(#[trigger] v[i]), by)
}

/// The edges of a box.
#[verifier::ext_equal]
pub struct Frame {
    pub l: int,
    pub t: int,
    pub r: int,
    pub b: int,
}

/// The edges of a box, as they are computed with.
#[derive(Debug, Clone, Copy, PartialEq, Eq, Structural)]
pub struct Rect {
    pub l: Px,
    pub t: Px,
    pub r: Px,
    pub b: Px,
}

impl View for Rect {
    type V = Frame;

    open spec fn view(&self) -> Frame {
        Frame { l: self.l as int, t: self.t as int, r: self.r as int, b: self.b as int }
    }
}

/// The edges of a spot.
pub open spec fn frame(s: Spot) -> Frame {
    Frame { l: s.x - s.w / 2, t: s.y - s.h / 2, r: s.x + s.w / 2, b: s.y + s.h / 2 }
}

/// Half of a length.
pub fn half(v: Px) -> (r: Px)
    requires
        near(v as int, 8),
    ensures
        r == v as int / 2,
{
    if v >= 0 {
        (v as u64 / 2) as i64
    } else {
        let m: u64 = (-v) as u64;
        -(((m + 1) / 2) as i64)
    }
}

pub fn node_rect(s: Spot) -> (r: Rect)
    requires
        spot_near(s),
    ensures
        r@ == frame(s),
        near(r.l as int, 2) && near(r.t as int, 2) && near(r.r as int, 2) && near(r.b as int, 2),
{
    Rect { l: s.x - half(s.w), t: s.y - half(s.h), r: s.x + half(s.w), b: s.y + half(s.h) }
}

/// A spot with its axes exchanged.
pub open spec fn turned_spot(s: Spot) -> Spot {
    Spot { x: s.y, y: s.x, w: s.h, h: s.w }
}

pub open spec fn turned_spots(s: Seq<Spot>) -> Seq<Spot> {
    s.map_values(|x: Spot| turned_spot(x))
}

/// Points with their axes exchanged.
pub open spec fn turned(s: Seq<(int, int)>) -> Seq<(int, int)> {
    s.map_values(|p: (int, int)| (p.1, p.0))
}

/// The side that `side` becomes when the axes are exchanged.
pub open spec fn turned_side(side: AdvanceSide) -> AdvanceSide {
    match side {
        AdvanceSide::Left => AdvanceSide::Top,
        AdvanceSide::Right => AdvanceSide::Bottom,
        AdvanceSide::Top => AdvanceSide::Left,
        AdvanceSide::Bottom => AdvanceSide::Right,
    }
}

pub fn turn_spot(s: Spot) -> (r: Spot)
    ensures
        r == turned_spot(s),
{
    Spot { x: s.y, y: s.x, w: s.h, h: s.w }
}

pub fn turn_spots(s: &Vec<Spot>) -> (r: Vec<Spot>)
    ensures
        r@ == turned_spots(s@),
{
    let mut r: Vec<Spot> = Vec::new();
    let mut i: usize = 0;
    while i < s.len()
        invariant
            i <= s@.len(),
            r@ == turned_spots(s@).take(i as int),
        decreases s@.len() - i,
    {
        r.push(turn_spot(s[i]));
        i += 1;
        assert(r@ =~= turned_spots(s@).take(i as int));
    }
    assert(turned_spots(s@).take(s@.len() as int) =~= turned_spots(s@));
    r
}

pub fn turn_points(v: &Vec<Point>) -> (r: Vec<Point>)
    requires
        course_near(v@, 4),
    ensures
        course(r@) == turned(course(v@)),
        course_near(r@, 4),
{
    let mut r: Vec<Point> = Vec::new();
    let mut i: usize = 0;
    let ghost all = turned(course(v@));
    while i < v.len()
        invariant
            i <= v@.len(),
            all == turned(course(v@)),
            course(r@) == all.take(i as int),
            r@.len() == i,
            course_near(v@, 4),
            course_near(r@, 4),
        decreases v@.len() - i,
    {
        let ghost before = r@;
        assert(point_near(at(v@[i as int]), 4));
        r.push(Point { x: v[i].y, y: v[i].x });
        i += 1;
        assert(course(r@) =~= course(before).push(all[i - 1]));
        assert(course(r@) =~= all.take(i as int));
    }
    assert(all.take(v@.len() as int) =~= all);
    r
}

pub fn turn_side(side: AdvanceSide) -> (r: AdvanceSide)
    ensures
        r == turned_side(side),
{
    match side {
        AdvanceSide::Left => AdvanceSide::Top,
        AdvanceSide::Right => AdvanceSide::Bottom,
        AdvanceSide::Top => AdvanceSide::Left,
        AdvanceSide::Bottom => AdvanceSide::Right,
    }
}

pub open spec fn least(a: int, b: int) -> int {
    if a < b {
        a
    } else {
        b
    }
}

pub open spec fn most(a: int, b: int) -> int {
    if a < b {
        b
    } else {
        a
    }
}

pub fn lesser(a: Px, b: Px) -> (r: Px)
    ensures
        r == least(a as int, b as int),
{
    if a < b {
        a
    } else {
        b
    }
}

pub fn greater(a: Px, b: Px) -> (r: Px)
    ensures
        r == most(a as int, b as int),
{
    if a < b {
        b
    } else {
        a
    }
}

/// Whether a segment along an axis passes through the inside of a box.
pub open spec fn crosses(p: (int, int), q: (int, int), f: Frame) -> bool {
    if p == q {
        false
    } else if p.0 == q.0 {
        f.l < p.0 < f.r && most(p.1, q.1) > f.t && least(p.1, q.1) < f.b
    } else if p.1 == q.1 {
        f.t < p.1 < f.b && most(p.0, q.0) > f.l && least(p.0, q.0) < f.r
    } else {
        false
    }
}

pub fn seg_crosses_rect(p: Point, q: Point, f: Rect) -> (r: bool)
    ensures
        r == crosses(at(p), at(q), f@),
{
    if p.x == q.x && p.y == q.y {
        false
    } else if p.x == q.x {
        f.l < p.x && p.x < f.r && greater(p.y, q.y) > f.t && lesser(p.y, q.y) < f.b
    } else if p.y == q.y {
        f.t < p.y && p.y < f.b && greater(p.x, q.x) > f.l && lesser(p.x, q.x) < f.r
    } else {
        false
    }
}

/// Whether a segment passes through one of some boxes.
pub open spec fn crosses_any(p: (int, int), q: (int, int), spots: Seq<Spot>) -> bool {
    exists|i: int| 0 <= i < spots.len() && crosses(p, q, frame(#[trigger] spots[i]))
}

pub fn crosses_some(p: Point, q: Point, spots: &Vec<Spot>) -> (r: bool)
    requires
        spots_near(spots@),
    ensures
        r == crosses_any(at(p), at(q), spots@),
{
    let mut i: usize = 0;
    while i < spots.len()
        invariant
            i <= spots@.len(),
            spots_near(spots@),
            forall|k: int| 0 <= k < i ==> !crosses(at(p), at(q), frame(#[trigger] spots@[k])),
        decreases spots@.len() - i,
    {
        if seg_crosses_rect(p, q, node_rect(spots[i])) {
            return true;
        }
        i += 1;
    }
    false
}

/// The middle of a side of a box.
pub open spec fn side_middle(s: Spot, side: AdvanceSide) -> (int, int) {
    match side {
        AdvanceSide::Left => (s.x - s.w / 2, s.y as int),
        AdvanceSide::Right => (s.x + s.w / 2, s.y as int),
        AdvanceSide::Top => (s.x as int, s.y - s.h / 2),
        AdvanceSide::Bottom => (s.x as int, s.y + s.h / 2),
    }
}

pub fn side_point(s: Spot, side: AdvanceSide) -> (r: Point)
    requires
        spot_near(s),
    ensures
        at(r) == side_middle(s, side),
        point_near(at(r), 2),
{
    match side {
        AdvanceSide::Left => Point { x: s.x - half(s.w), y: s.y },
        AdvanceSide::Right => Point { x: s.x + half(s.w), y: s.y },
        AdvanceSide::Top => Point { x: s.x, y: s.y - half(s.h) },
        AdvanceSide::Bottom => Point { x: s.x, y: s.y + half(s.h) },
    }
}

/// How far a route leaves a node before it turns.
pub const PORT_LEAD: i64 = 1152000;

/// The point straight out of a side from `p`.
pub open spec fn leader(p: (int, int), side: AdvanceSide) -> (int, int) {
    match side {
        AdvanceSide::Left => (p.0 - PORT_LEAD, p.1),
        AdvanceSide::Right => (p.0 + PORT_LEAD, p.1),
        AdvanceSide::Top => (p.0, p.1 - PORT_LEAD),
        AdvanceSide::Bottom => (p.0, p.1 + PORT_LEAD),
    }
}

pub fn port_leader(p: Point, side: AdvanceSide) -> (r: Point)
    requires
        point_near(at(p), 2),
    ensures
        at(r) == leader(at(p), side),
        point_near(at(r), 3),
{
    match side {
        AdvanceSide::Left => Point { x: p.x - PORT_LEAD, y: p.y },
        AdvanceSide::Right => Point { x: p.x + PORT_LEAD, y: p.y },
        AdvanceSide::Top => Point { x: p.x, y: p.y - PORT_LEAD },
        AdvanceSide::Bottom => Point { x: p.x, y: p.y + PORT_LEAD },
    }
}

/// `s` without points that equal the one before them.
pub open spec fn without_repeats(s: Seq<(int, int)>) -> Seq<(int, int)>
    decreases s.len(),
{
    if s.len() == 0 {
        s
    } else {
        let head = without_repeats(s.drop_last());
        if head.len() > 0 && head.last() == s.last() {
            head
        } else {
            head.push(s.last())
        }
    }
}

pub fn dedup_pts(pts: &Vec<Point>) -> (r: Vec<Point>)
    requires
        course_near(pts@, 4),
    ensures
        course(r@) == without_repeats(course(pts@)),
        course_near(r@, 4),
{
    let ghost all = course(pts@);
    let mut out: Vec<Point> = Vec::new();
    let mut i: usize = 0;
    assert(course(out@) =~= without_repeats(all.take(0)));
    while i < pts.len()
        invariant
            i <= pts@.len(),
            all == course(pts@),
            course(out@) == without_repeats(all.take(i as int)),
            course_near(pts@, 4),
            course_near(out@, 4),
        decreases pts@.len() - i,
    {
        let p = pts[i];
        assert(point_near(at(pts@[i as int]), 4));
        let n: usize = out.len();
        assert(all.take(i + 1).drop_last() =~= all.take(i as int));
        assert(all.take(i + 1).last() == at(p));
        assert(course(out@).len() == n);
        let repeated = if n > 0 {
            assert(course(out@).last() == at(out@[n - 1]));
            out[n - 1].x == p.x && out[n - 1].y == p.y
        } else {
            false
        };
        if !repeated {
            let ghost before = out@;
            out.push(p);
            assert(course(out@) =~= course(before).push(at(p)));
        }
        i += 1;
    }
    assert(all.take(all.len() as int) =~= all);
    out
}

} // verus!
