//! Routes between two given sides.

use vstd::prelude::*;

use crate::advance::ends::{shows, Exposed};
use crate::advance::route::geometry::{
    at, course, course_near, crosses, dedup_pts, frame, leader, near, node_rect, point_near, port_leader,
    seg_crosses_rect, spot_near, turn_points, turn_side, turn_spot, turned, turned_side,
    turned_spot, without_repeats, Frame, Rect, Spot, PORT_LEAD,
};
use crate::advance::route::paths::size_of;
use crate::advance::scene::{Point, Px};
use crate::advance::{AdvanceDirection, AdvanceSide};

verus! {

/// Whether a side faces left or right.
pub open spec fn is_flank(side: AdvanceSide) -> bool {
    side == AdvanceSide::Left || side == AdvanceSide::Right
}

/// Whether neither of two boxes is in the way of a segment.
pub open spec fn free(p: (int, int), q: (int, int), f: Frame, g: Frame) -> bool {
    !crosses(p, q, f) && !crosses(p, q, g)
}

/// Whether a channel at height `y` between two leaders, with what connects
/// it to them, passes through neither of two boxes.
pub open spec fn clear_at(p: (int, int), q: (int, int), y: int, f: Frame, g: Frame) -> bool {
    &&& free(p, (p.0, y), f, g)
    &&& free((p.0, y), (q.0, y), f, g)
    &&& free((q.0, y), q, f, g)
}

/// Whether channel `c` is preferred to channel `d`: it is nearer to `orig`,
/// or as near and nearer to `toward`.
pub open spec fn preferred(c: int, d: int, orig: int, toward: int) -> bool {
    size_of(c - orig) < size_of(d - orig) || (size_of(c - orig) == size_of(d - orig) && size_of(
        c - toward,
    ) < size_of(d - toward))
}

/// The preferred of `best` and channel `c`, where that is clear.
pub open spec fn or_channel(
    best: Option<int>,
    c: int,
    is_clear: bool,
    orig: int,
    toward: int,
) -> Option<int> {
    if is_clear && (match best {
        Some(b) => preferred(c, b, orig, toward),
        None => true,
    }) {
        Some(c)
    } else {
        best
    }
}

/// The height of the channel between two leaders: `orig` where that is clear,
/// else the preferred clear one just outside either box, else `orig`.
pub open spec fn channel(
    p: (int, int),
    q: (int, int),
    orig: int,
    toward: int,
    f: Frame,
    g: Frame,
) -> int {
    if clear_at(p, q, orig, f, g) {
        orig
    } else {
        let c0 = f.t - PORT_LEAD;
        let c1 = f.b + PORT_LEAD;
        let c2 = g.t - PORT_LEAD;
        let c3 = g.b + PORT_LEAD;
        let b0 = or_channel(None, c0, clear_at(p, q, c0, f, g), orig, toward);
        let b1 = or_channel(b0, c1, clear_at(p, q, c1, f, g), orig, toward);
        let b2 = or_channel(b1, c2, clear_at(p, q, c2, f, g), orig, toward);
        let b3 = or_channel(b2, c3, clear_at(p, q, c3, f, g), orig, toward);
        match b3 {
            Some(c) => c,
            None => orig,
        }
    }
}

/// `s` with `p`, where `wanted`.
pub open spec fn with_point(s: Seq<(int, int)>, p: (int, int), wanted: bool) -> Seq<(int, int)> {
    if wanted {
        s.push(p)
    } else {
        s
    }
}

/// The route out of a flank at `p` to `q`.
pub open spec fn flank_path(
    a: Spot,
    from_side: AdvanceSide,
    p: (int, int),
    b: Spot,
    to_side: AdvanceSide,
    q: (int, int),
    fan: int,
) -> Seq<(int, int)> {
    let l0 = leader(p, from_side);
    let l3 = leader(q, to_side);
    let y = channel(l0, l3, l0.1 + fan, b.y as int, frame(a), frame(b));
    let s0 = seq![p, l0];
    let s1 = with_point(s0, (l0.0, y), y != l0.1);
    let s2 = with_point(s1, (l3.0, y), l3.0 != l0.0 || y != l0.1);
    let s3 = with_point(s2, l3, l3.1 != y);
    without_repeats(s3.push(q))
}

/// The route between two boundary points with given sides: a leader out of
/// each, and a channel that joins them.
pub open spec fn ported_path(
    a: Spot,
    from_side: AdvanceSide,
    p: (int, int),
    b: Spot,
    to_side: AdvanceSide,
    q: (int, int),
    fan: int,
) -> Seq<(int, int)> {
    if is_flank(from_side) {
        flank_path(a, from_side, p, b, to_side, q, fan)
    } else {
        turned(
            flank_path(
                turned_spot(a),
                turned_side(from_side),
                (p.1, p.0),
                turned_spot(b),
                turned_side(to_side),
                (q.1, q.0),
                fan,
            ),
        )
    }
}

fn segment_free(p: Point, q: Point, f: Rect, g: Rect) -> (r: bool)
    ensures
        r == free(at(p), at(q), f@, g@),
{
    !seg_crosses_rect(p, q, f) && !seg_crosses_rect(p, q, g)
}

fn channel_clear(p: Point, q: Point, y: Px, f: Rect, g: Rect) -> (r: bool)
    ensures
        r == clear_at(at(p), at(q), y as int, f@, g@),
{
    let c = Point { x: p.x, y };
    let d = Point { x: q.x, y };
    segment_free(p, c, f, g) && segment_free(c, d, f, g) && segment_free(d, q, f, g)
}

fn absolute(v: Px) -> (r: Px)
    requires
        near(v as int, 16),
    ensures
        r == size_of(v as int),
{
    if v < 0 {
        -v
    } else {
        v
    }
}

fn better_channel(best: Option<Px>, c: Px, is_clear: bool, orig: Px, toward: Px) -> (r: Option<Px>)
    requires
        near(c as int, 4),
        near(orig as int, 4),
        near(toward as int, 4),
        best matches Some(b) ==> near(b as int, 4),
    ensures
        as_int(r) == or_channel(as_int(best), c as int, is_clear, orig as int, toward as int),
        r matches Some(b) ==> near(b as int, 4),
{
    let wins = match best {
        Some(b) => {
            let dc: Px = absolute(c - orig);
            let db: Px = absolute(b - orig);
            dc < db || (dc == db && absolute(c - toward) < absolute(b - toward))
        },
        None => true,
    };
    if is_clear && wins {
        Some(c)
    } else {
        best
    }
}

spec fn as_int(o: Option<Px>) -> Option<int> {
    match o {
        Some(v) => Some(v as int),
        None => None,
    }
}

fn pick_channel(p: Point, q: Point, orig: Px, toward: Px, f: Rect, g: Rect) -> (r: Px)
    requires
        near(orig as int, 4),
        near(toward as int, 4),
        near(f.t as int, 2) && near(f.b as int, 2),
        near(g.t as int, 2) && near(g.b as int, 2),
    ensures
        r == channel(at(p), at(q), orig as int, toward as int, f@, g@),
        near(r as int, 4),
{
    if channel_clear(p, q, orig, f, g) {
        return orig;
    }
    let c0: Px = f.t - PORT_LEAD;
    let c1: Px = f.b + PORT_LEAD;
    let c2: Px = g.t - PORT_LEAD;
    let c3: Px = g.b + PORT_LEAD;
    let b0 = better_channel(None, c0, channel_clear(p, q, c0, f, g), orig, toward);
    let b1 = better_channel(b0, c1, channel_clear(p, q, c1, f, g), orig, toward);
    let b2 = better_channel(b1, c2, channel_clear(p, q, c2, f, g), orig, toward);
    let b3 = better_channel(b2, c3, channel_clear(p, q, c3, f, g), orig, toward);
    match b3 {
        Some(c) => c,
        None => orig,
    }
}

fn add_point(v: &mut Vec<Point>, p: Point, wanted: bool)
    requires
        course_near(old(v)@, 4),
        point_near(at(p), 4),
    ensures
        course(final(v)@) == with_point(course(old(v)@), at(p), wanted),
        course_near(final(v)@, 4),
{
    let ghost before = v@;
    if wanted {
        v.push(p);
        assert(course(v@) =~= course(before).push(at(p)));
    }
}

fn route_flank(
    a: Spot,
    from_side: AdvanceSide,
    p: Point,
    b: Spot,
    to_side: AdvanceSide,
    q: Point,
    fan: Px,
) -> (r: Vec<Point>)
    requires
        spot_near(a),
        spot_near(b),
        point_near(at(p), 2),
        point_near(at(q), 2),
        near(fan as int, 1),
    ensures
        course(r@) == flank_path(a, from_side, at(p), b, to_side, at(q), fan as int),
        course_near(r@, 4),
{
    let l0 = port_leader(p, from_side);
    let l3 = port_leader(q, to_side);
    let y: Px = pick_channel(l0, l3, l0.y + fan, b.y, node_rect(a), node_rect(b));
    let mut pts: Vec<Point> = vec![p, l0];
    assert(course(pts@) =~= seq![at(p), at(l0)]);
    add_point(&mut pts, Point { x: l0.x, y }, y != l0.y);
    add_point(&mut pts, Point { x: l3.x, y }, l3.x != l0.x || y != l0.y);
    add_point(&mut pts, l3, l3.y != y);
    add_point(&mut pts, q, true);
    dedup_pts(&pts)
}

/// Route between two boundary points with given sides. Each leader leaves
/// its point straight out of its side; a channel that avoids both nodes,
/// where there is one, joins them.
pub fn route_ported(
    a: Spot,
    from_side: AdvanceSide,
    p: Point,
    b: Spot,
    to_side: AdvanceSide,
    q: Point,
    fan: Px,
) -> (r: Vec<Point>)
    requires
        spot_near(a),
        spot_near(b),
        point_near(at(p), 2),
        point_near(at(q), 2),
        near(fan as int, 1),
    ensures
        course(r@) == ported_path(a, from_side, at(p), b, to_side, at(q), fan as int),
        course_near(r@, 4),
{
    match from_side {
        AdvanceSide::Left | AdvanceSide::Right => route_flank(
            a,
            from_side,
            p,
            b,
            to_side,
            q,
            fan,
        ),
        _ => {
            let t = route_flank(
                turn_spot(a),
                turn_side(from_side),
                Point { x: p.y, y: p.x },
                turn_spot(b),
                turn_side(to_side),
                Point { x: q.y, y: q.x },
                fan,
            );
            turn_points(&t)
        },
    }
}

/// The side on which a route that chooses its own sides meets a node, with
/// lanes side by side: the source's where `is_from` is set, else the
/// target's. In a lane the sides face up and down, across lanes they face
/// left and right.
pub open spec fn own_side_upright(a: Spot, b: Spot, is_from: bool, same_lane: bool) -> AdvanceSide {
    if same_lane {
        if (a.y < b.y) == is_from {
            AdvanceSide::Bottom
        } else {
            AdvanceSide::Top
        }
    } else if (b.x >= a.x) == is_from {
        AdvanceSide::Right
    } else {
        AdvanceSide::Left
    }
}

/// The side on which a route that chooses its own sides meets a node.
pub open spec fn own_side(
    a: Spot,
    b: Spot,
    dir: AdvanceDirection,
    is_from: bool,
    same_lane: bool,
) -> AdvanceSide {
    match dir {
        AdvanceDirection::Vertical => own_side_upright(a, b, is_from, same_lane),
        AdvanceDirection::Horizontal => turned_side(
            own_side_upright(turned_spot(a), turned_spot(b), is_from, same_lane),
        ),
    }
}

pub fn natural_side(a: Spot, b: Spot, dir: AdvanceDirection, is_from: bool, same_lane: bool) -> (r:
    AdvanceSide)
    ensures
        r == own_side(a, b, dir, is_from, same_lane),
{
    match dir {
        AdvanceDirection::Vertical => {
            if same_lane {
                if is_from == (a.y < b.y) {
                    AdvanceSide::Bottom
                } else {
                    AdvanceSide::Top
                }
            } else if is_from == (b.x >= a.x) {
                AdvanceSide::Right
            } else {
                AdvanceSide::Left
            }
        },
        AdvanceDirection::Horizontal => {
            if same_lane {
                if is_from == (a.x < b.x) {
                    AdvanceSide::Right
                } else {
                    AdvanceSide::Left
                }
            } else if is_from == (b.y >= a.y) {
                AdvanceSide::Bottom
            } else {
                AdvanceSide::Top
            }
        },
    }
}

/// The first exposed side: `wanted`, then the flank and the end that face a
/// target at `(dx, dy)`, then their opposites; `wanted` where none is.
pub open spec fn exposed_side(wanted: AdvanceSide, e: Exposed, dx: int, dy: int) -> AdvanceSide {
    let (h, hb) = if dx >= 0 {
        (AdvanceSide::Right, AdvanceSide::Left)
    } else {
        (AdvanceSide::Left, AdvanceSide::Right)
    };
    let (v, vb) = if dy >= 0 {
        (AdvanceSide::Bottom, AdvanceSide::Top)
    } else {
        (AdvanceSide::Top, AdvanceSide::Bottom)
    };
    if shows(e, wanted) {
        wanted
    } else if shows(e, h) {
        h
    } else if shows(e, v) {
        v
    } else if shows(e, hb) {
        hb
    } else if shows(e, vb) {
        vb
    } else {
        wanted
    }
}

pub fn pick_exposed_side(wanted: AdvanceSide, exposed: Exposed, dx: Px, dy: Px) -> (r: AdvanceSide)
    ensures
        r == exposed_side(wanted, exposed, dx as int, dy as int),
{
    if exposed.has(wanted) {
        return wanted;
    }
    let (h, hb) = if dx >= 0 {
        (AdvanceSide::Right, AdvanceSide::Left)
    } else {
        (AdvanceSide::Left, AdvanceSide::Right)
    };
    let (v, vb) = if dy >= 0 {
        (AdvanceSide::Bottom, AdvanceSide::Top)
    } else {
        (AdvanceSide::Top, AdvanceSide::Bottom)
    };
    if exposed.has(h) {
        h
    } else if exposed.has(v) {
        v
    } else if exposed.has(hb) {
        hb
    } else if exposed.has(vb) {
        vb
    } else {
        wanted
    }
}

} // verus!
