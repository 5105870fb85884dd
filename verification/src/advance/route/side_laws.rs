//! Routes leave their nodes towards each other, and out of their boxes.

use vstd::prelude::*;

use crate::advance::ends::{shows, Exposed};
use crate::advance::route::geometry::{
    crosses, frame, leader, side_middle, Frame, Spot, PORT_LEAD,
};
use crate::advance::route::paths::size_of;
use crate::advance::route::ports::{channel, clear_at, exposed_side, own_side};
use crate::advance::{AdvanceDirection, AdvanceSide};

verus! {

/// The side across from a side.
pub open spec fn across_from(side: AdvanceSide) -> AdvanceSide {
    match side {
        AdvanceSide::Left => AdvanceSide::Right,
        AdvanceSide::Right => AdvanceSide::Left,
        AdvanceSide::Top => AdvanceSide::Bottom,
        AdvanceSide::Bottom => AdvanceSide::Top,
    }
}

/// Whether a side of `a` looks towards `b`.
pub open spec fn looks_at(a: Spot, b: Spot, side: AdvanceSide) -> bool {
    match side {
        AdvanceSide::Left => b.x <= a.x,
        AdvanceSide::Right => a.x <= b.x,
        AdvanceSide::Top => b.y <= a.y,
        AdvanceSide::Bottom => a.y <= b.y,
    }
}

/// A route that chooses its own sides leaves its source towards its target
/// and meets the target on the side across. Inside a lane it runs along the
/// flow, from lane to lane across it.
pub proof fn law_own_sides_face_each_other(
    a: Spot,
    b: Spot,
    dir: AdvanceDirection,
    same_lane: bool,
)
    ensures
        ({
            let out = own_side(a, b, dir, true, same_lane);
            let into = own_side(a, b, dir, false, same_lane);
            let upright = out == AdvanceSide::Top || out == AdvanceSide::Bottom;
            &&& into == across_from(out)
            &&& looks_at(a, b, out)
            &&& looks_at(b, a, into)
            &&& upright == ((dir == AdvanceDirection::Vertical) == same_lane)
        }),
{
}

/// The side that is picked for a route is exposed wherever any side is: it
/// is the wanted one where that is exposed, and else one that looks towards
/// the target where such a side is exposed.
pub proof fn law_picked_side_is_exposed(wanted: AdvanceSide, e: Exposed, dx: int, dy: int)
    ensures
        ({
            let side = exposed_side(wanted, e, dx, dy);
            let some = shows(e, AdvanceSide::Left) || shows(e, AdvanceSide::Right) || shows(
                e,
                AdvanceSide::Top,
            ) || shows(e, AdvanceSide::Bottom);
            &&& some ==> shows(e, side)
            &&& shows(e, wanted) ==> side == wanted
            &&& !some ==> side == wanted
            &&& !shows(e, wanted) && dx > 0 && shows(e, AdvanceSide::Right) ==> side
                == AdvanceSide::Right
            &&& !shows(e, wanted) && dx < 0 && shows(e, AdvanceSide::Left) ==> side
                == AdvanceSide::Left
            &&& !shows(e, wanted) && dx == 0 && dy < 0 && !shows(e, AdvanceSide::Right) && shows(
                e,
                AdvanceSide::Top,
            ) ==> side == AdvanceSide::Top
            &&& !shows(e, wanted) && dx == 0 && dy > 0 && !shows(e, AdvanceSide::Right) && shows(
                e,
                AdvanceSide::Bottom,
            ) ==> side == AdvanceSide::Bottom
        }),
{
}

/// The middle of a side lies on the border of the box, and the leader from
/// it leads straight out of the box and not through it.
pub proof fn law_leaders_lead_out(s: Spot, side: AdvanceSide)
    requires
        0 <= s.w,
        0 <= s.h,
    ensures
        ({
            let f = frame(s);
            let p = side_middle(s, side);
            let q = leader(p, side);
            &&& f.l <= p.0 <= f.r && f.t <= p.1 <= f.b
            &&& !crosses(p, q, f)
            &&& match side {
                AdvanceSide::Left => q.0 + PORT_LEAD == f.l && q.1 == s.y,
                AdvanceSide::Right => q.0 == f.r + PORT_LEAD && q.1 == s.y,
                AdvanceSide::Top => q.1 + PORT_LEAD == f.t && q.0 == s.x,
                AdvanceSide::Bottom => q.1 == f.b + PORT_LEAD && q.0 == s.x,
            }
        }),
{
}

/// Whether a point lies on a segment along an axis.
pub open spec fn on_segment(p: (int, int), q: (int, int), r: (int, int)) -> bool {
    &&& p.0 <= r.0 <= q.0 || q.0 <= r.0 <= p.0
    &&& p.1 <= r.1 <= q.1 || q.1 <= r.1 <= p.1
    &&& p.0 == q.0 || p.1 == q.1
}

/// A segment crosses a box in both directions or in none. It crosses one
/// wherever a point of it lies inside, and none that it lies beside.
pub proof fn law_segments_cross_boxes(p: (int, int), q: (int, int), f: Frame, r: (int, int))
    ensures
        crosses(p, q, f) == crosses(q, p, f),
        p != q && on_segment(p, q, r) && f.l < r.0 < f.r && f.t < r.1 < f.b ==> crosses(p, q, f),
        p.0 <= f.l && q.0 <= f.l ==> !crosses(p, q, f),
        p.0 >= f.r && q.0 >= f.r ==> !crosses(p, q, f),
        p.1 <= f.t && q.1 <= f.t ==> !crosses(p, q, f),
        p.1 >= f.b && q.1 >= f.b ==> !crosses(p, q, f),
{
}

/// Whether a channel is one of those just outside two boxes.
pub open spec fn outside_channel(y: int, f: Frame, g: Frame) -> bool {
    y == f.t - PORT_LEAD || y == f.b + PORT_LEAD || y == g.t - PORT_LEAD || y == g.b + PORT_LEAD
}

/// The channel between two leaders stays where it is asked for, as long as
/// it is clear there; else it is clear wherever one just outside the two
/// boxes is, and no other clear one of these is nearer.
pub proof fn law_channel_is_clear(
    p: (int, int),
    q: (int, int),
    orig: int,
    toward: int,
    f: Frame,
    g: Frame,
    y: int,
)
    requires
        outside_channel(y, f, g),
    ensures
        ({
            let c = channel(p, q, orig, toward, f, g);
            &&& clear_at(p, q, orig, f, g) ==> c == orig
            &&& clear_at(p, q, y, f, g) ==> clear_at(p, q, c, f, g)
            &&& clear_at(p, q, y, f, g) && !clear_at(p, q, orig, f, g) ==> outside_channel(c, f, g)
                && size_of(c - orig) <= size_of(y - orig)
        }),
{
}

} // verus!
