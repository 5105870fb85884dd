//! Routes that choose their own sides: around a node, inside a lane, and
//! across lanes. Each is given for lanes that stand side by side; for lanes
//! above each other the axes are exchanged.

use vstd::prelude::*;

use crate::advance::route::geometry::{
    at, course, course_near, crosses_any, crosses_some, frame, greater, half, least, lesser, most,
    near, node_rect, point_near, spot_near, spots_near, turn_points, turn_spot, turn_spots, turned,
    turned_spot, turned_spots, Spot,
};
use crate::advance::scene::{Point, Px};
use crate::advance::AdvanceDirection;

verus! {

/// How far a loop reaches to the side of its node.
pub const SELF_LOOP_DX: i64 = 1792000;

/// How far a loop drops below its node.
pub const SELF_LOOP_DROP: i64 = 768000;

/// How far a detour keeps from the nodes that it passes.
pub const SIDE_CHANNEL_INSET: i64 = 768000;

/// The narrowest gap that a route is moved into.
pub const MIN_CHANNEL_GAP: i64 = 512000;

pub open spec fn size_of(v: int) -> int {
    if v < 0 {
        -v
    } else {
        v
    }
}

/// A loop out of the right side of a node and back into its bottom.
pub open spec fn loop_down(a: Spot, fan: int) -> Seq<(int, int)> {
    let out = a.x + a.w / 2 + SELF_LOOP_DX + fan;
    let low = a.y + a.h / 2 + SELF_LOOP_DROP + size_of(fan);
    seq![
        (a.x + a.w / 2, a.y as int),
        (out, a.y as int),
        (out, low),
        (a.x as int, low),
        (a.x as int, a.y + a.h / 2),
    ]
}

fn self_loop_down(a: Spot, fan: Px) -> (r: Vec<Point>)
    requires
        spot_near(a),
        near(fan as int, 1),
    ensures
        course(r@) == loop_down(a, fan as int),
        course_near(r@, 4),
{
    let right: Px = a.x + half(a.w);
    let bottom: Px = a.y + half(a.h);
    let wide: Px = if fan < 0 {
        -fan
    } else {
        fan
    };
    let out: Px = right + SELF_LOOP_DX + fan;
    let low: Px = bottom + SELF_LOOP_DROP + wide;
    let r = vec![
        Point { x: right, y: a.y },
        Point { x: out, y: a.y },
        Point { x: out, y: low },
        Point { x: a.x, y: low },
        Point { x: a.x, y: bottom },
    ];
    assert(course(r@) =~= loop_down(a, fan as int));
    r
}

/// The stretch between two boxes of a lane, from the bottom of the upper to
/// the top of the lower.
pub open spec fn between(a: Spot, b: Spot) -> (int, int) {
    if a.y < b.y {
        (a.y + a.h / 2, b.y - b.h / 2)
    } else {
        (b.y + b.h / 2, a.y - a.h / 2)
    }
}

/// Whether a box of the lane stands between two others.
pub open spec fn lane_blocked(a: Spot, b: Spot, others: Seq<Spot>) -> bool {
    let (lo, hi) = between(a, b);
    hi > lo && crosses_any((a.x as int, lo), (a.x as int, hi), others)
}

/// The right edge of the boxes among the first `k` that reach into the
/// stretch from `lo` to `hi`, but at least `right`.
pub open spec fn rightmost(others: Seq<Spot>, k: int, lo: int, hi: int, right: int) -> int
    decreases k,
{
    if k <= 0 {
        right
    } else {
        let f = frame(others[k - 1]);
        let before = rightmost(others, k - 1, lo, hi, right);
        if f.b > lo && f.t < hi {
            most(before, f.r)
        } else {
            before
        }
    }
}

/// A route inside a lane: around what stands between the nodes, else from
/// the facing edge of one to that of the other.
pub open spec fn down_lane(a: Spot, b: Spot, others: Seq<Spot>, fan: int) -> Seq<(int, int)> {
    let (lo, hi) = between(a, b);
    if lane_blocked(a, b, others) {
        let x = rightmost(others, others.len() as int, lo, hi, a.x + a.w / 2) + SIDE_CHANNEL_INSET
            + fan;
        seq![
            (a.x + a.w / 2, a.y as int),
            (x, a.y as int),
            (x, b.y as int),
            (b.x + b.w / 2, b.y as int),
        ]
    } else {
        let (y0, y3) = if a.y < b.y {
            (a.y + a.h / 2, b.y - b.h / 2)
        } else {
            (a.y - a.h / 2, b.y + b.h / 2)
        };
        let mid = (y0 + y3) / 2;
        if a.x == b.x {
            if fan == 0 {
                seq![(a.x as int, y0), (b.x as int, y3)]
            } else {
                let x = a.x + fan / 2;
                seq![(x, y0), (x, mid), (x, mid), (x, y3)]
            }
        } else {
            seq![
                (a.x as int, y0),
                (a.x as int, mid + fan),
                (b.x as int, mid + fan),
                (b.x as int, y3),
            ]
        }
    }
}

fn find_rightmost(others: &Vec<Spot>, lo: Px, hi: Px, right: Px) -> (r: Px)
    requires
        spots_near(others@),
        near(right as int, 2),
    ensures
        r == rightmost(others@, others@.len() as int, lo as int, hi as int, right as int),
        near(r as int, 2),
{
    let mut best: Px = right;
    let mut i: usize = 0;
    while i < others.len()
        invariant
            i <= others@.len(),
            spots_near(others@),
            near(best as int, 2),
            best == rightmost(others@, i as int, lo as int, hi as int, right as int),
        decreases others@.len() - i,
    {
        let f = node_rect(others[i]);
        assert(f@ == frame(others@[i as int]));
        if f.b > lo && f.t < hi {
            best = greater(best, f.r);
        }
        i += 1;
    }
    best
}

fn route_down_lane(a: Spot, b: Spot, others: &Vec<Spot>, fan: Px) -> (r: Vec<Point>)
    requires
        spot_near(a),
        spot_near(b),
        spots_near(others@),
        near(fan as int, 1),
    ensures
        course(r@) == down_lane(a, b, others@, fan as int),
        course_near(r@, 4),
{
    let ra = node_rect(a);
    let rb = node_rect(b);
    let (lo, hi): (Px, Px) = if a.y < b.y {
        (ra.b, rb.t)
    } else {
        (rb.b, ra.t)
    };
    assert((lo as int, hi as int) == between(a, b));
    let blocked = hi > lo && crosses_some(
        Point { x: a.x, y: lo },
        Point { x: a.x, y: hi },
        others,
    );
    assert(blocked == lane_blocked(a, b, others@));
    let r = if blocked {
        let x: Px = find_rightmost(others, lo, hi, ra.r) + SIDE_CHANNEL_INSET + fan;
        vec![
            Point { x: ra.r, y: a.y },
            Point { x, y: a.y },
            Point { x, y: b.y },
            Point { x: rb.r, y: b.y },
        ]
    } else {
        let (y0, y3): (Px, Px) = if a.y < b.y {
            (ra.b, rb.t)
        } else {
            (ra.t, rb.b)
        };
        let mid: Px = half(y0 + y3);
        if a.x == b.x {
            if fan == 0 {
                vec![Point { x: a.x, y: y0 }, Point { x: b.x, y: y3 }]
            } else {
                let x: Px = a.x + half(fan);
                vec![
                    Point { x, y: y0 },
                    Point { x, y: mid },
                    Point { x, y: mid },
                    Point { x, y: y3 },
                ]
            }
        } else {
            let y: Px = mid + fan;
            vec![
                Point { x: a.x, y: y0 },
                Point { x: a.x, y },
                Point { x: b.x, y },
                Point { x: b.x, y: y3 },
            ]
        }
    };
    assert(course(r@) =~= down_lane(a, b, others@, fan as int));
    r
}

/// The stretch that a box covers of a channel between `lo_x` and `hi_x` at
/// heights from `lo_y` to `hi_y`.
pub open spec fn cover(s: Spot, lo_x: int, hi_x: int, lo_y: int, hi_y: int) -> Option<(int, int)> {
    let f = frame(s);
    let l = most(f.l, lo_x);
    let r = least(f.r, hi_x);
    if f.t < hi_y && f.b > lo_y && l < r {
        Some((l, r))
    } else {
        None
    }
}

/// `s`, ordered by their starts, with one more stretch in its place.
pub open spec fn inserted(s: Seq<(int, int)>, x: (int, int)) -> Seq<(int, int)>
    decreases s.len(),
{
    if s.len() == 0 || s.last().0 <= x.0 {
        s.push(x)
    } else {
        inserted(s.drop_last(), x).push(s.last())
    }
}

/// The stretches that the first `k` boxes cover, ordered by their starts.
pub open spec fn covers(
    others: Seq<Spot>,
    k: int,
    lo_x: int,
    hi_x: int,
    lo_y: int,
    hi_y: int,
) -> Seq<(int, int)>
    decreases k,
{
    if k <= 0 {
        Seq::empty()
    } else {
        let before = covers(others, k - 1, lo_x, hi_x, lo_y, hi_y);
        match cover(others[k - 1], lo_x, hi_x, lo_y, hi_y) {
            Some(c) => inserted(before, c),
            None => before,
        }
    }
}

/// The wider of `best`, given by its middle and its width, and the gap from
/// `from` to `to`, where that is wide enough.
pub open spec fn wider(best: Option<(int, int)>, from: int, to: int) -> Option<(int, int)> {
    let w = to - from;
    if w >= MIN_CHANNEL_GAP && (match best {
        Some(b) => w > b.1,
        None => true,
    }) {
        Some(((from + to) / 2, w))
    } else {
        best
    }
}

/// How far the first `k` stretches reach from `lo`.
pub open spec fn reached(covered: Seq<(int, int)>, k: int, lo: int) -> int
    decreases k,
{
    if k <= 0 {
        lo
    } else {
        most(reached(covered, k - 1, lo), covered[k - 1].1)
    }
}

/// The widest gap before the first `k` stretches.
pub open spec fn widest(covered: Seq<(int, int)>, k: int, lo: int) -> Option<(int, int)>
    decreases k,
{
    if k <= 0 {
        None
    } else {
        let before = widest(covered, k - 1, lo);
        let cursor = reached(covered, k - 1, lo);
        if covered[k - 1].0 > cursor {
            wider(before, cursor, covered[k - 1].0)
        } else {
            before
        }
    }
}

/// Where the upright part of a route runs: at `mid` where nothing is in its
/// way, else in the middle of the widest gap between what is.
pub open spec fn nudged(mid: int, p: (int, int), q: (int, int), others: Seq<Spot>) -> int {
    let lo_y = least(p.1, q.1);
    let hi_y = most(p.1, q.1);
    let lo_x = least(p.0, q.0);
    let hi_x = most(p.0, q.0);
    if lo_y == hi_y || !crosses_any((mid, lo_y), (mid, hi_y), others) {
        mid
    } else {
        let covered = covers(others, others.len() as int, lo_x, hi_x, lo_y, hi_y);
        let n = covered.len() as int;
        match wider(widest(covered, n, lo_x), reached(covered, n, lo_x), hi_x) {
            Some(b) => b.0,
            None => mid,
        }
    }
}

/// A route from a side of one node, across to the facing side of another.
pub open spec fn across_lanes(a: Spot, b: Spot, others: Seq<Spot>, fan: int) -> Seq<(int, int)> {
    let (x0, x3) = if b.x >= a.x {
        (a.x + a.w / 2, b.x - b.w / 2)
    } else {
        (a.x - a.w / 2, b.x + b.w / 2)
    };
    let p = (x0, a.y as int);
    let q = (x3, b.y as int);
    let mid = nudged((x0 + x3) / 2 + fan, p, q, others);
    seq![p, (mid, p.1), (mid, q.1), q]
}

/// Stretches in mathematical terms.
spec fn stretches(v: Seq<(Px, Px)>) -> Seq<(int, int)> {
    v.map_values(|s: (Px, Px)| (s.0 as int, s.1 as int))
}

spec fn stretches_near(v: Seq<(Px, Px)>) -> bool {
    forall|i: int| 0 <= i < v.len() ==> near((#[trigger] v[i]).0 as int, 2) && near(v[i].1 as int, 2)
}

proof fn lemma_inserted(s: Seq<(int, int)>, x: (int, int), k: int)
    requires
        0 <= k <= s.len(),
        forall|j: int| k <= j < s.len() ==> (#[trigger] s[j]).0 > x.0,
        k == 0 || s[k - 1].0 <= x.0,
    ensures
        inserted(s, x) == s.insert(k, x),
    decreases s.len(),
{
    if k < s.len() {
        let r = s.drop_last();
        assert forall|j: int| k <= j < r.len() implies (#[trigger] r[j]).0 > x.0 by {
            assert(r[j] == s[j]);
        }
        assert(s[s.len() - 1].0 > x.0);
        lemma_inserted(r, x, k);
        assert(r.insert(k, x).push(s.last()) =~= s.insert(k, x));
    } else {
        assert(s.push(x) =~= s.insert(k, x));
    }
}

fn insert_stretch(s: &mut Vec<(Px, Px)>, x: (Px, Px))
    requires
        stretches_near(old(s)@),
        near(x.0 as int, 2),
        near(x.1 as int, 2),
    ensures
        stretches(final(s)@) == inserted(stretches(old(s)@), (x.0 as int, x.1 as int)),
        stretches_near(final(s)@),
{
    let ghost before = s@;
    let ghost v = stretches(before);
    let mut k: usize = s.len();
    while k > 0 && s[k - 1].0 > x.0
        invariant
            k <= s@.len(),
            s@ == before,
            v == stretches(before),
            forall|j: int| k <= j < v.len() ==> (#[trigger] v[j]).0 > x.0,
        decreases k,
    {
        assert(v[k - 1].0 == s@[k - 1].0);
        k -= 1;
    }
    proof {
        if k > 0 {
            assert(v[k - 1].0 == s@[k - 1].0);
        }
        lemma_inserted(v, (x.0 as int, x.1 as int), k as int);
    }
    s.insert(k, x);
    assert(stretches(s@) =~= v.insert(k as int, (x.0 as int, x.1 as int)));
    assert(stretches_near(s@)) by {
        assert forall|i: int| 0 <= i < s@.len() implies near((#[trigger] s@[i]).0 as int, 2) && near(
            s@[i].1 as int,
            2,
        ) by {
            if i < k {
                assert(s@[i] == before[i]);
            } else if i > k {
                assert(s@[i] == before[i - 1]);
            }
        }
    }
}

fn collect_covers(others: &Vec<Spot>, lo_x: Px, hi_x: Px, lo_y: Px, hi_y: Px) -> (r: Vec<(Px, Px)>)
    requires
        spots_near(others@),
        near(lo_x as int, 2),
        near(hi_x as int, 2),
    ensures
        stretches(r@) == covers(
            others@,
            others@.len() as int,
            lo_x as int,
            hi_x as int,
            lo_y as int,
            hi_y as int,
        ),
        stretches_near(r@),
{
    let mut r: Vec<(Px, Px)> = Vec::new();
    let mut i: usize = 0;
    assert(stretches(r@) =~= Seq::empty());
    while i < others.len()
        invariant
            i <= others@.len(),
            spots_near(others@),
            near(lo_x as int, 2),
            near(hi_x as int, 2),
            stretches_near(r@),
            stretches(r@) == covers(
                others@,
                i as int,
                lo_x as int,
                hi_x as int,
                lo_y as int,
                hi_y as int,
            ),
        decreases others@.len() - i,
    {
        let f = node_rect(others[i]);
        let left: Px = greater(f.l, lo_x);
        let right: Px = lesser(f.r, hi_x);
        assert(f@ == frame(others@[i as int]));
        if f.t < hi_y && f.b > lo_y && left < right {
            insert_stretch(&mut r, (left, right));
        }
        i += 1;
    }
    r
}

fn better_gap(best: Option<(Px, Px)>, from: Px, to: Px) -> (r: Option<(Px, Px)>)
    requires
        near(from as int, 2),
        near(to as int, 2),
    ensures
        opt_gap(r) == wider(opt_gap(best), from as int, to as int),
        r == best || (r matches Some(b) && near(b.0 as int, 2)),
{
    let w: Px = to - from;
    let better = match best {
        Some((_, b)) => w > b,
        None => true,
    };
    if w >= MIN_CHANNEL_GAP && better {
        Some((half(from + to), w))
    } else {
        best
    }
}

spec fn opt_gap(o: Option<(Px, Px)>) -> Option<(int, int)> {
    match o {
        Some(b) => Some((b.0 as int, b.1 as int)),
        None => None,
    }
}

fn nudge_mid(mid: Px, p: Point, q: Point, others: &Vec<Spot>) -> (r: Px)
    requires
        spots_near(others@),
        near(mid as int, 4),
        point_near(at(p), 2),
        point_near(at(q), 2),
    ensures
        r == nudged(mid as int, at(p), at(q), others@),
        near(r as int, 4),
{
    let lo_y: Px = lesser(p.y, q.y);
    let hi_y: Px = greater(p.y, q.y);
    if lo_y == hi_y || !crosses_some(Point { x: mid, y: lo_y }, Point { x: mid, y: hi_y }, others) {
        return mid;
    }
    let lo_x: Px = lesser(p.x, q.x);
    let hi_x: Px = greater(p.x, q.x);
    let covered = collect_covers(others, lo_x, hi_x, lo_y, hi_y);
    let ghost c = stretches(covered@);
    let mut best: Option<(Px, Px)> = None;
    let mut cursor: Px = lo_x;
    let mut i: usize = 0;
    while i < covered.len()
        invariant
            i <= covered@.len(),
            c == stretches(covered@),
            stretches_near(covered@),
            near(cursor as int, 2),
            cursor == reached(c, i as int, lo_x as int),
            opt_gap(best) == widest(c, i as int, lo_x as int),
            best matches Some(b) ==> near(b.0 as int, 2),
        decreases covered@.len() - i,
    {
        let (l, r) = covered[i];
        assert(c[i as int] == (l as int, r as int));
        if l > cursor {
            best = better_gap(best, cursor, l);
        }
        cursor = greater(cursor, r);
        i += 1;
    }
    match better_gap(best, cursor, hi_x) {
        Some((x, _)) => x,
        None => mid,
    }
}

fn route_across_lanes(a: Spot, b: Spot, others: &Vec<Spot>, fan: Px) -> (r: Vec<Point>)
    requires
        spot_near(a),
        spot_near(b),
        spots_near(others@),
        near(fan as int, 1),
    ensures
        course(r@) == across_lanes(a, b, others@, fan as int),
        course_near(r@, 4),
{
    let ra = node_rect(a);
    let rb = node_rect(b);
    let (x0, x3): (Px, Px) = if b.x >= a.x {
        (ra.r, rb.l)
    } else {
        (ra.l, rb.r)
    };
    let p = Point { x: x0, y: a.y };
    let q = Point { x: x3, y: b.y };
    let mid: Px = nudge_mid(half(x0 + x3) + fan, p, q, others);
    let r = vec![p, Point { x: mid, y: p.y }, Point { x: mid, y: q.y }, q];
    assert(course(r@) =~= across_lanes(a, b, others@, fan as int));
    r
}

/// The loop of a node onto itself.
pub open spec fn loop_path(a: Spot, fan: int, dir: AdvanceDirection) -> Seq<(int, int)> {
    match dir {
        AdvanceDirection::Vertical => loop_down(a, fan),
        AdvanceDirection::Horizontal => turned(loop_down(turned_spot(a), fan)),
    }
}

/// The route between two nodes of a lane; `others` are the other nodes of
/// the lane.
pub open spec fn same_lane_path(
    a: Spot,
    b: Spot,
    others: Seq<Spot>,
    fan: int,
    dir: AdvanceDirection,
) -> Seq<(int, int)> {
    match dir {
        AdvanceDirection::Vertical => down_lane(a, b, others, fan),
        AdvanceDirection::Horizontal => turned(
            down_lane(turned_spot(a), turned_spot(b), turned_spots(others), fan),
        ),
    }
}

/// The route between nodes of two lanes; `others` are all other nodes.
pub open spec fn cross_lane_path(
    a: Spot,
    b: Spot,
    others: Seq<Spot>,
    fan: int,
    dir: AdvanceDirection,
) -> Seq<(int, int)> {
    match dir {
        AdvanceDirection::Vertical => across_lanes(a, b, others, fan),
        AdvanceDirection::Horizontal => turned(
            across_lanes(turned_spot(a), turned_spot(b), turned_spots(others), fan),
        ),
    }
}

pub fn route_self_loop(a: Spot, fan: Px, dir: AdvanceDirection) -> (r: Vec<Point>)
    requires
        spot_near(a),
        near(fan as int, 1),
    ensures
        course(r@) == loop_path(a, fan as int, dir),
        course_near(r@, 4),
{
    match dir {
        AdvanceDirection::Vertical => self_loop_down(a, fan),
        AdvanceDirection::Horizontal => turn_points(&self_loop_down(turn_spot(a), fan)),
    }
}

proof fn lemma_turned_near(s: Seq<Spot>)
    requires
        spots_near(s),
    ensures
        spots_near(turned_spots(s)),
{
    assert forall|i: int| 0 <= i < turned_spots(s).len() implies spot_near(
        #[trigger] turned_spots(s)[i],
    ) by {
        assert(spot_near(s[i]));
    }
}

pub fn route_same_lane(a: Spot, b: Spot, others: &Vec<Spot>, fan: Px, dir: AdvanceDirection) -> (r:
    Vec<Point>)
    requires
        spot_near(a),
        spot_near(b),
        spots_near(others@),
        near(fan as int, 1),
    ensures
        course(r@) == same_lane_path(a, b, others@, fan as int, dir),
        course_near(r@, 4),
{
    match dir {
        AdvanceDirection::Vertical => route_down_lane(a, b, others, fan),
        AdvanceDirection::Horizontal => {
            proof {
                lemma_turned_near(others@);
            }
            let t = turn_spots(others);
            turn_points(&route_down_lane(turn_spot(a), turn_spot(b), &t, fan))
        },
    }
}

pub fn route_cross_lane(a: Spot, b: Spot, others: &Vec<Spot>, fan: Px, dir: AdvanceDirection) -> (r:
    Vec<Point>)
    requires
        spot_near(a),
        spot_near(b),
        spots_near(others@),
        near(fan as int, 1),
    ensures
        course(r@) == cross_lane_path(a, b, others@, fan as int, dir),
        course_near(r@, 4),
{
    match dir {
        AdvanceDirection::Vertical => route_across_lanes(a, b, others, fan),
        AdvanceDirection::Horizontal => {
            proof {
                lemma_turned_near(others@);
            }
            let t = turn_spots(others);
            turn_points(&route_across_lanes(turn_spot(a), turn_spot(b), &t, fan))
        },
    }
}

} // verus!
