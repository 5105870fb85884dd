//! Routes give way to the boxes between their ends.

use vstd::prelude::*;

use crate::advance::route::geometry::{
    crosses, crosses_any, frame, least, most, Spot,
};
use crate::advance::route::paths::{
    across_lanes, between, cover, covers, down_lane, inserted, lane_blocked, loop_down, nudged,
    reached, rightmost, widest, wider, SELF_LOOP_DX, SIDE_CHANNEL_INSET,
};

verus! {

/// Whether stretches are ordered by their starts.
spec fn by_starts(s: Seq<(int, int)>) -> bool {
    forall|i: int, j: int| 0 <= i < j < s.len() ==> (#[trigger] s[i]).0 <= (#[trigger] s[j]).0
}

proof fn lemma_inserted_order(s: Seq<(int, int)>, x: (int, int))
    requires
        by_starts(s),
    ensures
        by_starts(inserted(s, x)),
        inserted(s, x).contains(x),
        forall|y: (int, int)| #[trigger] s.contains(y) ==> inserted(s, x).contains(y),
        forall|i: int|
            0 <= i < inserted(s, x).len() ==> #[trigger] inserted(s, x)[i] == x || s.contains(
                inserted(s, x)[i],
            ),
    decreases s.len(),
{
    let r = inserted(s, x);
    if s.len() == 0 || s.last().0 <= x.0 {
        assert(r[s.len() as int] == x);
        assert forall|y: (int, int)| #[trigger] s.contains(y) implies r.contains(y) by {
            let k = choose|k: int| 0 <= k < s.len() && s[k] == y;
            assert(r[k] == y);
        }
        assert forall|i: int| 0 <= i < r.len() implies #[trigger] r[i] == x || s.contains(r[i]) by {
            if i < s.len() {
                assert(r[i] == s[i]);
            }
        }
        assert forall|i: int, j: int| 0 <= i < j < r.len() implies (#[trigger] r[i]).0 <= (
        #[trigger] r[j]).0 by {
            if j == s.len() {
                assert(s[i].0 <= s[s.len() - 1].0);
            }
        }
    } else {
        let front = s.drop_last();
        let z = s.last();
        assert(by_starts(front));
        lemma_inserted_order(front, x);
        let p = inserted(front, x);
        assert(r == p.push(z));
        let at = choose|k: int| 0 <= k < p.len() && p[k] == x;
        assert(r[at] == x);
        assert forall|y: (int, int)| #[trigger] s.contains(y) implies r.contains(y) by {
            let k = choose|k: int| 0 <= k < s.len() && s[k] == y;
            if k < front.len() {
                assert(front[k] == y);
                assert(front.contains(y));
                let m = choose|m: int| 0 <= m < p.len() && p[m] == y;
                assert(r[m] == y);
            } else {
                assert(r[p.len() as int] == y);
            }
        }
        assert forall|i: int| 0 <= i < r.len() implies #[trigger] r[i] == x || s.contains(r[i]) by {
            if i < p.len() {
                assert(r[i] == p[i]);
                if p[i] != x {
                    let k = choose|k: int| 0 <= k < front.len() && front[k] == p[i];
                    assert(s[k] == p[i]);
                }
            } else {
                assert(s[s.len() - 1] == z);
            }
        }
        assert forall|i: int, j: int| 0 <= i < j < r.len() implies (#[trigger] r[i]).0 <= (
        #[trigger] r[j]).0 by {
            assert(r[i] == p[i]);
            if j < p.len() {
                assert(r[j] == p[j]);
            } else if p[i] != x {
                let k = choose|k: int| 0 <= k < front.len() && front[k] == p[i];
                assert(s[k].0 <= s[s.len() - 1].0);
            }
        }
    }
}

proof fn lemma_covers(others: Seq<Spot>, k: int, lo_x: int, hi_x: int, lo_y: int, hi_y: int)
    requires
        0 <= k <= others.len(),
    ensures
        by_starts(covers(others, k, lo_x, hi_x, lo_y, hi_y)),
        forall|i: int|
            0 <= i < k ==> (cover(#[trigger] others[i], lo_x, hi_x, lo_y, hi_y) matches Some(c)
                ==> covers(others, k, lo_x, hi_x, lo_y, hi_y).contains(c)),
    decreases k,
{
    if k > 0 {
        lemma_covers(others, k - 1, lo_x, hi_x, lo_y, hi_y);
        let before = covers(others, k - 1, lo_x, hi_x, lo_y, hi_y);
        if let Some(c) = cover(others[k - 1], lo_x, hi_x, lo_y, hi_y) {
            lemma_inserted_order(before, c);
        }
    }
}

/// Whether a place lies in a gap before the `k`-th stretch, or behind all of
/// them where `k` is their number.
spec fn in_gap(s: Seq<(int, int)>, k: int, lo: int, hi: int, v: int) -> bool {
    &&& 0 <= k <= s.len()
    &&& reached(s, k, lo) < v < hi
    &&& k < s.len() ==> v < s[k].0
}

proof fn lemma_reached(s: Seq<(int, int)>, k: int, lo: int, j: int)
    requires
        0 <= j < k <= s.len(),
    ensures
        s[j].1 <= reached(s, k, lo),
    decreases k,
{
    if j < k - 1 {
        lemma_reached(s, k - 1, lo, j);
    }
}

proof fn lemma_reached_from(s: Seq<(int, int)>, k: int, lo: int)
    ensures
        lo <= reached(s, k, lo),
    decreases k,
{
    if k > 0 {
        lemma_reached_from(s, k - 1, lo);
    }
}

proof fn lemma_widest(s: Seq<(int, int)>, k: int, lo: int, hi: int)
    requires
        0 <= k <= s.len(),
        forall|i: int| 0 <= i < s.len() ==> (#[trigger] s[i]).0 <= hi,
    ensures
        widest(s, k, lo) matches Some(b) ==> exists|j: int|
            0 <= j < k && #[trigger] in_gap(s, j, lo, hi, b.0),
    decreases k,
{
    if k > 0 {
        lemma_widest(s, k - 1, lo, hi);
        let before = widest(s, k - 1, lo);
        let after = widest(s, k, lo);
        if after != before {
            let cursor = reached(s, k - 1, lo);
            assert(s[k - 1].0 <= hi);
            assert(in_gap(s, k - 1, lo, hi, (after->0).0));
        } else if before is Some {
            let j = choose|j: int| 0 <= j < k - 1 && #[trigger] in_gap(s, j, lo, hi, (before->0).0);
            assert(in_gap(s, j, lo, hi, (after->0).0));
        }
    }
}

proof fn lemma_starts(others: Seq<Spot>, k: int, lo_x: int, hi_x: int, lo_y: int, hi_y: int)
    requires
        0 <= k <= others.len(),
    ensures
        forall|i: int|
            0 <= i < covers(others, k, lo_x, hi_x, lo_y, hi_y).len() ==> (#[trigger] covers(
                others,
                k,
                lo_x,
                hi_x,
                lo_y,
                hi_y,
            )[i]).0 <= hi_x,
    decreases k,
{
    if k > 0 {
        lemma_starts(others, k - 1, lo_x, hi_x, lo_y, hi_y);
        lemma_covers(others, k - 1, lo_x, hi_x, lo_y, hi_y);
        let before = covers(others, k - 1, lo_x, hi_x, lo_y, hi_y);
        let after = covers(others, k, lo_x, hi_x, lo_y, hi_y);
        if let Some(c) = cover(others[k - 1], lo_x, hi_x, lo_y, hi_y) {
            lemma_inserted_order(before, c);
            assert forall|i: int| 0 <= i < after.len() implies (#[trigger] after[i]).0 <= hi_x by {
                if after[i] != c {
                    let m = choose|m: int| 0 <= m < before.len() && before[m] == after[i];
                    assert(before[m].0 <= hi_x);
                }
            }
        }
    }
}

/// The upright part of a route across lanes passes through no box, or stays
/// where it was meant to be: it is only moved to where it is free, and then
/// it runs between the two ends.
pub proof fn law_moved_routes_are_free(mid: int, p: (int, int), q: (int, int), others: Seq<Spot>)
    ensures
        ({
            let x = nudged(mid, p, q, others);
            let (lo, hi) = (least(p.1, q.1), most(p.1, q.1));
            &&& x == mid || !crosses_any((x, lo), (x, hi), others)
            &&& x == mid || least(p.0, q.0) < x < most(p.0, q.0)
            &&& !crosses_any((mid, lo), (mid, hi), others) ==> x == mid
        }),
{
    let lo_y = least(p.1, q.1);
    let hi_y = most(p.1, q.1);
    let lo_x = least(p.0, q.0);
    let hi_x = most(p.0, q.0);
    let x = nudged(mid, p, q, others);
    if x != mid {
        let n = others.len() as int;
        let s = covers(others, n, lo_x, hi_x, lo_y, hi_y);
        let m = s.len() as int;
        lemma_covers(others, n, lo_x, hi_x, lo_y, hi_y);
        lemma_starts(others, n, lo_x, hi_x, lo_y, hi_y);
        lemma_widest(s, m, lo_x, hi_x);
        let before = widest(s, m, lo_x);
        let b = wider(before, reached(s, m, lo_x), hi_x)->0;
        assert(x == b.0);
        let k = if wider(before, reached(s, m, lo_x), hi_x) == before {
            choose|j: int| 0 <= j < m && #[trigger] in_gap(s, j, lo_x, hi_x, (before->0).0)
        } else {
            m
        };
        assert(in_gap(s, k, lo_x, hi_x, x));
        lemma_reached_from(s, k, lo_x);
        assert forall|i: int| 0 <= i < n implies !crosses(
            (x, lo_y),
            (x, hi_y),
            frame(#[trigger] others[i]),
        ) by {
            let f = frame(others[i]);
            if crosses((x, lo_y), (x, hi_y), f) {
                let c = cover(others[i], lo_x, hi_x, lo_y, hi_y);
                assert(c is Some);
                let j = choose|j: int| 0 <= j < s.len() && s[j] == c->0;
                if j < k {
                    lemma_reached(s, k, lo_x, j);
                } else if j > k {
                    assert(s[k].0 <= s[j].0);
                }
                assert(false);
            }
        }
    }
}

/// A route from lane to lane leaves its source on the side of its target and
/// meets the target on the side of the source. Its upright part runs through
/// no other box wherever it had to be moved.
pub proof fn law_cross_routes_run_between(a: Spot, b: Spot, others: Seq<Spot>)
    requires
        frame(a).r < frame(b).l || frame(b).r < frame(a).l,
        0 <= a.w,
        0 <= b.w,
    ensures
        ({
            let r = across_lanes(a, b, others, 0);
            &&& r.len() == 4
            &&& a.x < b.x ==> frame(a).r == r[0].0 && r[0].0 <= r[1].0 && r[2].0 <= r[3].0 && r[3].0
                == frame(b).l
            &&& a.x > b.x ==> frame(a).l == r[0].0 && r[0].0 >= r[1].0 && r[2].0 >= r[3].0 && r[3].0
                == frame(b).r
            &&& r[1].0 == r[2].0
            &&& r[0].1 == a.y && r[3].1 == b.y
        }),
{
    let (x0, x3) = if b.x >= a.x {
        (a.x + a.w / 2, b.x - b.w / 2)
    } else {
        (a.x - a.w / 2, b.x + b.w / 2)
    };
    law_moved_routes_are_free((x0 + x3) / 2, (x0, a.y as int), (x3, b.y as int), others);
}

proof fn lemma_rightmost(others: Seq<Spot>, k: int, lo: int, hi: int, right: int)
    requires
        0 <= k <= others.len(),
    ensures
        right <= rightmost(others, k, lo, hi, right),
        forall|i: int|
            0 <= i < k && frame(#[trigger] others[i]).b > lo && frame(others[i]).t < hi ==> frame(
                others[i],
            ).r <= rightmost(others, k, lo, hi, right),
    decreases k,
{
    if k > 0 {
        lemma_rightmost(others, k - 1, lo, hi, right);
    }
}

/// A route inside a lane runs straight from edge to edge where no other box
/// of the lane stands between the two nodes. Else it passes them on the
/// right: its detour keeps its distance from every box that reaches between
/// the nodes.
pub proof fn law_lane_routes_give_way(a: Spot, b: Spot, others: Seq<Spot>, i: int)
    requires
        0 <= i < others.len(),
    ensures
        ({
            let r = down_lane(a, b, others, 0);
            let (lo, hi) = between(a, b);
            let f = frame(others[i]);
            &&& lane_blocked(a, b, others) && f.b > lo && f.t < hi ==> {
                &&& r[1].0 == r[2].0
                &&& f.r + SIDE_CHANNEL_INSET <= r[1].0
                &&& frame(a).r + SIDE_CHANNEL_INSET <= r[1].0
            }
            &&& !lane_blocked(a, b, others) && a.x == b.x && lo < hi ==> {
                &&& r.len() == 2
                &&& !crosses((a.x as int, lo), (a.x as int, hi), f)
                &&& least(r[0].1, r[1].1) == lo && most(r[0].1, r[1].1) == hi
                &&& r[0].0 == a.x && r[1].0 == a.x
            }
        }),
{
    let (lo, hi) = between(a, b);
    lemma_rightmost(others, others.len() as int, lo, hi, a.x + a.w / 2);
}

/// The loop of a node onto itself leaves on its right, comes back from
/// below, and does not run through it.
pub proof fn law_loops_lie_outside(s: Spot, fan: int)
    requires
        0 <= s.w,
        0 <= s.h,
        -SELF_LOOP_DX < fan,
    ensures
        ({
            let r = loop_down(s, fan);
            let f = frame(s);
            &&& r.len() == 5
            &&& r[0] == (f.r, s.y as int)
            &&& r[4] == (s.x as int, f.b)
            &&& r[1].0 > f.r && r[3].1 > f.b
            &&& forall|i: int| 0 <= i < 4 ==> !crosses(#[trigger] r[i], r[i + 1], f)
        }),
{
    let r = loop_down(s, fan);
    let f = frame(s);
    assert forall|i: int| 0 <= i < 4 implies !crosses(#[trigger] r[i], r[i + 1], f) by {
        assert(i == 0 || i == 1 || i == 2 || i == 3);
    }
}

} // verus!
