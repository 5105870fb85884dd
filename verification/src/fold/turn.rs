//! How the bands of a folded chain are put together: side by side, joined by
//! lines that turn around at the folds.

use vstd::prelude::*;

use crate::advance::place::lengths::{
    bound, bounded, cut, cut_wide, diff, minus, multiple, plus, sum, times,
};
use crate::advance::route::geometry::{greater, half, least, lesser, most, FAR};
use crate::advance::scene::Px;
use crate::layout::engine::MARGIN;
use crate::mindmap::scene::corners;

verus! {

/// How far a turn leads past the outermost node.
pub const TURN_DROP: Px = 2304000;

/// Distance of two turns at the same fold.
pub const LANE: Px = 896000;

/// A turn that is wider than this has a point in the middle.
pub const WIDE_TURN: Px = 10240000;

/// Where a node is drawn: its centre and its size.
#[derive(Debug, Clone, Copy)]
pub struct Stop {
    pub x: Px,
    pub y: Px,
    pub w: Px,
    pub h: Px,
}

/// The place of a node along the flow.
pub open spec fn flow(s: Stop, horizontal: bool) -> int {
    bound(
        if horizontal {
            s.x as int
        } else {
            s.y as int
        },
    )
}

/// The place of a node across the flow.
pub open spec fn across(s: Stop, horizontal: bool) -> int {
    bound(
        if horizontal {
            s.y as int
        } else {
            s.x as int
        },
    )
}

/// Half of the size of a node along the flow.
pub open spec fn reach(s: Stop, horizontal: bool) -> int {
    bound(
        if horizontal {
            s.w as int
        } else {
            s.h as int
        },
    ) / 2
}

fn flow_of(s: Stop, horizontal: bool) -> (r: Px)
    ensures
        r == flow(s, horizontal),
        bounded(r as int),
{
    if horizontal {
        cut(s.x)
    } else {
        cut(s.y)
    }
}

fn across_of(s: Stop, horizontal: bool) -> (r: Px)
    ensures
        r == across(s, horizontal),
        bounded(r as int),
{
    if horizontal {
        cut(s.y)
    } else {
        cut(s.x)
    }
}

fn reach_of(s: Stop, horizontal: bool) -> (r: Px)
    ensures
        r == reach(s, horizontal),
        bounded(r as int),
{
    if horizontal {
        half(cut(s.w))
    } else {
        half(cut(s.h))
    }
}

/// Whether two nodes are joined beyond the end of the flow, and not before
/// its start: they are at least as close to the end.
pub open spec fn turns_at_end(a: Stop, b: Stop, horizontal: bool, top: Px, bottom: Px) -> bool {
    let fa = flow(a, horizontal);
    let fb = flow(b, horizontal);
    minus(bound(bottom as int), most(fa, fb)) <= minus(least(fa, fb), bound(top as int))
}

/// How far along the flow turn number `lane` leads.
pub open spec fn apex(
    a: Stop,
    b: Stop,
    horizontal: bool,
    lane: int,
    top: Px,
    bottom: Px,
) -> int {
    let fa = flow(a, horizontal);
    let fb = flow(b, horizontal);
    let out = plus(
        plus(most(reach(a, horizontal), reach(b, horizontal)), TURN_DROP as int),
        times(lane, LANE as int),
    );
    if turns_at_end(a, b, horizontal, top, bottom) {
        plus(most(fa, fb), out)
    } else {
        minus(least(fa, fb), out)
    }
}

/// Find how far along the flow a turn leads, and to which side. `top` and
/// `bottom` are the places of the first and the last node along the flow.
pub fn turn_apex(a: Stop, b: Stop, horizontal: bool, lane: usize, top: Px, bottom: Px) -> (r: (
    Px,
    bool,
))
    ensures
        r.0 == apex(a, b, horizontal, lane as int, top, bottom),
        r.1 == turns_at_end(a, b, horizontal, top, bottom),
        bounded(r.0 as int),
{
    let fa: Px = flow_of(a, horizontal);
    let fb: Px = flow_of(b, horizontal);
    let far: Px = greater(fa, fb);
    let near: Px = lesser(fa, fb);
    let out: Px = sum(
        sum(greater(reach_of(a, horizontal), reach_of(b, horizontal)), TURN_DROP),
        multiple(lane, LANE),
    );
    if diff(cut(bottom), far) <= diff(near, cut(top)) {
        (sum(far, out), true)
    } else {
        (diff(near, out), false)
    }
}

/// A point at the given places along and across the flow.
pub open spec fn at_flow(f: int, b: int, horizontal: bool) -> (int, int) {
    if horizontal {
        (f, b)
    } else {
        (b, f)
    }
}

/// The points of a turn from `p` at node `a` to `q` at node `b`.
pub open spec fn turn_way(
    a: Stop,
    b: Stop,
    horizontal: bool,
    f: int,
    p: (Px, Px),
    q: (Px, Px),
) -> Seq<(int, int)> {
    let ba = across(a, horizontal);
    let bb = across(b, horizontal);
    let wide = ba - bb > WIDE_TURN || bb - ba > WIDE_TURN;
    seq![(p.0 as int, p.1 as int), at_flow(f, ba, horizontal)] + (if wide {
        seq![at_flow(f, (ba + bb) / 2, horizontal)]
    } else {
        Seq::empty()
    }) + seq![at_flow(f, bb, horizontal), (q.0 as int, q.1 as int)]
}

fn point_at(f: Px, b: Px, horizontal: bool) -> (r: (Px, Px))
    ensures
        (r.0 as int, r.1 as int) == at_flow(f as int, b as int, horizontal),
{
    if horizontal {
        (f, b)
    } else {
        (b, f)
    }
}

/// Lead an edge around a fold, at `f` along the flow, from `p` at node `a`
/// to `q` at node `b`.
pub fn fold_connector(
    a: Stop,
    b: Stop,
    horizontal: bool,
    f: Px,
    p: (Px, Px),
    q: (Px, Px),
) -> (r: Vec<(Px, Px)>)
    ensures
        corners(r@) == turn_way(a, b, horizontal, f as int, p, q),
{
    let ba: Px = across_of(a, horizontal);
    let bb: Px = across_of(b, horizontal);
    let mut r: Vec<(Px, Px)> = Vec::new();
    r.push(p);
    r.push(point_at(f, ba, horizontal));
    if ba - bb > WIDE_TURN || bb - ba > WIDE_TURN {
        r.push(point_at(f, half(ba + bb), horizontal));
    }
    r.push(point_at(f, bb, horizontal));
    r.push(q);
    assert(corners(r@) =~= turn_way(a, b, horizontal, f as int, p, q));
    r
}

/// Where band `k` starts across the flow.
pub open spec fn band_start(breadths: Seq<Px>, gap: u64, k: int) -> int
    decreases k,
{
    if k <= 0 {
        0
    } else {
        plus(
            band_start(breadths, gap, k - 1),
            plus(minus(bound(breadths[k - 1] as int), 2 * MARGIN), bound(gap as int)),
        )
    }
}

/// Put bands of the given breadths side by side.
pub fn stack_bands(breadths: &Vec<Px>, gap: u64) -> (r: Vec<Px>)
    ensures
        r@.len() == breadths@.len(),
        forall|k: int| 0 <= k < r@.len() ==> (#[trigger] r@[k]) == band_start(breadths@, gap, k),
{
    let by: Px = cut_wide(gap as i128);
    let mut r: Vec<Px> = Vec::new();
    let mut off: Px = 0;
    let mut k: usize = 0;
    while k < breadths.len()
        invariant
            k <= breadths@.len(),
            by == bound(gap as int),
            bounded(by as int),
            r@.len() == k,
            off == band_start(breadths@, gap, k as int),
            bounded(off as int),
            forall|i: int| 0 <= i < k ==> (#[trigger] r@[i]) == band_start(breadths@, gap, i),
        decreases breadths@.len() - k,
    {
        r.push(off);
        off = sum(off, sum(diff(cut(breadths[k]), 2 * MARGIN), by));
        k += 1;
    }
    r
}

/// A turn that leads past the end of the flow leads past both nodes, and
/// one that is farther out leads farther, as long as it stays in range.
pub proof fn law_turns_nest(
    a: Stop,
    b: Stop,
    horizontal: bool,
    lane: int,
    top: Px,
    bottom: Px,
)
    requires
        0 <= lane,
        0 <= reach(a, horizontal),
        0 <= reach(b, horizontal),
        0 <= flow(a, horizontal),
        0 <= flow(b, horizontal),
        turns_at_end(a, b, horizontal, top, bottom),
        apex(a, b, horizontal, lane + 1, top, bottom) < FAR,
    ensures
        flow(a, horizontal) + reach(a, horizontal) < apex(a, b, horizontal, lane, top, bottom),
        flow(b, horizontal) + reach(b, horizontal) < apex(a, b, horizontal, lane, top, bottom),
        apex(a, b, horizontal, lane, top, bottom) < apex(
            a,
            b,
            horizontal,
            lane + 1,
            top,
            bottom,
        ),
{
    assert((lane + 1) * LANE == lane * LANE + LANE) by (nonlinear_arith)
        requires
            LANE == 896000,
    ;
    assert(0 <= lane * LANE) by (nonlinear_arith)
        requires
            0 <= lane,
            LANE == 896000,
    ;
}

} // verus!
