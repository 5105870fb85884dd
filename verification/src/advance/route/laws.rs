//! What holds of routes.

use vstd::prelude::*;

use crate::advance::ends::terminal;
use crate::advance::route::edges::{
    edge_path, end_points, end_side, fan_of, given_or_own, others, path_of, spot,
};
use crate::advance::route::geometry::{
    frame, leader, side_middle, turned, turned_side, turned_spot, turned_spots, without_repeats, Spot,
};
use crate::advance::route::paths::{
    across_lanes, cross_lane_path, down_lane, loop_down, loop_path, same_lane_path,
};
use crate::advance::route::ports::{flank_path, is_flank, ported_path, with_point};
use crate::advance::scene::SceneNodeView;
use crate::advance::{AdvanceDirection, AdvanceSide, DiagramView, EndView, LaneEdgeView, LaneNodeView};

verus! {

/// Whether the segment behind point `i` runs along an axis.
pub open spec fn aligned(s: Seq<(int, int)>, i: int) -> bool {
    s[i].0 == s[i + 1].0 || s[i].1 == s[i + 1].1
}

/// Whether every segment of a route runs along an axis.
pub open spec fn orthogonal(s: Seq<(int, int)>) -> bool {
    forall|i: int| 0 <= i < s.len() - 1 ==> #[trigger] aligned(s, i)
}

proof fn lemma_turned(s: Seq<(int, int)>)
    requires
        orthogonal(s),
    ensures
        orthogonal(turned(s)),
        turned(s).len() == s.len(),
{
    let t = turned(s);
    assert forall|i: int| 0 <= i < t.len() - 1 implies #[trigger] aligned(t, i) by {
        assert(aligned(s, i));
    }
}

proof fn lemma_push(s: Seq<(int, int)>, p: (int, int))
    requires
        orthogonal(s),
        s.len() == 0 || s.last().0 == p.0 || s.last().1 == p.1,
    ensures
        orthogonal(s.push(p)),
{
    let t = s.push(p);
    assert forall|i: int| 0 <= i < t.len() - 1 implies #[trigger] aligned(t, i) by {
        if i < s.len() - 1 {
            assert(aligned(s, i));
        }
    }
}

proof fn lemma_without_repeats(s: Seq<(int, int)>)
    requires
        orthogonal(s),
    ensures
        orthogonal(without_repeats(s)),
        s.len() > 0 ==> without_repeats(s).len() > 0 && without_repeats(s)[0] == s[0]
            && without_repeats(s).last() == s.last(),
    decreases s.len(),
{
    if s.len() > 0 {
        let r = s.drop_last();
        assert(orthogonal(r)) by {
            assert forall|i: int| 0 <= i < r.len() - 1 implies #[trigger] aligned(r, i) by {
                assert(aligned(s, i));
            }
        }
        lemma_without_repeats(r);
        if r.len() > 0 {
            assert(aligned(s, r.len() - 1));
            assert(r.last() == s[r.len() - 1]);
            let head = without_repeats(r);
            if head.last() != s.last() {
                lemma_push(head, s.last());
            }
        } else {
            assert(without_repeats(r) =~= Seq::empty());
            lemma_push(Seq::empty(), s.last());
        }
    }
}

proof fn lemma_loop(a: Spot, fan: int)
    ensures
        orthogonal(loop_down(a, fan)),
{
    let s = loop_down(a, fan);
    assert forall|i: int| 0 <= i < s.len() - 1 implies #[trigger] aligned(s, i) by {
        assert(i == 0 || i == 1 || i == 2 || i == 3);
    }
}

proof fn lemma_down_lane(a: Spot, b: Spot, o: Seq<Spot>, fan: int)
    ensures
        orthogonal(down_lane(a, b, o, fan)),
{
    let s = down_lane(a, b, o, fan);
    assert forall|i: int| 0 <= i < s.len() - 1 implies #[trigger] aligned(s, i) by {
        assert(i == 0 || i == 1 || i == 2);
    }
}

proof fn lemma_across(a: Spot, b: Spot, o: Seq<Spot>, fan: int)
    ensures
        orthogonal(across_lanes(a, b, o, fan)),
{
    let s = across_lanes(a, b, o, fan);
    assert forall|i: int| 0 <= i < s.len() - 1 implies #[trigger] aligned(s, i) by {
        assert(i == 0 || i == 1 || i == 2);
    }
}

proof fn lemma_flank(
    a: Spot,
    from_side: AdvanceSide,
    p: (int, int),
    b: Spot,
    to_side: AdvanceSide,
    q: (int, int),
    fan: int,
)
    requires
        is_flank(from_side),
    ensures
        orthogonal(flank_path(a, from_side, p, b, to_side, q, fan)),
        flank_path(a, from_side, p, b, to_side, q, fan).len() > 0,
        flank_path(a, from_side, p, b, to_side, q, fan)[0] == p,
        flank_path(a, from_side, p, b, to_side, q, fan).last() == q,
{
    let l0 = leader(p, from_side);
    let l3 = leader(q, to_side);
    let y = crate::advance::route::ports::channel(
        l0,
        l3,
        l0.1 + fan,
        b.y as int,
        crate::advance::route::geometry::frame(a),
        crate::advance::route::geometry::frame(b),
    );
    let s0 = seq![p, l0];
    assert(orthogonal(s0)) by {
        assert forall|i: int| 0 <= i < s0.len() - 1 implies #[trigger] aligned(s0, i) by {
            assert(i == 0);
        }
    }
    assert(s0.last() == l0);
    let s1 = with_point(s0, (l0.0, y), y != l0.1);
    if y != l0.1 {
        lemma_push(s0, (l0.0, y));
    }
    assert(s1.last() == (l0.0, y));
    let s2 = with_point(s1, (l3.0, y), l3.0 != l0.0 || y != l0.1);
    if l3.0 != l0.0 || y != l0.1 {
        lemma_push(s1, (l3.0, y));
    }
    assert(s2.last() == (l3.0, y));
    let s3 = with_point(s2, l3, l3.1 != y);
    if l3.1 != y {
        lemma_push(s2, l3);
    }
    assert(s3.last() == l3);
    lemma_push(s3, q);
    assert(s3.push(q)[0] == p);
    lemma_without_repeats(s3.push(q));
}

proof fn lemma_ported(
    a: Spot,
    from_side: AdvanceSide,
    p: (int, int),
    b: Spot,
    to_side: AdvanceSide,
    q: (int, int),
    fan: int,
)
    ensures
        orthogonal(ported_path(a, from_side, p, b, to_side, q, fan)),
        ported_path(a, from_side, p, b, to_side, q, fan).len() > 0,
        ported_path(a, from_side, p, b, to_side, q, fan)[0] == p,
        ported_path(a, from_side, p, b, to_side, q, fan).last() == q,
{
    if is_flank(from_side) {
        lemma_flank(a, from_side, p, b, to_side, q, fan);
    } else {
        let ta = turned_spot(a);
        let tb = turned_spot(b);
        let fs = turned_side(from_side);
        let ts = turned_side(to_side);
        lemma_flank(ta, fs, (p.1, p.0), tb, ts, (q.1, q.0), fan);
        lemma_turned(flank_path(ta, fs, (p.1, p.0), tb, ts, (q.1, q.0), fan));
    }
}

/// A route with its terminals put on stays orthogonal, and starts and ends
/// in them.
proof fn lemma_with_terminals(t0: (int, int), mid: Seq<(int, int)>, t3: (int, int))
    requires
        orthogonal(mid),
        mid.len() > 0,
        t0.0 == mid[0].0 || t0.1 == mid[0].1,
        t3.0 == mid.last().0 || t3.1 == mid.last().1,
    ensures
        orthogonal(without_repeats(seq![t0] + mid + seq![t3])),
        without_repeats(seq![t0] + mid + seq![t3]).len() > 0,
        without_repeats(seq![t0] + mid + seq![t3])[0] == t0,
        without_repeats(seq![t0] + mid + seq![t3]).last() == t3,
{
    let s = seq![t0] + mid + seq![t3];
    assert(orthogonal(s)) by {
        assert forall|i: int| 0 <= i < s.len() - 1 implies #[trigger] aligned(s, i) by {
            if i == 0 {
                assert(s[1] == mid[0]);
            } else if i < mid.len() {
                assert(aligned(mid, i - 1));
                assert(s[i] == mid[i - 1] && s[i + 1] == mid[i]);
            } else {
                assert(s[i] == mid.last());
            }
        }
    }
    lemma_without_repeats(s);
    assert(s[0] == t0 && s.last() == t3);
}

proof fn lemma_loop_path(a: Spot, fan: int, dir: AdvanceDirection)
    ensures
        orthogonal(loop_path(a, fan, dir)),
        loop_path(a, fan, dir).len() > 0,
{
    lemma_loop(a, fan);
    lemma_loop(turned_spot(a), fan);
    lemma_turned(loop_down(turned_spot(a), fan));
}

proof fn lemma_same_lane_path(a: Spot, b: Spot, o: Seq<Spot>, fan: int, dir: AdvanceDirection)
    ensures
        orthogonal(same_lane_path(a, b, o, fan, dir)),
        same_lane_path(a, b, o, fan, dir).len() > 0,
{
    lemma_down_lane(a, b, o, fan);
    lemma_down_lane(turned_spot(a), turned_spot(b), turned_spots(o), fan);
    lemma_turned(down_lane(turned_spot(a), turned_spot(b), turned_spots(o), fan));
}

proof fn lemma_cross_lane_path(a: Spot, b: Spot, o: Seq<Spot>, fan: int, dir: AdvanceDirection)
    ensures
        orthogonal(cross_lane_path(a, b, o, fan, dir)),
        cross_lane_path(a, b, o, fan, dir).len() > 0,
{
    lemma_across(a, b, o, fan);
    lemma_across(turned_spot(a), turned_spot(b), turned_spots(o), fan);
    lemma_turned(across_lanes(turned_spot(a), turned_spot(b), turned_spots(o), fan));
}

/// Every segment of a route runs along an axis, and a route is not empty.
pub proof fn law_routes_are_orthogonal(
    d: DiagramView,
    nodes: Seq<SceneNodeView>,
    k: int,
    dir: AdvanceDirection,
)
    ensures
        orthogonal(path_of(d, nodes, k, dir)),
        path_of(d, nodes, k, dir).len() > 0,
{
    let e = d.edges[k];
    let a = nodes[crate::model::name_index(
        crate::advance::route::edges::scene_ids(nodes),
        e.from,
    )->Some_0];
    let b = nodes[crate::model::name_index(
        crate::advance::route::edges::scene_ids(nodes),
        e.to,
    )->Some_0];
    let ids = crate::advance::ends::lane_node_ids(d.nodes);
    let from = d.nodes[crate::model::name_index(ids, e.from)->Some_0];
    let to = d.nodes[crate::model::name_index(ids, e.to)->Some_0];
    lemma_edge_path(nodes, e, a, b, from, to, fan_of(d.edges, k), dir);
}

proof fn lemma_edge_path(
    nodes: Seq<SceneNodeView>,
    e: LaneEdgeView,
    a: SceneNodeView,
    b: SceneNodeView,
    from: LaneNodeView,
    to: LaneNodeView,
    fan: int,
    dir: AdvanceDirection,
)
    ensures
        orthogonal(edge_path(nodes, e, a, b, from, to, fan, dir)),
        edge_path(nodes, e, a, b, from, to, fan, dir).len() > 0,
{
    let sa = spot(a);
    let sb = spot(b);
    let same = a.lane == b.lane || e.from == e.to;
    let n = nodes.len() as int;
    if terminal(e.from_end) || terminal(e.to_end) {
        let fs = end_side(from, e.from_end, e.from_side, sa, sb, dir, true, same);
        let ts = end_side(to, e.to_end, e.to_side, sa, sb, dir, false, same);
        let (t0, b0) = end_points(a, e.from_end, fs);
        let (t3, b3) = end_points(b, e.to_end, ts);
        let mid = ported_path(sa, fs, b0, sb, ts, b3, fan);
        lemma_ported(sa, fs, b0, sb, ts, b3, fan);
        lemma_end_points(a, e.from_end, fs);
        lemma_end_points(b, e.to_end, ts);
        lemma_with_terminals(t0, mid, t3);
    } else if e.from_side is None && e.to_side is None {
        lemma_loop_path(sa, fan, dir);
        lemma_same_lane_path(sa, sb, others(nodes, n, a.id, b.id, Some(a.lane)), fan, dir);
        lemma_cross_lane_path(sa, sb, others(nodes, n, a.id, b.id, None), fan, dir);
    } else {
        let fs = given_or_own(e.from_side, sa, sb, dir, true, same);
        let ts = given_or_own(e.to_side, sa, sb, dir, false, same);
        lemma_ported(sa, fs, side_middle(sa, fs), sb, ts, side_middle(sb, ts), fan);
    }
}

/// A terminal and its point on the boundary lie on one axis.
proof fn lemma_end_points(n: SceneNodeView, end: EndView, side: AdvanceSide)
    ensures
        ({
            let (t, b) = end_points(n, end, side);
            t.0 == b.0 || t.1 == b.1
        }),
{
}

/// Whether a point is on a side of a box, in its middle or beside that by
/// half of `fan`.
pub open spec fn at_side(s: Spot, p: (int, int), fan: int) -> bool {
    let f = frame(s);
    ||| (p.0 == f.l || p.0 == f.r) && (p.1 == s.y || p.1 == s.y + fan / 2)
    ||| (p.1 == f.t || p.1 == f.b) && (p.0 == s.x || p.0 == s.x + fan / 2)
}

/// Whether a point is on the border of a box.
pub open spec fn on_border(s: Spot, p: (int, int)) -> bool {
    let f = frame(s);
    ||| (p.0 == f.l || p.0 == f.r) && f.t <= p.1 <= f.b
    ||| (p.1 == f.t || p.1 == f.b) && f.l <= p.0 <= f.r
}

/// Whether half of `fan` stays within a box, along both axes.
pub open spec fn fan_fits(s: Spot, fan: int) -> bool {
    -(s.w as int / 2) <= fan / 2 <= s.w as int / 2 && -(s.h as int / 2) <= fan / 2 <= s.h as int / 2
}

proof fn lemma_loop_ends(s: Spot, fan: int)
    ensures
        loop_down(s, fan).len() > 0,
        at_side(s, loop_down(s, fan)[0], fan),
        at_side(s, loop_down(s, fan).last(), fan),
{
}

proof fn lemma_down_ends(a: Spot, b: Spot, others: Seq<Spot>, fan: int)
    ensures
        down_lane(a, b, others, fan).len() > 0,
        at_side(a, down_lane(a, b, others, fan)[0], fan),
        at_side(b, down_lane(a, b, others, fan).last(), fan),
{
}

proof fn lemma_across_ends(a: Spot, b: Spot, others: Seq<Spot>, fan: int)
    ensures
        across_lanes(a, b, others, fan).len() > 0,
        at_side(a, across_lanes(a, b, others, fan)[0], fan),
        at_side(b, across_lanes(a, b, others, fan).last(), fan),
{
}

proof fn lemma_turned_ends(a: Spot, b: Spot, q: Seq<(int, int)>, fan: int)
    requires
        q.len() > 0,
        at_side(turned_spot(a), q[0], fan),
        at_side(turned_spot(b), q.last(), fan),
    ensures
        at_side(a, turned(q)[0], fan),
        at_side(b, turned(q).last(), fan),
{
    assert(turned(q)[0] == (q[0].1, q[0].0));
    assert(turned(q).last() == (q.last().1, q.last().0));
}

proof fn lemma_plain_ends(
    nodes: Seq<SceneNodeView>,
    e: LaneEdgeView,
    a: SceneNodeView,
    b: SceneNodeView,
    from: LaneNodeView,
    to: LaneNodeView,
    fan: int,
    dir: AdvanceDirection,
)
    requires
        !terminal(e.from_end) && !terminal(e.to_end),
        e.from_side is None && e.to_side is None,
    ensures
        at_side(spot(a), edge_path(nodes, e, a, b, from, to, fan, dir)[0], fan),
        at_side(
            if e.from == e.to {
                spot(a)
            } else {
                spot(b)
            },
            edge_path(nodes, e, a, b, from, to, fan, dir).last(),
            fan,
        ),
{
    let sa = spot(a);
    let sb = spot(b);
    let ta = turned_spot(sa);
    let tb = turned_spot(sb);
    let n = nodes.len() as int;
    let near_by = others(nodes, n, a.id, b.id, Some(a.lane));
    let all = others(nodes, n, a.id, b.id, None);
    if e.from == e.to {
        lemma_loop_ends(sa, fan);
        lemma_loop_ends(ta, fan);
        lemma_turned_ends(sa, sa, loop_down(ta, fan), fan);
    } else if a.lane == b.lane {
        lemma_down_ends(sa, sb, near_by, fan);
        lemma_down_ends(ta, tb, turned_spots(near_by), fan);
        lemma_turned_ends(sa, sb, down_lane(ta, tb, turned_spots(near_by), fan), fan);
    } else {
        lemma_across_ends(sa, sb, all, fan);
        lemma_across_ends(ta, tb, turned_spots(all), fan);
        lemma_turned_ends(sa, sb, across_lanes(ta, tb, turned_spots(all), fan), fan);
    }
}

/// A route that names sub-elements or anchors starts and ends in their
/// terminals; a route with a given side starts and ends in the middle of the
/// sides; every other route starts and ends on a side of its nodes' boxes,
/// which is on their borders where the fan of parallel edges is not wider
/// than the boxes.
pub proof fn law_routes_meet_their_ends(
    nodes: Seq<SceneNodeView>,
    e: LaneEdgeView,
    a: SceneNodeView,
    b: SceneNodeView,
    from: LaneNodeView,
    to: LaneNodeView,
    fan: int,
    dir: AdvanceDirection,
)
    ensures
        ({
            let same = a.lane == b.lane || e.from == e.to;
            let path = edge_path(nodes, e, a, b, from, to, fan, dir);
            let sa = spot(a);
            let sb = spot(b);
            if terminal(e.from_end) || terminal(e.to_end) {
                let fs = end_side(from, e.from_end, e.from_side, sa, sb, dir, true, same);
                let ts = end_side(to, e.to_end, e.to_side, sa, sb, dir, false, same);
                path[0] == end_points(a, e.from_end, fs).0 && path.last() == end_points(
                    b,
                    e.to_end,
                    ts,
                ).0
            } else if e.from_side is Some || e.to_side is Some {
                path[0] == side_middle(sa, given_or_own(e.from_side, sa, sb, dir, true, same))
                    && path.last() == side_middle(
                    sb,
                    given_or_own(e.to_side, sa, sb, dir, false, same),
                )
            } else {
                let end = if e.from == e.to {
                    sa
                } else {
                    sb
                };
                &&& at_side(sa, path[0], fan)
                &&& at_side(end, path.last(), fan)
                &&& a.w >= 0 && a.h >= 0 && fan_fits(sa, fan) ==> on_border(sa, path[0])
                &&& end.w >= 0 && end.h >= 0 && fan_fits(end, fan) ==> on_border(end, path.last())
            }
        }),
{
    let same = a.lane == b.lane || e.from == e.to;
    let sa = spot(a);
    let sb = spot(b);
    if terminal(e.from_end) || terminal(e.to_end) {
        let fs = end_side(from, e.from_end, e.from_side, sa, sb, dir, true, same);
        let ts = end_side(to, e.to_end, e.to_side, sa, sb, dir, false, same);
        let (t0, b0) = end_points(a, e.from_end, fs);
        let (t3, b3) = end_points(b, e.to_end, ts);
        lemma_ported(sa, fs, b0, sb, ts, b3, fan);
        lemma_end_points(a, e.from_end, fs);
        lemma_end_points(b, e.to_end, ts);
        lemma_with_terminals(t0, ported_path(sa, fs, b0, sb, ts, b3, fan), t3);
    } else if e.from_side is None && e.to_side is None {
        lemma_plain_ends(nodes, e, a, b, from, to, fan, dir);
    } else {
        let fs = given_or_own(e.from_side, sa, sb, dir, true, same);
        let ts = given_or_own(e.to_side, sa, sb, dir, false, same);
        lemma_ported(sa, fs, side_middle(sa, fs), sb, ts, side_middle(sb, ts), fan);
    }
}

} // verus!
