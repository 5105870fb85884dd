//! Nodes and sub-lanes lie inside their lanes.

use vstd::prelude::*;

use crate::advance::place::coverage::{in_tree, in_trees};
use crate::advance::place::emit::{
    inner_corner, lane_start, node_start, nodes_start, stacked, with_lane, with_lanes, with_nodes,
    Stage,
};
use crate::advance::place::lanes::{
    all_as_high, all_as_wide, even_heights, even_widths, lane_dim, lane_dims, lane_list, max_h,
    max_w, nodes_extent, run_of_heights, run_of_widths, sum_h, sum_w, highest_node, widest_node,
    Basis, Dim, Spacing,
};
use crate::advance::place::layout::{all_explicit, basis, canvas, is_layout, stage, top_dims};
use crate::advance::place::lengths::plus;
use crate::advance::place::sequence::{
    lemma_stack_members, lemma_stack_multiset, stack_of, tree_distinct, trees_distinct,
};
use crate::advance::place::sizes::NodeMeasure;
use crate::advance::route::geometry::FAR;
use crate::advance::scene::{Px, SceneLaneView, SceneNodeView, SceneView};
use crate::advance::{AdvanceDirection, DiagramView, LaneView};

verus! {

/// Whether a node's box lies inside a lane's.
pub open spec fn node_inside(n: SceneNodeView, l: SceneLaneView) -> bool {
    &&& l.x <= n.x - n.w as int / 2
    &&& n.x + n.w as int / 2 <= l.x + l.w
    &&& l.y <= n.y - n.h as int / 2
    &&& n.y + n.h as int / 2 <= l.y + l.h
}

/// Whether a lane's box lies inside another's.
pub open spec fn lane_inside(a: SceneLaneView, b: SceneLaneView) -> bool {
    b.x <= a.x && a.x + a.w <= b.x + b.w && b.y <= a.y && a.y + a.h <= b.y + b.h
}

/// Whether lane `a` ends, with a gap, before lane `b` starts.
pub open spec fn ends_before(
    a: SceneLaneView,
    b: SceneLaneView,
    dir: AdvanceDirection,
    gap: int,
) -> bool {
    match dir {
        AdvanceDirection::Vertical => a.x + a.w + gap <= b.x,
        AdvanceDirection::Horizontal => a.y + a.h + gap <= b.y,
    }
}

/// Whether `q` is directly inside `p`, both in a lane.
pub open spec fn child_in(lane: LaneView, p: Seq<char>, q: Seq<char>) -> bool
    decreases lane, 0nat,
{
    (p == lane.id && exists|a: int|
        0 <= a < lane.children.len() && (#[trigger] lane.children[a]).id == q) || child_among(
        lane.children,
        lane.children.len(),
        p,
        q,
    )
}

/// Whether `q` is directly inside `p`, both in one of the first `k` lanes.
pub open spec fn child_among(lanes: Seq<LaneView>, k: nat, p: Seq<char>, q: Seq<char>) -> bool
    decreases lanes, k,
{
    0 < k <= lanes.len() && (child_in(lanes[k - 1], p, q) || child_among(
        lanes,
        (k - 1) as nat,
        p,
        q,
    ))
}

/// Whether `p` and `q` are directly inside the same lane of a lane, `p`
/// first.
pub open spec fn before_in(lane: LaneView, p: Seq<char>, q: Seq<char>) -> bool
    decreases lane, 0nat,
{
    before_among(lane.children, lane.children.len(), p, q)
}

/// Whether `p` and `q` are among the first `k` lanes, or directly inside the
/// same lane of them, `p` first.
pub open spec fn before_among(lanes: Seq<LaneView>, k: nat, p: Seq<char>, q: Seq<char>) -> bool
    decreases lanes, k,
{
    0 < k <= lanes.len() && ((lanes[k - 1].id == q && exists|a: int|
        0 <= a < k - 1 && (#[trigger] lanes[a]).id == p) || before_in(lanes[k - 1], p, q)
        || before_among(lanes, (k - 1) as nat, p, q))
}

proof fn lemma_child_in(lane: LaneView, p: Seq<char>, q: Seq<char>)
    requires
        child_in(lane, p, q),
    ensures
        in_tree(lane, p),
        in_tree(lane, q),
    decreases lane, 0nat,
{
    let n = lane.children.len();
    if child_among(lane.children, n, p, q) {
        lemma_child_among(lane.children, n, p, q);
    } else {
        let a = choose|a: int| 0 <= a < n && (#[trigger] lane.children[a]).id == q;
        lemma_first(lane.children, n, a);
    }
}

proof fn lemma_child_among(lanes: Seq<LaneView>, k: nat, p: Seq<char>, q: Seq<char>)
    requires
        child_among(lanes, k, p, q),
    ensures
        in_trees(lanes, p, k),
        in_trees(lanes, q, k),
    decreases lanes, k,
{
    if child_in(lanes[k - 1], p, q) {
        lemma_child_in(lanes[k - 1], p, q);
    } else {
        lemma_child_among(lanes, (k - 1) as nat, p, q);
    }
}

proof fn lemma_before_in(lane: LaneView, p: Seq<char>, q: Seq<char>)
    requires
        before_in(lane, p, q),
    ensures
        in_trees(lane.children, p, lane.children.len()),
        in_trees(lane.children, q, lane.children.len()),
    decreases lane, 0nat,
{
    lemma_before_among(lane.children, lane.children.len(), p, q);
}

proof fn lemma_before_among(lanes: Seq<LaneView>, k: nat, p: Seq<char>, q: Seq<char>)
    requires
        before_among(lanes, k, p, q),
    ensures
        in_trees(lanes, p, k),
        in_trees(lanes, q, k),
    decreases lanes, k,
{
    if before_in(lanes[k - 1], p, q) {
        lemma_before_in(lanes[k - 1], p, q);
        assert(in_tree(lanes[k - 1], p));
        assert(in_tree(lanes[k - 1], q));
    } else if before_among(lanes, (k - 1) as nat, p, q) {
        lemma_before_among(lanes, (k - 1) as nat, p, q);
    } else {
        let a = choose|a: int| 0 <= a < k - 1 && (#[trigger] lanes[a]).id == p;
        lemma_first(lanes, k, a);
        lemma_first(lanes, k, k - 1);
    }
}

/// A lane among the first `k` is in one of their trees.
proof fn lemma_first(lanes: Seq<LaneView>, k: nat, a: int)
    requires
        0 <= a < k <= lanes.len(),
    ensures
        in_trees(lanes, lanes[a].id, k),
    decreases k,
{
    if a < k - 1 {
        lemma_first(lanes, (k - 1) as nat, a);
    } else {
        assert(in_tree(lanes[a], lanes[a].id));
    }
}

/// Whether lanes are columns.
pub open spec fn vert(c: Basis) -> bool {
    c.d.direction == AdvanceDirection::Vertical
}

/// The extent of a lane along the flow.
pub open spec fn deep(c: Basis, m: Dim) -> int {
    if vert(c) {
        m.h
    } else {
        m.w
    }
}

/// The extent of a lane across the flow.
spec fn broad(c: Basis, m: Dim) -> int {
    if vert(c) {
        m.w
    } else {
        m.h
    }
}

/// The padding of a lane along the flow.
pub open spec fn pad_flow(c: Basis) -> int {
    if vert(c) {
        c.sp.lane_pad_y as int
    } else {
        c.sp.lane_pad_x as int
    }
}

spec fn pad_cross(c: Basis) -> int {
    if vert(c) {
        c.sp.lane_pad_x as int
    } else {
        c.sp.lane_pad_y as int
    }
}

/// The extent of node `i` along the flow.
pub open spec fn along(c: Basis, i: usize) -> int {
    if vert(c) {
        c.sizes[i as int].1 as int
    } else {
        c.sizes[i as int].0 as int
    }
}

/// The extent of node `i` across the flow.
spec fn cross(c: Basis, i: usize) -> int {
    if vert(c) {
        c.sizes[i as int].0 as int
    } else {
        c.sizes[i as int].1 as int
    }
}

/// The largest extent along the flow of the first `k` lanes.
pub open spec fn max_deep(c: Basis, ms: Seq<Dim>, k: int) -> int {
    if vert(c) {
        max_h(ms, k)
    } else {
        max_w(ms, k)
    }
}

/// Whether no spacing is negative and no node has a negative size.
pub open spec fn calm(c: Basis) -> bool {
    &&& 0 <= c.sp.margin <= FAR && 0 <= c.sp.lane_gap <= FAR && 0 <= c.sp.node_gap_y <= FAR
    &&& 0 <= c.sp.lane_pad_x <= FAR && 0 <= c.sp.lane_pad_y <= FAR
    &&& 0 <= c.sp.lane_title_h <= FAR
    &&& c.sizes.len() == c.d.nodes.len() <= usize::MAX
    &&& forall|i: int|
        0 <= i < c.sizes.len() ==> 0 <= (#[trigger] c.sizes[i]).0 <= FAR && 0 <= c.sizes[i].1
            <= FAR
}

/// Whether nodes are no farther apart than what their lane reckons with.
pub open spec fn close(c: Basis) -> bool {
    vert(c) || c.sp.node_gap_y <= c.sp.lane_gap
}

/// How far from the origin lanes end for which nothing is cut off.
pub open spec fn limit(sp: Spacing) -> int {
    FAR - sp.lane_gap - sp.node_gap_y
}

/// The first `k` listed nodes along the flow, with a gap behind each.
pub open spec fn run(c: Basis, list: Seq<usize>, k: int, gap: int) -> int
    decreases k,
{
    if k <= 0 {
        0
    } else {
        run(c, list, k - 1, gap) + along(c, list[k - 1]) + gap
    }
}

/// The first `k` lanes across the flow, with a gap between each two.
spec fn stretch(c: Basis, ms: Seq<Dim>, k: int) -> int
    decreases k,
{
    if k <= 0 {
        0
    } else if k == 1 {
        broad(c, ms[0])
    } else {
        stretch(c, ms, k - 1) + c.sp.lane_gap + broad(c, ms[k - 1])
    }
}

/// Whether all listed nodes exist.
spec fn listed(c: Basis, list: Seq<usize>) -> bool {
    forall|i: int| 0 <= i < list.len() ==> (#[trigger] list[i]) < c.d.nodes.len()
}

/// The room that the nodes of a lane need along the flow.
pub open spec fn need(c: Basis, lane: Seq<char>) -> int {
    let list = stacked(c, lane);
    if list.len() == 0 {
        0
    } else {
        run(c, list, list.len() as int, c.sp.node_gap_y as int) - c.sp.node_gap_y
    }
}

/// How far behind the start of a lane its nodes start along the flow.
pub open spec fn nodes_offset(c: Basis, inner: Seq<Dim>) -> int {
    let n = inner.len() as int;
    c.sp.lane_title_h + pad_flow(c) + (if n == 0 {
        0
    } else {
        max_deep(c, inner, n) + pad_flow(c)
    })
}

/// Whether a lane is long enough for its nodes, and so is every lane inside
/// it.
pub open spec fn roomy(c: Basis, lane: LaneView, m: Dim) -> bool
    decreases lane, 0nat,
{
    nodes_offset(c, m.children) + need(c, lane.id) <= deep(c, m) && all_roomy(
        c,
        lane.children,
        m.children,
        lane.children.len(),
    )
}

pub open spec fn all_roomy(c: Basis, lanes: Seq<LaneView>, ms: Seq<Dim>, k: nat) -> bool
    decreases lanes, k,
{
    &&& k <= lanes.len()
    &&& k > 0 ==> roomy(c, lanes[k - 1], ms[k - 1]) && all_roomy(c, lanes, ms, (k - 1) as nat)
}

proof fn lemma_all_roomy(c: Basis, lanes: Seq<LaneView>, ms: Seq<Dim>, k: nat, i: int)
    requires
        all_roomy(c, lanes, ms, k),
        0 <= i < k,
    ensures
        roomy(c, lanes[i], ms[i]),
    decreases k,
{
    if i < k - 1 {
        lemma_all_roomy(c, lanes, ms, (k - 1) as nat, i);
    }
}

/// Whether a lane is broad enough for its nodes and for the lanes inside it.
spec fn ample(c: Basis, lane: LaneView, m: Dim) -> bool
    decreases lane, 0nat,
{
    let n = lane.children.len() as int;
    &&& 0 <= m.w && 0 <= m.h
    &&& m.children.len() == n
    &&& forall|i: int|
        0 <= i < stacked(c, lane.id).len() ==> cross(c, #[trigger] stacked(c, lane.id)[i])
            <= broad(c, m)
    &&& n > 0 ==> pad_cross(c) + stretch(c, m.children, n) + pad_cross(c) <= broad(c, m)
    &&& all_ample(c, lane.children, m.children, lane.children.len())
}

spec fn all_ample(c: Basis, lanes: Seq<LaneView>, ms: Seq<Dim>, k: nat) -> bool
    decreases lanes, k,
{
    &&& k <= lanes.len()
    &&& k > 0 ==> ample(c, lanes[k - 1], ms[k - 1]) && all_ample(c, lanes, ms, (k - 1) as nat)
}

proof fn lemma_all_ample(c: Basis, lanes: Seq<LaneView>, ms: Seq<Dim>, k: nat, i: int)
    requires
        all_ample(c, lanes, ms, k),
        0 <= i < k,
    ensures
        ample(c, lanes[i], ms[i]),
    decreases k,
{
    if i < k - 1 {
        lemma_all_ample(c, lanes, ms, (k - 1) as nat, i);
    }
}

proof fn lemma_run_split(c: Basis, list: Seq<usize>, k: int, gap: int, b: int)
    requires
        0 <= k <= list.len(),
    ensures
        list.take(k).fold_right(|i: usize, acc: int| along(c, i) + gap + acc, b) == run(
            c,
            list,
            k,
            gap,
        ) + b,
    decreases k,
{
    let f = |i: usize, acc: int| along(c, i) + gap + acc;
    if k > 0 {
        lemma_run_split(c, list, k - 1, gap, f(list[k - 1], b));
        assert(list.take(k).drop_last() =~= list.take(k - 1));
        assert(list.take(k).last() == list[k - 1]);
    }
}

/// The order of nodes does not change how long they are together.
proof fn lemma_run_same(c: Basis, lane: Seq<char>, gap: int)
    requires
        c.d.nodes.len() <= usize::MAX,
    ensures
        run(c, stacked(c, lane), stacked(c, lane).len() as int, gap) == run(
            c,
            lane_list(c, lane),
            lane_list(c, lane).len() as int,
            gap,
        ),
        stacked(c, lane).len() == lane_list(c, lane).len(),
{
    let a = stacked(c, lane);
    let b = lane_list(c, lane);
    let f = |i: usize, acc: int| along(c, i) + gap + acc;
    lemma_stack_multiset(c.d, lane);
    assert(vstd::seq_lib::commutative_foldr(f));
    vstd::seq_lib::lemma_fold_right_permutation(a, b, f, 0);
    lemma_run_split(c, a, a.len() as int, gap, 0);
    lemma_run_split(c, b, b.len() as int, gap, 0);
    assert(a.take(a.len() as int) =~= a);
    assert(b.take(b.len() as int) =~= b);
    a.to_multiset_ensures();
    b.to_multiset_ensures();
}

proof fn lemma_run_signs(c: Basis, list: Seq<usize>, k: int, j: int, gap: int)
    requires
        calm(c),
        listed(c, list),
        0 <= j <= k <= list.len(),
        0 <= gap,
    ensures
        0 <= run(c, list, j, gap) <= run(c, list, k, gap),
    decreases k,
{
    if k > 0 {
        assert(c.sizes[list[k - 1] as int].0 >= 0);
        if j < k {
            lemma_run_signs(c, list, k - 1, j, gap);
        } else {
            lemma_run_signs(c, list, k - 1, k - 1, gap);
        }
    }
}

proof fn lemma_run_gaps(c: Basis, list: Seq<usize>, k: int, a: int, b: int)
    requires
        a <= b,
        0 <= k,
    ensures
        run(c, list, k, a) <= run(c, list, k, b),
        k > 0 ==> run(c, list, k, a) - a <= run(c, list, k, b) - b,
    decreases k,
{
    if k > 0 {
        lemma_run_gaps(c, list, k - 1, a, b);
    }
}

/// Runs that stay in range are exact.
proof fn lemma_runs(c: Basis, list: Seq<usize>, k: int, gap: int)
    requires
        calm(c),
        listed(c, list),
        0 <= k <= list.len(),
        0 <= gap <= FAR,
    ensures
        ({
            let r = if vert(c) {
                run_of_heights(c.sizes, list, k, gap)
            } else {
                run_of_widths(c.sizes, list, k, gap)
            };
            0 <= r <= FAR && (k > 0 ==> gap <= r) && (r < FAR ==> r == run(c, list, k, gap))
        }),
    decreases k,
{
    if k > 0 {
        lemma_runs(c, list, k - 1, gap);
        assert(c.sizes[list[k - 1] as int].0 >= 0);
    }
}

proof fn lemma_widest(c: Basis, list: Seq<usize>, k: int, i: int)
    requires
        0 <= i < k <= list.len(),
    ensures
        c.sizes[list[i] as int].0 <= widest_node(c.sizes, list, k),
        c.sizes[list[i] as int].1 <= highest_node(c.sizes, list, k),
    decreases k,
{
    if i < k - 1 {
        lemma_widest(c, list, k - 1, i);
    }
}

proof fn lemma_widest_sign(c: Basis, list: Seq<usize>, k: int)
    requires
        calm(c),
        listed(c, list),
        k <= list.len(),
    ensures
        0 <= widest_node(c.sizes, list, k) <= FAR,
        0 <= highest_node(c.sizes, list, k) <= FAR,
    decreases k,
{
    if k > 0 {
        lemma_widest_sign(c, list, k - 1);
        assert(c.sizes[list[k - 1] as int].0 >= 0);
    }
}

/// What a lane's nodes need, of which nothing is cut off.
proof fn lemma_need(c: Basis, lane: Seq<char>)
    requires
        calm(c),
    ensures
        ({
            let (nw, nh) = nodes_extent(c, lane);
            let flow = if vert(c) {
                nh
            } else {
                nw
            };
            let side = if vert(c) {
                nw
            } else {
                nh
            };
            &&& 0 <= need(c, lane)
            &&& 0 <= flow <= FAR
            &&& 0 <= side <= FAR
            &&& flow < limit(c.sp) && close(c) ==> need(c, lane) <= flow
            &&& forall|i: int|
                0 <= i < stacked(c, lane).len() ==> cross(c, #[trigger] stacked(c, lane)[i])
                    <= side
        }),
{
    let list = lane_list(c, lane);
    let s = stacked(c, lane);
    let n = list.len() as int;
    let small = c.sp.node_gap_y as int;
    let gap = if vert(c) {
        small
    } else {
        c.sp.lane_gap as int
    };
    lemma_stack_members(c.d, lane);
    lemma_run_same(c, lane, small);
    lemma_runs(c, list, n, gap);
    if close(c) {
        lemma_run_gaps(c, list, n, small, gap);
    }
    lemma_widest_sign(c, list, n);
    if n > 0 {
        lemma_run_signs(c, s, n, n - 1, small);
        assert(c.sizes[s[n - 1] as int].0 >= 0);
    }
    assert forall|i: int| 0 <= i < s.len() implies cross(c, #[trigger] s[i]) <= (if vert(c) {
        nodes_extent(c, lane).0
    } else {
        nodes_extent(c, lane).1
    }) by {
        assert(list.contains(s[i]));
        let j = choose|j: int| 0 <= j < list.len() && list[j] == s[i];
        lemma_widest(c, list, n, j);
    }
}

proof fn lemma_max(ms: Seq<Dim>, k: int, i: int)
    requires
        0 <= i < k <= ms.len(),
    ensures
        ms[i].w <= max_w(ms, k),
        ms[i].h <= max_h(ms, k),
    decreases k,
{
    if i < k - 1 {
        lemma_max(ms, k - 1, i);
    }
}

proof fn lemma_max_sign(ms: Seq<Dim>, k: int)
    ensures
        0 <= max_w(ms, k),
        0 <= max_h(ms, k),
    decreases k,
{
    if k > 0 {
        lemma_max_sign(ms, k - 1);
    }
}

/// Sums of lanes that stay in range are exact.
proof fn lemma_sums(c: Basis, ms: Seq<Dim>, k: int)
    requires
        calm(c),
        0 < k <= ms.len(),
        forall|i: int| 0 <= i < ms.len() ==> 0 <= broad(c, #[trigger] ms[i]),
    ensures
        ({
            let total = if vert(c) {
                sum_w(ms, k)
            } else {
                sum_h(ms, k)
            };
            &&& 0 <= total <= FAR
            &&& total < FAR ==> stretch(c, ms, k) == total + (k - 1) * c.sp.lane_gap
            &&& forall|i: int| 0 <= i < k ==> broad(c, #[trigger] ms[i]) <= stretch(c, ms, k)
            &&& 0 <= stretch(c, ms, k)
            &&& total < FAR ==> 0 <= stretch(c, ms, k) - total
        }),
    decreases k,
{
    assert(broad(c, ms[k - 1]) >= 0);
    if k > 1 {
        lemma_sums(c, ms, k - 1);
        assert((k - 1) * c.sp.lane_gap == (k - 2) * c.sp.lane_gap + c.sp.lane_gap) by (nonlinear_arith);
    } else {
        assert(0 * c.sp.lane_gap == 0) by (nonlinear_arith);
        assert(if vert(c) {
            sum_w(ms, 0) == 0
        } else {
            sum_h(ms, 0) == 0
        });
    }
}

/// A lane that stays in range has room for what is inside it.
proof fn lemma_dim_ample(c: Basis, lane: LaneView)
    requires
        calm(c),
        lane_dim(c, lane).w < limit(c.sp),
        lane_dim(c, lane).h < limit(c.sp),
    ensures
        ample(c, lane, lane_dim(c, lane)),
        close(c) ==> roomy(c, lane, lane_dim(c, lane)),
    decreases lane, 0nat,
{
    let inner = lane_dims(c, lane.children);
    let n = inner.len() as int;
    let m = lane_dim(c, lane);
    lemma_need(c, lane.id);
    lemma_max_sign(inner, n);
    assert(m.children == inner);
    if n > 0 {
        assert forall|i: int| 0 <= i < n implies 0 <= (#[trigger] inner[i]).w && 0 <= inner[i].h by {
            lemma_dim_sign(c, lane.children[i]);
        }
        lemma_sums(c, inner, n);
        assert forall|i: int| 0 <= i < n implies (#[trigger] inner[i]).w < limit(c.sp) && inner[i].h
            < limit(c.sp) by {
            lemma_max(inner, n, i);
            assert(0 <= (n - 1) * c.sp.lane_gap) by (nonlinear_arith)
                requires
                    n > 0,
                    c.sp.lane_gap >= 0,
            ;
        }
        assert(0 <= (n - 1) * c.sp.lane_gap) by (nonlinear_arith)
            requires
                n > 0,
                c.sp.lane_gap >= 0,
        ;
        lemma_dims_ample(c, lane.children, lane.children.len());
    }
}

proof fn lemma_dim_sign(c: Basis, lane: LaneView)
    ensures
        0 <= lane_dim(c, lane).w,
        0 <= lane_dim(c, lane).h,
{
}

proof fn lemma_dims_ample(c: Basis, lanes: Seq<LaneView>, k: nat)
    requires
        calm(c),
        k <= lanes.len(),
        forall|i: int|
            0 <= i < lanes.len() ==> (#[trigger] lane_dims(c, lanes)[i]).w < limit(c.sp)
                && lane_dims(c, lanes)[i].h < limit(c.sp),
    ensures
        all_ample(c, lanes, lane_dims(c, lanes), k),
        close(c) ==> all_roomy(c, lanes, lane_dims(c, lanes), k),
    decreases lanes, k,
{
    if k > 0 {
        lemma_dims_ample(c, lanes, (k - 1) as nat);
        assert(lane_dims(c, lanes)[k - 1] == lane_dim(c, lanes[k - 1]));
        lemma_dim_ample(c, lanes[k - 1]);
    }
}

proof fn lemma_even_max(ms: Seq<Dim>, v: int, k: int)
    requires
        0 < k <= ms.len(),
        0 <= v,
    ensures
        max_h(all_as_high(ms, v), k) == v,
        max_w(all_as_wide(ms, v), k) == v,
    decreases k,
{
    if k > 1 {
        lemma_even_max(ms, v, k - 1);
    } else {
        assert(max_h(all_as_high(ms, v), 0) == 0);
        assert(max_w(all_as_wide(ms, v), 0) == 0);
    }
}

proof fn lemma_even_stretch(c: Basis, ms: Seq<Dim>, v: int, k: int)
    requires
        0 <= k <= ms.len(),
    ensures
        vert(c) ==> stretch(c, all_as_high(ms, v), k) == stretch(c, ms, k),
        !vert(c) ==> stretch(c, all_as_wide(ms, v), k) == stretch(c, ms, k),
    decreases k,
{
    if k > 0 {
        lemma_even_stretch(c, ms, v, k - 1);
    }
}

/// A lane that is made longer, with even lanes inside it.
spec fn evened(c: Basis, m: Dim, more: int) -> Dim {
    if vert(c) {
        Dim { w: m.w, h: more, children: even_heights(m).children }
    } else {
        Dim { w: more, h: m.h, children: even_widths(m).children }
    }
}

/// All lanes made as long.
spec fn all_evened(c: Basis, ms: Seq<Dim>, v: int) -> Seq<Dim> {
    if vert(c) {
        all_as_high(ms, v)
    } else {
        all_as_wide(ms, v)
    }
}

/// Lanes keep their room when they are made even.
proof fn lemma_even_ample(c: Basis, lane: LaneView, m: Dim, more: int)
    requires
        ample(c, lane, m),
        deep(c, m) <= more,
    ensures
        ample(c, lane, evened(c, m, more)),
        roomy(c, lane, m) ==> roomy(c, lane, evened(c, m, more)),
    decreases lane, 0nat,
{
    let n = lane.children.len() as int;
    lemma_max_sign(m.children, n);
    if n > 0 {
        let v = max_deep(c, m.children, n);
        lemma_even_max(m.children, v, n);
        lemma_even_stretch(c, m.children, v, n);
        assert forall|i: int| 0 <= i < n implies deep(c, #[trigger] m.children[i]) <= v by {
            lemma_max(m.children, n, i);
        }
        lemma_all_even_ample(c, lane.children, m.children, v, lane.children.len());
        assert(evened(c, m, more).children == all_evened(c, m.children, v));
    }
}

proof fn lemma_all_even_ample(c: Basis, lanes: Seq<LaneView>, ms: Seq<Dim>, v: int, k: nat)
    requires
        all_ample(c, lanes, ms, k),
        ms.len() == lanes.len(),
        forall|i: int| 0 <= i < ms.len() ==> deep(c, #[trigger] ms[i]) <= v,
    ensures
        all_ample(c, lanes, all_evened(c, ms, v), k),
        all_roomy(c, lanes, ms, k) ==> all_roomy(c, lanes, all_evened(c, ms, v), k),
    decreases lanes, k,
{
    if k > 0 {
        lemma_all_even_ample(c, lanes, ms, v, (k - 1) as nat);
        assert(deep(c, ms[k - 1]) <= v);
        lemma_even_ample(c, lanes[k - 1], ms[k - 1], v);
        assert(all_evened(c, ms, v)[k - 1] == evened(c, ms[k - 1], v));
    }
}

/// Whether `b` continues `a`.
spec fn grows(a: Stage, b: Stage) -> bool {
    &&& a.lanes.len() <= b.lanes.len()
    &&& a.nodes.len() <= b.nodes.len()
    &&& forall|i: int| 0 <= i < a.lanes.len() ==> #[trigger] b.lanes[i] == a.lanes[i]
    &&& forall|i: int| 0 <= i < a.nodes.len() ==> #[trigger] b.nodes[i] == a.nodes[i]
}

/// A box as that of a lane.
spec fn area(x: int, y: int, w: int, h: int) -> SceneLaneView {
    SceneLaneView {
        id: Seq::empty(),
        title: Seq::empty(),
        x: x as Px,
        y: y as Px,
        w: w as Px,
        h: h as Px,
    }
}

/// Whether everything that `b` has beyond `a` lies inside a box.
spec fn boxed(a: Stage, b: Stage, l: SceneLaneView) -> bool {
    &&& forall|i: int|
        a.lanes.len() <= i < b.lanes.len() ==> lane_inside(#[trigger] b.lanes[i], l)
    &&& forall|i: int|
        a.nodes.len() <= i < b.nodes.len() ==> node_inside(#[trigger] b.nodes[i], l)
}

/// Whether every node that `b` has beyond `a` lies inside its lane.
spec fn at_home(a: Stage, b: Stage) -> bool {
    forall|i: int, j: int|
        a.nodes.len() <= i < b.nodes.len() && a.lanes.len() <= j < b.lanes.len()
            && (#[trigger] b.nodes[i]).lane == (#[trigger] b.lanes[j]).id ==> node_inside(
            b.nodes[i],
            b.lanes[j],
        )
}

/// Whether what `b` has beyond `a` belongs to a lane, with all relations of
/// its lanes.
spec fn of_tree(c: Basis, lane: LaneView, a: Stage, b: Stage) -> bool {
    &&& forall|i: int|
        a.lanes.len() <= i < b.lanes.len() ==> in_tree(lane, (#[trigger] b.lanes[i]).id)
    &&& forall|i: int|
        a.nodes.len() <= i < b.nodes.len() ==> in_tree(lane, (#[trigger] b.nodes[i]).lane)
    &&& forall|i: int, j: int|
        a.lanes.len() <= i < b.lanes.len() && a.lanes.len() <= j < b.lanes.len() && child_in(
            lane,
            (#[trigger] b.lanes[i]).id,
            (#[trigger] b.lanes[j]).id,
        ) ==> lane_inside(b.lanes[j], b.lanes[i])
    &&& forall|i: int, j: int|
        a.lanes.len() <= i < b.lanes.len() && a.lanes.len() <= j < b.lanes.len() && before_in(
            lane,
            (#[trigger] b.lanes[i]).id,
            (#[trigger] b.lanes[j]).id,
        ) ==> ends_before(b.lanes[i], b.lanes[j], c.d.direction, c.sp.lane_gap as int)
}

/// As [`of_tree`], of the first `k` lanes.
spec fn of_trees(c: Basis, lanes: Seq<LaneView>, k: nat, a: Stage, b: Stage) -> bool {
    &&& forall|i: int|
        a.lanes.len() <= i < b.lanes.len() ==> in_trees(lanes, (#[trigger] b.lanes[i]).id, k)
    &&& forall|i: int|
        a.nodes.len() <= i < b.nodes.len() ==> in_trees(lanes, (#[trigger] b.nodes[i]).lane, k)
    &&& forall|i: int, j: int|
        a.lanes.len() <= i < b.lanes.len() && a.lanes.len() <= j < b.lanes.len() && child_among(
            lanes,
            k,
            (#[trigger] b.lanes[i]).id,
            (#[trigger] b.lanes[j]).id,
        ) ==> lane_inside(b.lanes[j], b.lanes[i])
    &&& forall|i: int, j: int|
        a.lanes.len() <= i < b.lanes.len() && a.lanes.len() <= j < b.lanes.len() && before_among(
            lanes,
            k,
            (#[trigger] b.lanes[i]).id,
            (#[trigger] b.lanes[j]).id,
        ) ==> ends_before(b.lanes[i], b.lanes[j], c.d.direction, c.sp.lane_gap as int)
}

/// Nodes that are stacked inside a box stay inside it.
proof fn lemma_nodes_boxed(
    c: Basis,
    lane: Seq<char>,
    k: int,
    start: int,
    centre: int,
    nodes: Seq<SceneNodeView>,
    x: int,
    y: int,
    w: int,
    h: int,
)
    requires
        calm(c),
        0 <= k <= stacked(c, lane).len(),
        centre == (if vert(c) {
            plus(x, w / 2)
        } else {
            plus(y, h / 2)
        }),
        0 <= x && 0 <= y && 0 <= w && 0 <= h,
        x + w < limit(c.sp) && y + h < limit(c.sp),
        (if vert(c) {
            y
        } else {
            x
        }) <= start,
        start + need(c, lane) <= (if vert(c) {
            y + h
        } else {
            x + w
        }),
        forall|i: int|
            0 <= i < stacked(c, lane).len() ==> cross(c, #[trigger] stacked(c, lane)[i]) <= (
            if vert(c) {
                w
            } else {
                h
            }),
    ensures
        ({
            let list = stacked(c, lane);
            let r = with_nodes(c, list, k, start, centre, nodes);
            &&& r.len() == nodes.len() + k
            &&& forall|i: int| 0 <= i < nodes.len() ==> #[trigger] r[i] == nodes[i]
            &&& forall|i: int|
                nodes.len() <= i < r.len() ==> node_inside(#[trigger] r[i], area(x, y, w, h))
                    && r[i].lane == lane
            &&& node_start(c, list, k, start) == start + run(
                c,
                list,
                k,
                c.sp.node_gap_y as int,
            )
        }),
    decreases k,
{
    let list = stacked(c, lane);
    let n = list.len() as int;
    let gap = c.sp.node_gap_y as int;
    lemma_stack_members(c.d, lane);
    assert(stack_of(c.d, lane) == list);
    if k > 0 {
        lemma_nodes_boxed(c, lane, k - 1, start, centre, nodes, x, y, w, h);
        lemma_run_signs(c, list, n, k, gap);
        lemma_run_signs(c, list, k, k - 1, gap);
        let i = list[k - 1] as int;
        assert(0 <= c.sizes[i].0 && 0 <= c.sizes[i].1);
        assert(cross(c, list[k - 1]) <= (if vert(c) {
            w
        } else {
            h
        }));
        assert(run(c, list, k, gap) == run(c, list, k - 1, gap) + along(c, list[k - 1]) + gap);
        let before = with_nodes(c, list, k - 1, start, centre, nodes);
        let r = with_nodes(c, list, k, start, centre, nodes);
        let at = node_start(c, list, k - 1, start);
        assert(at + along(c, list[k - 1]) <= start + need(c, lane));
        assert(node_inside(r[k - 1 + nodes.len()], area(x, y, w, h)));
        assert(c.d.nodes[list[k - 1] as int].lane == lane);
        assert forall|j: int| nodes.len() <= j < r.len() implies node_inside(
            #[trigger] r[j],
            area(x, y, w, h),
        ) && r[j].lane == lane by {
            if j < before.len() {
                assert(r[j] == before[j]);
            }
        }
        assert forall|j: int| 0 <= j < nodes.len() implies #[trigger] r[j] == nodes[j] by {
            assert(r[j] == before[j]);
        }
    }
}

proof fn lemma_lane_boxed(c: Basis, lane: LaneView, m: Dim, x: int, y: int, st: Stage)
    requires
        calm(c),
        ample(c, lane, m),
        roomy(c, lane, m),
        tree_distinct(lane),
        0 <= x && 0 <= y,
        x + m.w < limit(c.sp) && y + m.h < limit(c.sp),
    ensures
        grows(st, with_lane(c, lane, m, x, y, st)),
        boxed(st, with_lane(c, lane, m, x, y, st), area(x, y, m.w, m.h)),
        at_home(st, with_lane(c, lane, m, x, y, st)),
        of_tree(c, lane, st, with_lane(c, lane, m, x, y, st)),
    decreases lane, 0nat,
{
    let l = SceneLaneView {
        id: lane.id,
        title: lane.title,
        x: x as Px,
        y: y as Px,
        w: m.w as Px,
        h: m.h as Px,
    };
    let own = Stage { lanes: st.lanes.push(l), nodes: st.nodes };
    let (cx, cy) = inner_corner(c, x, y);
    let n = lane.children.len();
    let inner = with_lanes(c, lane.children, m.children, n, cx, cy, own);
    let list = stacked(c, lane.id);
    let start = nodes_start(c, m.children, x, y);
    let r = with_lane(c, lane, m, x, y, st);
    let whole = area(x, y, m.w, m.h);
    lemma_need(c, lane.id);
    lemma_max_sign(m.children, n as int);
    let high = max_deep(c, m.children, n as int);
    if n > 0 {
        assert forall|i: int| 0 <= i < n implies deep(c, #[trigger] m.children[i]) <= high by {
            lemma_max(m.children, n as int, i);
        }
        lemma_stretch_sign(c, lane.children, m.children, n);
        lemma_lanes_boxed(c, lane.children, m.children, n, cx, cy, own, high);
    }
    let centre = if vert(c) {
        plus(x, m.w / 2)
    } else {
        plus(y, m.h / 2)
    };
    lemma_nodes_boxed(c, lane.id, list.len() as int, start, centre, inner.nodes, x, y, m.w, m.h);
    let s0 = st.lanes.len() as int;
    assert(inner.lanes[s0] == own.lanes[s0]);
    assert(r.lanes == inner.lanes);
    assert forall|i: int| s0 <= i < r.lanes.len() implies lane_inside(#[trigger] r.lanes[i], whole)
        && in_tree(lane, r.lanes[i].id) by {
        if i > s0 {
            assert(in_trees(lane.children, inner.lanes[i].id, n));
        }
    }
    assert forall|i: int| st.nodes.len() <= i < r.nodes.len() implies node_inside(
        #[trigger] r.nodes[i],
        whole,
    ) && in_tree(lane, r.nodes[i].lane) by {
        if i < inner.nodes.len() {
            assert(r.nodes[i] == inner.nodes[i]);
            assert(in_trees(lane.children, inner.nodes[i].lane, n));
        }
    }
    assert forall|i: int, j: int|
        st.nodes.len() <= i < r.nodes.len() && s0 <= j < r.lanes.len() && (
        #[trigger] r.nodes[i]).lane == (#[trigger] r.lanes[j]).id implies node_inside(
        r.nodes[i],
        r.lanes[j],
    ) by {
        if i < inner.nodes.len() {
            assert(r.nodes[i] == inner.nodes[i]);
            assert(in_trees(lane.children, inner.nodes[i].lane, n));
            if j == s0 {
                assert(false);
            }
        } else if j > s0 {
            assert(in_trees(lane.children, inner.lanes[j].id, n));
        }
    }
    assert forall|i: int, j: int|
        s0 <= i < r.lanes.len() && s0 <= j < r.lanes.len() && child_in(
            lane,
            (#[trigger] r.lanes[i]).id,
            (#[trigger] r.lanes[j]).id,
        ) implies lane_inside(r.lanes[j], r.lanes[i]) by {
        let (p, q) = (r.lanes[i].id, r.lanes[j].id);
        if child_among(lane.children, n, p, q) {
            lemma_child_among(lane.children, n, p, q);
            assert(i != s0 && j != s0);
        } else {
            assert(p == lane.id);
            if i > s0 {
                assert(in_trees(lane.children, inner.lanes[i].id, n));
            }
        }
    }
    assert forall|i: int, j: int|
        s0 <= i < r.lanes.len() && s0 <= j < r.lanes.len() && before_in(
            lane,
            (#[trigger] r.lanes[i]).id,
            (#[trigger] r.lanes[j]).id,
        ) implies ends_before(r.lanes[i], r.lanes[j], c.d.direction, c.sp.lane_gap as int) by {
        lemma_before_in(lane, r.lanes[i].id, r.lanes[j].id);
        assert(i != s0 && j != s0);
    }
}

proof fn lemma_stretch_sign(c: Basis, lanes: Seq<LaneView>, ms: Seq<Dim>, k: nat)
    requires
        calm(c),
        all_ample(c, lanes, ms, k),
        k <= ms.len(),
    ensures
        0 <= stretch(c, ms, k as int),
    decreases k,
{
    if k > 0 {
        lemma_stretch_sign(c, lanes, ms, (k - 1) as nat);
        lemma_all_ample(c, lanes, ms, k, k - 1);
    }
}

proof fn lemma_lanes_boxed(
    c: Basis,
    lanes: Seq<LaneView>,
    ms: Seq<Dim>,
    k: nat,
    x: int,
    y: int,
    st: Stage,
    high: int,
)
    requires
        calm(c),
        ms.len() == lanes.len(),
        all_ample(c, lanes, ms, k),
        all_roomy(c, lanes, ms, k),
        trees_distinct(lanes, k),
        0 <= x && 0 <= y && 0 <= high,
        forall|i: int| 0 <= i < ms.len() ==> deep(c, #[trigger] ms[i]) <= high,
        (if vert(c) {
            x
        } else {
            y
        }) + stretch(c, ms, k as int) < limit(c.sp),
        (if vert(c) {
            y
        } else {
            x
        }) + high < limit(c.sp),
    ensures
        ({
            let r = with_lanes(c, lanes, ms, k, x, y, st);
            let side = stretch(c, ms, k as int);
            let l = if vert(c) {
                area(x, y, side, high)
            } else {
                area(x, y, high, side)
            };
            let from = if vert(c) {
                x
            } else {
                y
            };
            &&& grows(st, r)
            &&& boxed(st, r, l)
            &&& at_home(st, r)
            &&& of_trees(c, lanes, k, st, r)
            &&& lane_start(c, ms, k as int, from) == (if k == 0 {
                from
            } else {
                from + side + c.sp.lane_gap
            })
        }),
    decreases lanes, k,
{
    lemma_stretch_sign(c, lanes, ms, k);
    if k > 0 {
        let j = (k - 1) as nat;
        let m = ms[k - 1];
        let lane = lanes[k - 1];
        lemma_stretch_sign(c, lanes, ms, j);
        lemma_all_ample(c, lanes, ms, k, k - 1);
        lemma_all_roomy(c, lanes, ms, k, k - 1);
        assert(stretch(c, ms, k as int) == (if k == 1 {
            broad(c, m)
        } else {
            stretch(c, ms, k - 1) + c.sp.lane_gap + broad(c, m)
        }));
        lemma_lanes_boxed(c, lanes, ms, j, x, y, st, high);
        let b = with_lanes(c, lanes, ms, j, x, y, st);
        let r = with_lanes(c, lanes, ms, k, x, y, st);
        assert(deep(c, m) <= high);
        let from = if vert(c) {
            x
        } else {
            y
        };
        let at = lane_start(c, ms, k - 1, from);
        let (lx, ly) = if vert(c) {
            (at, y)
        } else {
            (x, at)
        };
        lemma_lane_boxed(c, lane, m, lx, ly, b);
        assert(r == with_lane(c, lane, m, lx, ly, b));
        let s0 = st.lanes.len() as int;
        let s1 = b.lanes.len() as int;
        assert forall|i: int| s0 <= i < r.lanes.len() implies in_trees(
            lanes,
            (#[trigger] r.lanes[i]).id,
            k,
        ) by {
            if i < s1 {
                assert(r.lanes[i] == b.lanes[i]);
            }
        }
        assert forall|i: int| st.nodes.len() <= i < r.nodes.len() implies in_trees(
            lanes,
            (#[trigger] r.nodes[i]).lane,
            k,
        ) by {
            if i < b.nodes.len() {
                assert(r.nodes[i] == b.nodes[i]);
            }
        }
        let l = if vert(c) {
            area(x, y, stretch(c, ms, k as int), high)
        } else {
            area(x, y, high, stretch(c, ms, k as int))
        };
        assert forall|i: int| s0 <= i < r.lanes.len() implies lane_inside(#[trigger] r.lanes[i], l) by {
            if i < s1 {
                assert(r.lanes[i] == b.lanes[i]);
            }
        }
        assert forall|i: int| st.nodes.len() <= i < r.nodes.len() implies node_inside(
            #[trigger] r.nodes[i],
            l,
        ) by {
            if i < b.nodes.len() {
                assert(r.nodes[i] == b.nodes[i]);
            }
        }
        assert forall|i: int, h: int|
            st.nodes.len() <= i < r.nodes.len() && s0 <= h < r.lanes.len() && (
            #[trigger] r.nodes[i]).lane == (#[trigger] r.lanes[h]).id implies node_inside(
            r.nodes[i],
            r.lanes[h],
        ) by {
            if i < b.nodes.len() {
                assert(r.nodes[i] == b.nodes[i]);
                assert(in_trees(lanes, b.nodes[i].lane, j));
            } else {
                assert(in_tree(lane, r.nodes[i].lane));
            }
            if h < s1 {
                assert(r.lanes[h] == b.lanes[h]);
                assert(in_trees(lanes, b.lanes[h].id, j));
            } else {
                assert(in_tree(lane, r.lanes[h].id));
            }
        }
        assert forall|i: int, h: int|
            s0 <= i < r.lanes.len() && s0 <= h < r.lanes.len() && child_among(
                lanes,
                k,
                (#[trigger] r.lanes[i]).id,
                (#[trigger] r.lanes[h]).id,
            ) implies lane_inside(r.lanes[h], r.lanes[i]) by {
            let (p, q) = (r.lanes[i].id, r.lanes[h].id);
            lemma_sides(c, lanes, k, st, b, r, i);
            lemma_sides(c, lanes, k, st, b, r, h);
            if child_in(lane, p, q) {
                lemma_child_in(lane, p, q);
            } else {
                lemma_child_among(lanes, j, p, q);
            }
        }
        assert forall|i: int, h: int|
            s0 <= i < r.lanes.len() && s0 <= h < r.lanes.len() && before_among(
                lanes,
                k,
                (#[trigger] r.lanes[i]).id,
                (#[trigger] r.lanes[h]).id,
            ) implies ends_before(r.lanes[i], r.lanes[h], c.d.direction, c.sp.lane_gap as int) by {
            let (p, q) = (r.lanes[i].id, r.lanes[h].id);
            lemma_sides(c, lanes, k, st, b, r, i);
            lemma_sides(c, lanes, k, st, b, r, h);
            if before_in(lane, p, q) {
                lemma_before_in(lane, p, q);
                assert(in_tree(lane, p) && in_tree(lane, q));
            } else if before_among(lanes, j, p, q) {
                lemma_before_among(lanes, j, p, q);
            } else {
                let a = choose|a: int| 0 <= a < k - 1 && (#[trigger] lanes[a]).id == p;
                lemma_first(lanes, j, a);
                assert(in_tree(lane, q));
                assert(i < s1 && h >= s1);
                assert(r.lanes[i] == b.lanes[i]);
                assert(j > 0);
            }
        }
    }
}

/// A lane's tree says by which step it was placed.
proof fn lemma_sides(
    c: Basis,
    lanes: Seq<LaneView>,
    k: nat,
    st: Stage,
    b: Stage,
    r: Stage,
    i: int,
)
    requires
        0 < k <= lanes.len(),
        trees_distinct(lanes, k),
        of_trees(c, lanes, (k - 1) as nat, st, b),
        of_tree(c, lanes[k - 1], b, r),
        grows(b, r),
        st.lanes.len() <= i < r.lanes.len(),
    ensures
        i < b.lanes.len() ==> r.lanes[i] == b.lanes[i],
        in_tree(lanes[k - 1], r.lanes[i].id) == (i >= b.lanes.len()),
        in_trees(lanes, r.lanes[i].id, (k - 1) as nat) == (i < b.lanes.len()),
{
    if i < b.lanes.len() {
        assert(r.lanes[i] == b.lanes[i]);
        assert(in_trees(lanes, b.lanes[i].id, (k - 1) as nat));
    } else {
        assert(in_tree(lanes[k - 1], r.lanes[i].id));
    }
}

/// Where each lane starts, as long as nothing is cut off.
proof fn lemma_starts(c: Basis, ms: Seq<Dim>, k: int, from: int)
    requires
        calm(c),
        0 <= from <= FAR,
        0 <= k <= ms.len(),
        forall|i: int| 0 <= i < ms.len() ==> 0 <= broad(c, #[trigger] ms[i]),
    ensures
        0 <= lane_start(c, ms, k, from) <= FAR,
        lane_start(c, ms, k, from) < FAR ==> lane_start(c, ms, k, from) == (if k == 0 {
            from
        } else {
            from + stretch(c, ms, k) + c.sp.lane_gap
        }),
        k > 0 ==> 0 <= stretch(c, ms, k),
        forall|i: int| 0 <= i < k ==> broad(c, #[trigger] ms[i]) <= stretch(c, ms, k),
    decreases k,
{
    if k > 0 {
        lemma_starts(c, ms, k - 1, from);
        assert(broad(c, ms[k - 1]) >= 0);
    }
}

/// The lanes at the top are broad enough, and as long as the longest.
proof fn lemma_tops(c: Basis)
    requires
        calm(c),
        c.d.lanes.len() > 0,
        canvas(c).0 < limit(c.sp),
        canvas(c).1 < limit(c.sp),
    ensures
        ({
            let own = lane_dims(c, c.d.lanes);
            let tops = top_dims(c);
            let n = c.d.lanes.len() as int;
            let high = max_deep(c, own, n);
            let margin = c.sp.margin as int;
            &&& tops.len() == n
            &&& all_ample(c, c.d.lanes, tops, c.d.lanes.len())
            &&& close(c) ==> all_roomy(c, c.d.lanes, tops, c.d.lanes.len())
            &&& 0 <= high
            &&& forall|i: int| 0 <= i < n ==> deep(c, #[trigger] tops[i]) == high
            &&& margin + stretch(c, tops, n) < limit(c.sp)
            &&& margin + high < limit(c.sp)
        }),
{
    let own = lane_dims(c, c.d.lanes);
    let tops = top_dims(c);
    let k = c.d.lanes.len();
    let n = k as int;
    let margin = c.sp.margin as int;
    let high = max_deep(c, own, n);
    lemma_max_sign(own, n);
    assert forall|i: int| 0 <= i < n implies 0 <= (#[trigger] own[i]).w && 0 <= own[i].h by {
        lemma_dim_sign(c, c.d.lanes[i]);
    }
    lemma_even_stretch(c, own, high, n);
    assert forall|i: int| 0 <= i < n implies broad(c, #[trigger] tops[i]) == broad(c, own[i])
        && deep(c, tops[i]) == high by {}
    lemma_starts(c, tops, n, margin);
    assert forall|i: int| 0 <= i < n implies (#[trigger] own[i]).w < limit(c.sp) && own[i].h
        < limit(c.sp) by {
        lemma_max(own, n, i);
        assert(broad(c, tops[i]) <= stretch(c, tops, n));
    }
    lemma_dims_ample(c, c.d.lanes, k);
    assert forall|i: int| 0 <= i < own.len() implies deep(c, #[trigger] own[i]) <= high by {
        lemma_max(own, n, i);
    }
    lemma_all_even_ample(c, c.d.lanes, own, high, k);
    assert(tops == all_evened(c, own, high));
}

/// Columns are long enough for their nodes, and so are rows whose nodes are
/// no farther apart than lanes.
pub proof fn law_lanes_have_room(c: Basis)
    requires
        calm(c),
        c.d.direction == AdvanceDirection::Horizontal ==> c.sp.node_gap_y <= c.sp.lane_gap,
        canvas(c).0 < limit(c.sp),
        canvas(c).1 < limit(c.sp),
    ensures
        all_roomy(c, c.d.lanes, top_dims(c), c.d.lanes.len()),
{
    if c.d.lanes.len() > 0 {
        lemma_tops(c);
    }
}

/// In a diagram that is placed lane by lane every node lies inside its lane
/// and every sub-lane inside the lane around it, and lanes that stand next
/// to each other are apart, in their order, as long as every lane is long
/// enough for its nodes.
pub proof fn law_nodes_stay_in_their_lanes(
    sc: SceneView,
    d: DiagramView,
    measures: Seq<NodeMeasure>,
    widths: Seq<Px>,
    sp: Spacing,
)
    requires
        is_layout(sc, d, measures, widths, sp),
        !all_explicit(measures),
        trees_distinct(d.lanes, d.lanes.len()),
        calm(basis(d, measures, sp)),
        all_roomy(
            basis(d, measures, sp),
            d.lanes,
            top_dims(basis(d, measures, sp)),
            d.lanes.len(),
        ),
        sc.width < limit(basis(d, measures, sp).sp),
        sc.height < limit(basis(d, measures, sp).sp),
    ensures
        forall|i: int, j: int|
            0 <= i < sc.nodes.len() && 0 <= j < sc.lanes.len() && (#[trigger] sc.nodes[i]).lane == (
            #[trigger] sc.lanes[j]).id ==> node_inside(sc.nodes[i], sc.lanes[j]),
        forall|i: int, j: int|
            0 <= i < sc.lanes.len() && 0 <= j < sc.lanes.len() && child_among(
                d.lanes,
                d.lanes.len(),
                (#[trigger] sc.lanes[i]).id,
                (#[trigger] sc.lanes[j]).id,
            ) ==> lane_inside(sc.lanes[j], sc.lanes[i]),
        forall|i: int, j: int|
            0 <= i < sc.lanes.len() && 0 <= j < sc.lanes.len() && before_among(
                d.lanes,
                d.lanes.len(),
                (#[trigger] sc.lanes[i]).id,
                (#[trigger] sc.lanes[j]).id,
            ) ==> ends_before(
                sc.lanes[i],
                sc.lanes[j],
                d.direction,
                basis(d, measures, sp).sp.lane_gap as int,
            ),
{
    let c = basis(d, measures, sp);
    let tops = top_dims(c);
    let k = d.lanes.len();
    let margin = c.sp.margin as int;
    let none = Stage { lanes: Seq::empty(), nodes: Seq::empty() };
    if k > 0 {
        lemma_tops(c);
        let own = lane_dims(c, d.lanes);
        let high = max_deep(c, own, k as int);
        lemma_lanes_boxed(c, d.lanes, tops, k, margin, margin, none, high);
    }
    assert(stage(c) == with_lanes(c, d.lanes, tops, k, margin, margin, none));
}

/// In a diagram that is placed lane by lane all lanes and nodes keep the
/// margin to every side of the canvas, under the same conditions.
pub proof fn law_lanes_stay_on_the_canvas(
    sc: SceneView,
    d: DiagramView,
    measures: Seq<NodeMeasure>,
    widths: Seq<Px>,
    sp: Spacing,
)
    requires
        is_layout(sc, d, measures, widths, sp),
        !all_explicit(measures),
        trees_distinct(d.lanes, d.lanes.len()),
        calm(basis(d, measures, sp)),
        all_roomy(
            basis(d, measures, sp),
            d.lanes,
            top_dims(basis(d, measures, sp)),
            d.lanes.len(),
        ),
        sc.width < limit(basis(d, measures, sp).sp),
        sc.height < limit(basis(d, measures, sp).sp),
    ensures
        forall|i: int|
            0 <= i < sc.lanes.len() ==> {
                let l = #[trigger] sc.lanes[i];
                let margin = basis(d, measures, sp).sp.margin;
                &&& margin <= l.x && l.x + l.w + margin <= sc.width
                &&& margin <= l.y && l.y + l.h + margin <= sc.height
            },
        forall|i: int|
            0 <= i < sc.nodes.len() ==> {
                let n = #[trigger] sc.nodes[i];
                let margin = basis(d, measures, sp).sp.margin;
                &&& margin <= n.x - n.w as int / 2 && n.x + n.w as int / 2 + margin <= sc.width
                &&& margin <= n.y - n.h as int / 2 && n.y + n.h as int / 2 + margin <= sc.height
            },
{
    let c = basis(d, measures, sp);
    let tops = top_dims(c);
    let k = d.lanes.len();
    let margin = c.sp.margin as int;
    let none = Stage { lanes: Seq::empty(), nodes: Seq::empty() };
    if k > 0 {
        lemma_tops(c);
        let own = lane_dims(c, d.lanes);
        let high = max_deep(c, own, k as int);
        lemma_lanes_boxed(c, d.lanes, tops, k, margin, margin, none, high);
        let side = stretch(c, tops, k as int);
        let l = if vert(c) {
            area(margin, margin, side, high)
        } else {
            area(margin, margin, high, side)
        };
        lemma_stretch_sign(c, d.lanes, tops, k);
        assert(canvas(c) == (if vert(c) {
            (margin + side + margin, high + margin + margin)
        } else {
            (margin + high + margin, margin + side + margin)
        }));
        let r = with_lanes(c, d.lanes, tops, k, margin, margin, none);
        assert(boxed(none, r, l));
        assert forall|i: int| 0 <= i < sc.lanes.len() implies lane_inside(#[trigger] sc.lanes[i], l) by {
            assert(sc.lanes[i] == r.lanes[i]);
        }
        assert forall|i: int| 0 <= i < sc.nodes.len() implies node_inside(#[trigger] sc.nodes[i], l) by {
            assert(sc.nodes[i] == r.nodes[i]);
        }
    }
    assert(stage(c) == with_lanes(c, d.lanes, tops, k, margin, margin, none));
}

} // verus!
