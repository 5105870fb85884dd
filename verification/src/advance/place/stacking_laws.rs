//! The nodes of a lane stand one behind the other along the flow, on the
//! middle of the lane.

use vstd::prelude::*;

use crate::advance::place::containment::{along, calm, vert};
use crate::advance::place::coverage::{
    in_tree, in_trees, lemma_even_heights, lemma_even_widths, lemma_lane_dims_sized,
};
use crate::advance::place::emit::{
    all_sized, inner_corner, lane_start, node_start, nodes_start, sized, stacked, with_lane,
    with_lanes, with_nodes, Stage,
};
use crate::advance::place::lanes::{
    all_as_high, all_as_wide, dim_fits, dims_fit, even_heights, even_widths, lane_dim, lane_dims,
    lane_extent, max_h, max_w, Basis, Dim, Spacing,
};
use crate::advance::place::layout::{all_explicit, basis, is_layout, stage, top_dims};
use crate::advance::place::lengths::{bounded, plus};
use crate::advance::place::sequence::{
    lemma_stack_members, stack_of, tree_distinct, trees_distinct,
};
use crate::advance::place::sizes::NodeMeasure;
use crate::advance::route::geometry::FAR;
use crate::advance::scene::{Px, SceneLaneView, SceneNodeView, SceneView};
use crate::advance::{AdvanceDirection, DiagramView, LaneView};

verus! {

/// The extent of a node along the flow.
pub open spec fn length(n: SceneNodeView, d: AdvanceDirection) -> int {
    match d {
        AdvanceDirection::Vertical => n.h as int,
        AdvanceDirection::Horizontal => n.w as int,
    }
}

/// The middle of a node along the flow.
pub open spec fn middle(n: SceneNodeView, d: AdvanceDirection) -> int {
    match d {
        AdvanceDirection::Vertical => n.y as int,
        AdvanceDirection::Horizontal => n.x as int,
    }
}

/// Where a node starts along the flow.
pub open spec fn front(n: SceneNodeView, d: AdvanceDirection) -> int {
    middle(n, d) - length(n, d) / 2
}

/// The middle of a node across the flow.
pub open spec fn beam(n: SceneNodeView, d: AdvanceDirection) -> int {
    match d {
        AdvanceDirection::Vertical => n.x as int,
        AdvanceDirection::Horizontal => n.y as int,
    }
}

/// The middle of a lane across the flow.
pub open spec fn axis(l: SceneLaneView, d: AdvanceDirection) -> int {
    match d {
        AdvanceDirection::Vertical => l.x + l.w as int / 2,
        AdvanceDirection::Horizontal => l.y + l.h as int / 2,
    }
}

/// Whether `b` stands behind `a`, a gap away or more, and at exactly that
/// distance if it is the `next` one; `a` does not start before the range
/// of lengths, and `b` does not reach its end.
pub open spec fn follows(
    a: SceneNodeView,
    b: SceneNodeView,
    d: AdvanceDirection,
    gap: int,
    next: bool,
) -> bool {
    0 <= front(a, d) && middle(b, d) < FAR ==> {
        &&& front(a, d) + length(a, d) + gap <= front(b, d)
        &&& next ==> front(a, d) + length(a, d) + gap == front(b, d)
    }
}

/// Whether the nodes from the `lo`-th on that are in one lane stand behind
/// each other.
spec fn lined(c: Basis, s: Seq<SceneNodeView>, lo: int) -> bool {
    forall|i: int, j: int|
        lo <= i < j < s.len() && (#[trigger] s[i]).lane == (#[trigger] s[j]).lane ==> follows(
            s[i],
            s[j],
            c.d.direction,
            c.sp.node_gap_y as int,
            j == i + 1,
        )
}

/// Whether what `b` has beyond `a` is centred in its lanes.
spec fn centred(c: Basis, a: Stage, b: Stage) -> bool {
    forall|i: int, j: int|
        a.nodes.len() <= i < b.nodes.len() && a.lanes.len() <= j < b.lanes.len() && (
        #[trigger] b.nodes[i]).lane == (#[trigger] b.lanes[j]).id && bounded(
            axis(b.lanes[j], c.d.direction),
        ) ==> beam(b.nodes[i], c.d.direction) == axis(b.lanes[j], c.d.direction)
}

/// Whether `b` continues `a`.
spec fn extends(a: Stage, b: Stage) -> bool {
    &&& a.lanes.len() <= b.lanes.len()
    &&& a.nodes.len() <= b.nodes.len()
    &&& forall|i: int| 0 <= i < a.lanes.len() ==> #[trigger] b.lanes[i] == a.lanes[i]
    &&& forall|i: int| 0 <= i < a.nodes.len() ==> #[trigger] b.nodes[i] == a.nodes[i]
}

proof fn lemma_max_fits(ms: Seq<Dim>, k: nat)
    requires
        dims_fit(ms, k),
    ensures
        bounded(max_w(ms, k as int)),
        bounded(max_h(ms, k as int)),
    decreases k,
{
    if k > 0 {
        lemma_max_fits(ms, (k - 1) as nat);
        assert(dim_fits(ms[k - 1]));
    }
}

proof fn lemma_dim_fits(c: Basis, lane: LaneView)
    ensures
        dim_fits(lane_dim(c, lane)),
    decreases lane, 0nat,
{
    lemma_lane_dims_fit(c, lane.children, lane.children.len());
    let inner = lane_dims(c, lane.children);
    let (w, h) = lane_extent(c, lane.id, inner);
    assert(bounded(w) && bounded(h));
    assert(lane_dim(c, lane) == (Dim { w, h, children: inner }));
}

proof fn lemma_lane_dims_fit(c: Basis, lanes: Seq<LaneView>, k: nat)
    requires
        k <= lanes.len(),
    ensures
        dims_fit(lane_dims(c, lanes), k),
    decreases lanes, k,
{
    if k > 0 {
        lemma_lane_dims_fit(c, lanes, (k - 1) as nat);
        lemma_dim_fits(c, lanes[k - 1]);
    }
}

proof fn lemma_high_fits(ms: Seq<Dim>, h: int, k: nat)
    requires
        dims_fit(ms, k),
        bounded(h),
    ensures
        dims_fit(all_as_high(ms, h), k),
    decreases ms, k,
{
    if k > 0 {
        lemma_high_fits(ms, h, (k - 1) as nat);
        let m = ms[k - 1];
        let n = m.children.len();
        assert(dim_fits(m));
        assert(dims_fit(m.children, n));
        lemma_max_fits(m.children, n);
        lemma_high_fits(m.children, max_h(m.children, n as int), n);
        let e = even_heights(m);
        assert(e.children == all_as_high(m.children, max_h(m.children, n as int)));
        assert(e.children.len() == n);
        let f = Dim { w: e.w, h, children: e.children };
        assert(all_as_high(ms, h)[k - 1] == f);
        assert(dim_fits(f));
    }
}

proof fn lemma_wide_fits(ms: Seq<Dim>, w: int, k: nat)
    requires
        dims_fit(ms, k),
        bounded(w),
    ensures
        dims_fit(all_as_wide(ms, w), k),
    decreases ms, k,
{
    if k > 0 {
        lemma_wide_fits(ms, w, (k - 1) as nat);
        let m = ms[k - 1];
        let n = m.children.len();
        assert(dim_fits(m));
        assert(dims_fit(m.children, n));
        lemma_max_fits(m.children, n);
        lemma_wide_fits(m.children, max_w(m.children, n as int), n);
        let e = even_widths(m);
        assert(e.children == all_as_wide(m.children, max_w(m.children, n as int)));
        assert(e.children.len() == n);
        let f = Dim { w, h: e.h, children: e.children };
        assert(all_as_wide(ms, w)[k - 1] == f);
        assert(dim_fits(f));
    }
}

proof fn lemma_tops_fit(c: Basis)
    ensures
        dims_fit(top_dims(c), c.d.lanes.len()),
        all_sized(c.d.lanes, top_dims(c), c.d.lanes.len()),
        top_dims(c).len() == c.d.lanes.len(),
{
    let own = lane_dims(c, c.d.lanes);
    let n = own.len();
    lemma_lane_dims_fit(c, c.d.lanes, n);
    lemma_lane_dims_sized(c, c.d.lanes, n);
    lemma_even_heights(c.d.lanes, own, max_h(own, n as int), n);
    lemma_even_widths(c.d.lanes, own, max_w(own, n as int), n);
    lemma_max_fits(own, n);
    lemma_high_fits(own, max_h(own, n as int), n);
    lemma_wide_fits(own, max_w(own, n as int), n);
}

/// Whether the listed numbers are those of nodes.
spec fn listed(c: Basis, list: Seq<usize>) -> bool {
    forall|i: int| 0 <= i < list.len() ==> (#[trigger] list[i]) < c.sizes.len()
}

proof fn lemma_start_bounded(c: Basis, list: Seq<usize>, k: int, start: int)
    requires
        bounded(start),
    ensures
        bounded(node_start(c, list, k, start)),
    decreases k,
{
    if k > 0 {
        lemma_start_bounded(c, list, k - 1, start);
    }
}

proof fn lemma_starts_rise(c: Basis, list: Seq<usize>, i: int, j: int, start: int)
    requires
        calm(c),
        listed(c, list),
        bounded(start),
        0 <= i < j <= list.len(),
        0 <= node_start(c, list, i, start),
        node_start(c, list, j, start) < FAR,
    ensures
        node_start(c, list, i, start) + along(c, list[i]) + c.sp.node_gap_y <= node_start(
            c,
            list,
            j,
            start,
        ),
        j == i + 1 ==> node_start(c, list, i, start) + along(c, list[i]) + c.sp.node_gap_y
            == node_start(c, list, j, start),
    decreases j,
{
    lemma_start_bounded(c, list, j - 1, start);
    assert(list[j - 1] < c.sizes.len());
    assert(0 <= c.sizes[list[j - 1] as int].0 && 0 <= c.sizes[list[j - 1] as int].1);
    if i < j - 1 {
        lemma_starts_rise(c, list, i, j - 1, start);
    }
}

proof fn lemma_line(
    c: Basis,
    lane: Seq<char>,
    k: int,
    start: int,
    centre: int,
    nodes: Seq<SceneNodeView>,
)
    requires
        calm(c),
        bounded(start),
        bounded(centre),
        0 <= k <= stacked(c, lane).len(),
    ensures
        ({
            let list = stacked(c, lane);
            let r = with_nodes(c, list, k, start, centre, nodes);
            let d = c.d.direction;
            &&& r.len() == nodes.len() + k
            &&& forall|i: int| 0 <= i < nodes.len() ==> #[trigger] r[i] == nodes[i]
            &&& forall|i: int|
                nodes.len() <= i < r.len() ==> (#[trigger] r[i]).lane == lane && beam(r[i], d)
                    == centre && length(r[i], d) == along(c, list[i - nodes.len()]) && middle(r[i], d)
                    == plus(
                    node_start(c, list, i - nodes.len(), start),
                    along(c, list[i - nodes.len()]) / 2,
                )
        }),
    decreases k,
{
    let list = stacked(c, lane);
    lemma_stack_members(c.d, lane);
    assert(stack_of(c.d, lane) == list);
    if k > 0 {
        lemma_line(c, lane, k - 1, start, centre, nodes);
        let before = with_nodes(c, list, k - 1, start, centre, nodes);
        let r = with_nodes(c, list, k, start, centre, nodes);
        let i = list[k - 1] as int;
        assert(0 <= c.sizes[i].0 && 0 <= c.sizes[i].1);
        assert(c.d.nodes[i].lane == lane);
        assert forall|j: int| 0 <= j < before.len() implies #[trigger] r[j] == before[j] by {}
    }
}

/// Nodes that are stacked stand behind each other.
proof fn lemma_lined(
    c: Basis,
    lane: Seq<char>,
    start: int,
    centre: int,
    nodes: Seq<SceneNodeView>,
    i: int,
    j: int,
)
    requires
        calm(c),
        bounded(start),
        bounded(centre),
        0 <= i < j < stacked(c, lane).len(),
    ensures
        ({
            let list = stacked(c, lane);
            let r = with_nodes(c, list, list.len() as int, start, centre, nodes);
            follows(
                r[nodes.len() + i],
                r[nodes.len() + j],
                c.d.direction,
                c.sp.node_gap_y as int,
                j == i + 1,
            )
        }),
{
    let list = stacked(c, lane);
    let r = with_nodes(c, list, list.len() as int, start, centre, nodes);
    let d = c.d.direction;
    lemma_line(c, lane, list.len() as int, start, centre, nodes);
    lemma_stack_members(c.d, lane);
    assert(stack_of(c.d, lane) == list);
    let (a, b) = (r[nodes.len() + i], r[nodes.len() + j]);
    let (at, to) = (node_start(c, list, i, start), node_start(c, list, j, start));
    lemma_start_bounded(c, list, i, start);
    lemma_start_bounded(c, list, j, start);
    assert(0 <= c.sizes[list[i] as int].0 && 0 <= c.sizes[list[i] as int].1);
    assert(0 <= c.sizes[list[j] as int].0 && 0 <= c.sizes[list[j] as int].1);
    assert(middle(a, d) == plus(at, along(c, list[i]) / 2));
    assert(middle(b, d) == plus(to, along(c, list[j]) / 2));
    if 0 <= front(a, d) && middle(b, d) < FAR {
        assert(to < FAR);
        assert(at >= 0);
        lemma_starts_rise(c, list, i, j, start);
    }
}

/// Everything that `b` has beyond `a` belongs to a lane.
spec fn in_one(lane: LaneView, a: Stage, b: Stage) -> bool {
    &&& forall|i: int|
        a.lanes.len() <= i < b.lanes.len() ==> in_tree(lane, (#[trigger] b.lanes[i]).id)
    &&& forall|i: int|
        a.nodes.len() <= i < b.nodes.len() ==> in_tree(lane, (#[trigger] b.nodes[i]).lane)
}

/// Everything that `b` has beyond `a` belongs to the first `k` lanes.
spec fn in_some(lanes: Seq<LaneView>, k: nat, a: Stage, b: Stage) -> bool {
    &&& forall|i: int|
        a.lanes.len() <= i < b.lanes.len() ==> in_trees(lanes, (#[trigger] b.lanes[i]).id, k)
    &&& forall|i: int|
        a.nodes.len() <= i < b.nodes.len() ==> in_trees(lanes, (#[trigger] b.nodes[i]).lane, k)
}

#[verifier::spinoff_prover]
#[verifier::rlimit(40)]
proof fn lemma_lane_lined(c: Basis, lane: LaneView, m: Dim, x: int, y: int, st: Stage)
    requires
        calm(c),
        dim_fits(m),
        tree_distinct(lane),
        bounded(x),
        bounded(y),
        sized(lane, m),
    ensures
        extends(st, with_lane(c, lane, m, x, y, st)),
        in_one(lane, st, with_lane(c, lane, m, x, y, st)),
        lined(c, with_lane(c, lane, m, x, y, st).nodes, st.nodes.len() as int),
        centred(c, st, with_lane(c, lane, m, x, y, st)),
    decreases lane, 0nat,
{
    let d = c.d.direction;
    let l = SceneLaneView {
        id: lane.id,
        title: lane.title,
        x: x as Px,
        y: y as Px,
        w: m.w as Px,
        h: m.h as Px,
    };
    let own = Stage { lanes: st.lanes.push(l), nodes: st.nodes };
    let (cx, cy) = inner_corner(c, x, y);
    let n = lane.children.len();
    let inner = with_lanes(c, lane.children, m.children, n, cx, cy, own);
    let list = stacked(c, lane.id);
    let start = nodes_start(c, m.children, x, y);
    let centre = if vert(c) {
        plus(x, m.w / 2)
    } else {
        plus(y, m.h / 2)
    };
    let r = with_lane(c, lane, m, x, y, st);
    assert(all_sized(lane.children, m.children, n));
    assert(dims_fit(m.children, n));
    lemma_lanes_lined(c, lane.children, m.children, n, cx, cy, own);
    lemma_line(c, lane.id, list.len() as int, start, centre, inner.nodes);
    assert(r == (Stage {
        lanes: inner.lanes,
        nodes: with_nodes(c, list, list.len() as int, start, centre, inner.nodes),
    }));
    let s0 = st.lanes.len() as int;
    assert(inner.lanes[s0] == own.lanes[s0]);
    assert forall|i: int| 0 <= i < st.lanes.len() implies #[trigger] r.lanes[i] == st.lanes[i] by {
        assert(inner.lanes[i] == own.lanes[i]);
    }
    assert forall|i: int| 0 <= i < st.nodes.len() implies #[trigger] r.nodes[i] == st.nodes[i] by {
        assert(r.nodes[i] == inner.nodes[i]);
    }
    assert forall|i: int| s0 <= i < r.lanes.len() implies in_tree(
        lane,
        (#[trigger] r.lanes[i]).id,
    ) by {
        if i > s0 {
            assert(in_trees(lane.children, inner.lanes[i].id, n));
        }
    }
    assert forall|i: int| st.nodes.len() <= i < r.nodes.len() implies in_tree(
        lane,
        (#[trigger] r.nodes[i]).lane,
    ) by {
        if i < inner.nodes.len() {
            assert(r.nodes[i] == inner.nodes[i]);
            assert(in_trees(lane.children, inner.nodes[i].lane, n));
        }
    }
    assert forall|i: int, j: int|
        st.nodes.len() <= i < j < r.nodes.len() && (#[trigger] r.nodes[i]).lane == (
        #[trigger] r.nodes[j]).lane implies follows(
        r.nodes[i],
        r.nodes[j],
        d,
        c.sp.node_gap_y as int,
        j == i + 1,
    ) by {
        let s1 = inner.nodes.len();
        if i < s1 {
            assert(r.nodes[i] == inner.nodes[i]);
            assert(in_trees(lane.children, inner.nodes[i].lane, n));
            assert(j < s1);
            assert(r.nodes[j] == inner.nodes[j]);
        } else {
            lemma_lined(c, lane.id, start, centre, inner.nodes, i - s1, j - s1);
        }
    }
    assert forall|i: int, j: int|
        st.nodes.len() <= i < r.nodes.len() && s0 <= j < r.lanes.len() && (
        #[trigger] r.nodes[i]).lane == (#[trigger] r.lanes[j]).id && bounded(
            axis(r.lanes[j], d),
        ) implies beam(r.nodes[i], d) == axis(r.lanes[j], d) by {
        if i < inner.nodes.len() {
            assert(r.nodes[i] == inner.nodes[i]);
            assert(in_trees(lane.children, inner.nodes[i].lane, n));
            if j == s0 {
                assert(false);
            }
        } else if j > s0 {
            assert(in_trees(lane.children, inner.lanes[j].id, n));
        } else {
            assert(r.lanes[j] == l);
        }
    }
}

proof fn lemma_lane_start_bounded(c: Basis, ms: Seq<Dim>, k: int, start: int)
    requires
        bounded(start),
    ensures
        bounded(lane_start(c, ms, k, start)),
    decreases k,
{
    if k > 0 {
        lemma_lane_start_bounded(c, ms, k - 1, start);
    }
}

proof fn lemma_lanes_lined(
    c: Basis,
    lanes: Seq<LaneView>,
    ms: Seq<Dim>,
    k: nat,
    x: int,
    y: int,
    st: Stage,
)
    requires
        calm(c),
        k <= lanes.len(),
        all_sized(lanes, ms, k),
        dims_fit(ms, k),
        trees_distinct(lanes, k),
        bounded(x),
        bounded(y),
    ensures
        extends(st, with_lanes(c, lanes, ms, k, x, y, st)),
        in_some(lanes, k, st, with_lanes(c, lanes, ms, k, x, y, st)),
        lined(c, with_lanes(c, lanes, ms, k, x, y, st).nodes, st.nodes.len() as int),
        centred(c, st, with_lanes(c, lanes, ms, k, x, y, st)),
    decreases lanes, k,
{
    if k > 0 {
        let j = (k - 1) as nat;
        lemma_lanes_lined(c, lanes, ms, j, x, y, st);
        let b = with_lanes(c, lanes, ms, j, x, y, st);
        let r = with_lanes(c, lanes, ms, k, x, y, st);
        let lane = lanes[k - 1];
        let (lx, ly) = if vert(c) {
            (lane_start(c, ms, k - 1, x), y)
        } else {
            (x, lane_start(c, ms, k - 1, y))
        };
        lemma_lane_start_bounded(c, ms, k - 1, x);
        lemma_lane_start_bounded(c, ms, k - 1, y);
        lemma_lane_lined(c, lane, ms[k - 1], lx, ly, b);
        assert(r == with_lane(c, lane, ms[k - 1], lx, ly, b));
        lemma_joined(c, lanes, k, st, b, r);
    }
}

/// What holds of the lanes before and of one more lane holds of all.
proof fn lemma_joined(c: Basis, lanes: Seq<LaneView>, k: nat, st: Stage, b: Stage, r: Stage)
    requires
        0 < k <= lanes.len(),
        trees_distinct(lanes, k),
        extends(st, b),
        extends(b, r),
        in_some(lanes, (k - 1) as nat, st, b),
        in_one(lanes[k - 1], b, r),
        lined(c, b.nodes, st.nodes.len() as int),
        lined(c, r.nodes, b.nodes.len() as int),
        centred(c, st, b),
        centred(c, b, r),
    ensures
        extends(st, r),
        in_some(lanes, k, st, r),
        lined(c, r.nodes, st.nodes.len() as int),
        centred(c, st, r),
{
    let j = (k - 1) as nat;
    let d = c.d.direction;
    assert forall|i: int| 0 <= i < st.lanes.len() implies #[trigger] r.lanes[i] == st.lanes[i] by {
        assert(r.lanes[i] == b.lanes[i]);
    }
    assert forall|i: int| 0 <= i < st.nodes.len() implies #[trigger] r.nodes[i] == st.nodes[i] by {
        assert(r.nodes[i] == b.nodes[i]);
    }
    assert forall|i: int| st.lanes.len() <= i < r.lanes.len() implies in_trees(
        lanes,
        (#[trigger] r.lanes[i]).id,
        k,
    ) by {
        if i < b.lanes.len() {
            assert(r.lanes[i] == b.lanes[i]);
        }
    }
    assert forall|i: int| st.nodes.len() <= i < r.nodes.len() implies in_trees(
        lanes,
        (#[trigger] r.nodes[i]).lane,
        k,
    ) by {
        if i < b.nodes.len() {
            assert(r.nodes[i] == b.nodes[i]);
        }
    }
    assert forall|i: int, h: int|
        st.nodes.len() <= i < h < r.nodes.len() && (#[trigger] r.nodes[i]).lane == (
        #[trigger] r.nodes[h]).lane implies follows(
        r.nodes[i],
        r.nodes[h],
        d,
        c.sp.node_gap_y as int,
        h == i + 1,
    ) by {
        if i < b.nodes.len() {
            assert(r.nodes[i] == b.nodes[i]);
            assert(in_trees(lanes, b.nodes[i].lane, j));
            if h < b.nodes.len() {
                assert(r.nodes[h] == b.nodes[h]);
            } else {
                assert(in_tree(lanes[k - 1], r.nodes[h].lane));
            }
        }
    }
    assert forall|i: int, h: int|
        st.nodes.len() <= i < r.nodes.len() && st.lanes.len() <= h < r.lanes.len() && (
        #[trigger] r.nodes[i]).lane == (#[trigger] r.lanes[h]).id && bounded(
            axis(r.lanes[h], d),
        ) implies beam(r.nodes[i], d) == axis(r.lanes[h], d) by {
        if i < b.nodes.len() {
            assert(r.nodes[i] == b.nodes[i]);
            assert(in_trees(lanes, b.nodes[i].lane, j));
        } else {
            assert(in_tree(lanes[k - 1], r.nodes[i].lane));
        }
        if h < b.lanes.len() {
            assert(r.lanes[h] == b.lanes[h]);
            assert(in_trees(lanes, b.lanes[h].id, j));
        } else {
            assert(in_tree(lanes[k - 1], r.lanes[h].id));
        }
    }
}

/// In a diagram that is placed lane by lane the nodes of a lane do not
/// overlap: along the flow, in columns as in rows, each starts at least a
/// gap behind the end of every node that is listed before it in its lane,
/// and exactly a gap behind the one just before. Across the flow every node
/// lies on the middle of its lane. This holds for all nodes and lanes that
/// lie in the range of lengths.
pub proof fn law_nodes_of_a_lane_do_not_overlap(
    sc: SceneView,
    d: DiagramView,
    measures: Seq<NodeMeasure>,
    widths: Seq<Px>,
    sp: Spacing,
)
    requires
        is_layout(sc, d, measures, widths, sp),
        !all_explicit(measures),
        trees_distinct(d.lanes, d.lanes.len()),
        calm(basis(d, measures, sp)),
    ensures
        forall|i: int, j: int|
            0 <= i < j < sc.nodes.len() && (#[trigger] sc.nodes[i]).lane == (
            #[trigger] sc.nodes[j]).lane ==> follows(
                sc.nodes[i],
                sc.nodes[j],
                d.direction,
                basis(d, measures, sp).sp.node_gap_y as int,
                j == i + 1,
            ),
        forall|i: int, j: int|
            0 <= i < sc.nodes.len() && 0 <= j < sc.lanes.len() && (#[trigger] sc.nodes[i]).lane == (
            #[trigger] sc.lanes[j]).id && bounded(axis(sc.lanes[j], d.direction)) ==> beam(
                sc.nodes[i],
                d.direction,
            ) == axis(sc.lanes[j], d.direction),
{
    let c = basis(d, measures, sp);
    let none = Stage { lanes: Seq::empty(), nodes: Seq::empty() };
    let margin = c.sp.margin as int;
    lemma_tops_fit(c);
    lemma_lanes_lined(c, d.lanes, top_dims(c), d.lanes.len(), margin, margin, none);
    assert(stage(c) == with_lanes(c, d.lanes, top_dims(c), d.lanes.len(), margin, margin, none));
}

} // verus!
