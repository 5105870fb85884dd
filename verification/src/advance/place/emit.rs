//! Lanes and nodes in their places, lane by lane.

use vstd::prelude::*;

use crate::advance::order::{lane_order, order_lane_nodes};
use crate::advance::place::elements::{placed_node, scene_node};
use crate::advance::place::lanes::{
    basis_fits, dim_fits, dim_views, dims_fit, lane_list, lemma_dims_fit, list_lane, max_h, max_w,
    Basis, Dim, LaneDim, Placement,
};
use crate::advance::place::lengths::{bounded, plus, sum};
use crate::advance::route::edges::nodes_near;
use crate::advance::route::geometry::half;
use crate::advance::scene::{
    scene_lanes, scene_nodes, AdvanceSceneLane, AdvanceSceneNode, Px, SceneLaneView, SceneNodeView,
};
use crate::advance::{lane_views, AdvanceDirection, AdvanceLane, LaneView};

verus! {

/// Lanes and nodes that were placed.
#[verifier::ext_equal]
pub struct Stage {
    pub lanes: Seq<SceneLaneView>,
    pub nodes: Seq<SceneNodeView>,
}

/// The nodes of a lane in the order in which they are stacked.
pub open spec fn stacked(c: Basis, lane: Seq<char>) -> Seq<usize> {
    lane_order(lane_list(c, lane), c.d, c.d.config.order)
}

/// Where the `k`-th listed node starts along the flow, from `start`.
pub open spec fn node_start(c: Basis, list: Seq<usize>, k: int, start: int) -> int
    decreases k,
{
    if k <= 0 {
        start
    } else {
        let size = c.sizes[list[k - 1] as int];
        let along = match c.d.direction {
            AdvanceDirection::Vertical => size.1 as int,
            AdvanceDirection::Horizontal => size.0 as int,
        };
        plus(node_start(c, list, k - 1, start), plus(along, c.sp.node_gap_y as int))
    }
}

/// `nodes` with the first `k` listed nodes in their places: one behind the
/// other along the flow from `start`, centred at `centre` across it.
pub open spec fn with_nodes(
    c: Basis,
    list: Seq<usize>,
    k: int,
    start: int,
    centre: int,
    nodes: Seq<SceneNodeView>,
) -> Seq<SceneNodeView>
    decreases k,
{
    if k <= 0 {
        nodes
    } else {
        let i = list[k - 1] as int;
        let w = c.sizes[i].0 as int;
        let h = c.sizes[i].1 as int;
        let at = node_start(c, list, k - 1, start);
        let (x, y) = match c.d.direction {
            AdvanceDirection::Vertical => (centre, plus(at, h / 2)),
            AdvanceDirection::Horizontal => (plus(at, w / 2), centre),
        };
        with_nodes(c, list, k - 1, start, centre, nodes).push(
            placed_node(c.d.nodes[i], c.measures[i], x, y, w, h),
        )
    }
}

/// The corner of the sub-lanes of a lane at `(x, y)`.
pub open spec fn inner_corner(c: Basis, x: int, y: int) -> (int, int) {
    let pad_x = c.sp.lane_pad_x as int;
    let pad_y = c.sp.lane_pad_y as int;
    let title = c.sp.lane_title_h as int;
    match c.d.direction {
        AdvanceDirection::Vertical => (plus(x, pad_x), plus(plus(y, title), pad_y)),
        AdvanceDirection::Horizontal => (plus(plus(x, title), pad_x), plus(y, pad_y)),
    }
}

/// Where the nodes of a lane at `(x, y)` start along the flow: below its
/// title, or behind its sub-lanes.
pub open spec fn nodes_start(c: Basis, inner: Seq<Dim>, x: int, y: int) -> int {
    let n = inner.len() as int;
    let pad_x = c.sp.lane_pad_x as int;
    let pad_y = c.sp.lane_pad_y as int;
    let (cx, cy) = inner_corner(c, x, y);
    match c.d.direction {
        AdvanceDirection::Vertical => if n == 0 {
            cy
        } else {
            plus(plus(cy, max_h(inner, n)), pad_y)
        },
        AdvanceDirection::Horizontal => if n == 0 {
            cx
        } else {
            plus(plus(cx, max_w(inner, n)), pad_x)
        },
    }
}

/// `st` with a lane at `(x, y)`, its sub-lanes, and its nodes in their
/// places.
pub open spec fn with_lane(c: Basis, lane: LaneView, m: Dim, x: int, y: int, st: Stage) -> Stage
    decreases lane, 0nat,
{
    let own = Stage {
        lanes: st.lanes.push(
            SceneLaneView {
                id: lane.id,
                title: lane.title,
                x: x as Px,
                y: y as Px,
                w: m.w as Px,
                h: m.h as Px,
            },
        ),
        nodes: st.nodes,
    };
    let (cx, cy) = inner_corner(c, x, y);
    let inner = with_lanes(c, lane.children, m.children, lane.children.len(), cx, cy, own);
    let list = stacked(c, lane.id);
    let centre = match c.d.direction {
        AdvanceDirection::Vertical => plus(x, m.w / 2),
        AdvanceDirection::Horizontal => plus(y, m.h / 2),
    };
    Stage {
        lanes: inner.lanes,
        nodes: with_nodes(
            c,
            list,
            list.len() as int,
            nodes_start(c, m.children, x, y),
            centre,
            inner.nodes,
        ),
    }
}

/// How far behind the first lane the `k`-th starts.
pub open spec fn lane_start(c: Basis, ms: Seq<Dim>, k: int, start: int) -> int
    decreases k,
{
    if k <= 0 {
        start
    } else {
        let along = match c.d.direction {
            AdvanceDirection::Vertical => ms[k - 1].w,
            AdvanceDirection::Horizontal => ms[k - 1].h,
        };
        plus(lane_start(c, ms, k - 1, start), plus(along, c.sp.lane_gap as int))
    }
}

/// `st` with the first `k` lanes in their places: side by side from
/// `(x, y)`, or above each other.
pub open spec fn with_lanes(
    c: Basis,
    lanes: Seq<LaneView>,
    ms: Seq<Dim>,
    k: nat,
    x: int,
    y: int,
    st: Stage,
) -> Stage
    decreases lanes, k,
{
    if k == 0 || k > lanes.len() {
        st
    } else {
        let before = with_lanes(c, lanes, ms, (k - 1) as nat, x, y, st);
        match c.d.direction {
            AdvanceDirection::Vertical => with_lane(
                c,
                lanes[k - 1],
                ms[k - 1],
                lane_start(c, ms, k - 1, x),
                y,
                before,
            ),
            AdvanceDirection::Horizontal => with_lane(
                c,
                lanes[k - 1],
                ms[k - 1],
                x,
                lane_start(c, ms, k - 1, y),
                before,
            ),
        }
    }
}

/// Whether each lane of a tree has a size.
pub open spec fn sized(lane: LaneView, m: Dim) -> bool
    decreases lane, 0nat,
{
    all_sized(lane.children, m.children, lane.children.len())
}

pub open spec fn all_sized(lanes: Seq<LaneView>, ms: Seq<Dim>, k: nat) -> bool
    decreases lanes, k,
{
    &&& ms.len() == lanes.len()
    &&& k <= lanes.len()
    &&& k > 0 ==> sized(lanes[k - 1], ms[k - 1]) && all_sized(lanes, ms, (k - 1) as nat)
}

pub proof fn lemma_sized(lanes: Seq<LaneView>, ms: Seq<Dim>, k: nat, i: int)
    requires
        all_sized(lanes, ms, k),
        0 <= i < k,
    ensures
        sized(lanes[i], ms[i]),
    decreases k,
{
    if i < k - 1 {
        lemma_sized(lanes, ms, (k - 1) as nat, i);
    }
}

/// Lanes and nodes while they are placed.
pub struct Staging {
    pub lanes: Vec<AdvanceSceneLane>,
    pub nodes: Vec<AdvanceSceneNode>,
}

impl View for Staging {
    type V = Stage;

    open spec fn view(&self) -> Stage {
        Stage { lanes: scene_lanes(self.lanes@), nodes: scene_nodes(self.nodes@) }
    }
}

fn place_nodes(p: &Placement, lane: &str, start: Px, centre: Px, out: &mut Vec<AdvanceSceneNode>)
    requires
        basis_fits(p@),
        bounded(start as int),
        bounded(centre as int),
        nodes_near(scene_nodes(old(out)@)),
    ensures
        scene_nodes(final(out)@) == with_nodes(
            p@,
            stacked(p@, lane@),
            stacked(p@, lane@).len() as int,
            start as int,
            centre as int,
            scene_nodes(old(out)@),
        ),
        nodes_near(scene_nodes(final(out)@)),
{
    let ghost c = p@;
    let ghost before = scene_nodes(out@);
    let list = list_lane(p, lane);
    let order = order_lane_nodes(list.as_slice(), p.d, &p.d.config);
    proof {
        crate::advance::order_laws::lemma_order_stays_in_lane(list@, c.d, c.d.config.order);
    }
    let mut along: Px = start;
    let mut k: usize = 0;
    while k < order.len()
        invariant
            k <= order@.len(),
            c == p@,
            basis_fits(c),
            bounded(along as int),
            bounded(centre as int),
            order@ == stacked(c, lane@),
            forall|i: int| 0 <= i < order@.len() ==> (#[trigger] order@[i]) < c.d.nodes.len(),
            along == node_start(c, order@, k as int, start as int),
            scene_nodes(out@) == with_nodes(
                c,
                order@,
                k as int,
                start as int,
                centre as int,
                before,
            ),
            nodes_near(scene_nodes(out@)),
        decreases order@.len() - k,
    {
        let i: usize = order[k];
        assert(bounded(c.sizes[i as int].0 as int));
        assert(node_measured_at(c, i as int));
        let (w, h) = p.sizes[i];
        let (x, y, step): (Px, Px, Px) = match p.d.direction {
            AdvanceDirection::Vertical => (centre, sum(along, half(h)), h),
            AdvanceDirection::Horizontal => (sum(along, half(w)), centre, w),
        };
        let n = scene_node(&p.d.nodes[i], &p.measures[i], x, y, w, h);
        assert(c.d.nodes[i as int] == p.d.nodes@[i as int]@);
        let ghost so_far = out@;
        out.push(n);
        assert(scene_nodes(out@) =~= scene_nodes(so_far).push(n@));
        along = sum(along, sum(step, p.sp.node_gap_y));
        k += 1;
    }
}

spec fn node_measured_at(c: Basis, i: int) -> bool {
    crate::advance::place::sizes::node_measured(c.d.nodes[i], c.measures[i])
}

fn place_lane(p: &Placement, lane: &AdvanceLane, m: &LaneDim, x: Px, y: Px, out: &mut Staging)
    requires
        basis_fits(p@),
        bounded(x as int),
        bounded(y as int),
        dim_fits(m@),
        sized(lane@, m@),
        nodes_near(old(out)@.nodes),
    ensures
        final(out)@ == with_lane(p@, lane@, m@, x as int, y as int, old(out)@),
        nodes_near(final(out)@.nodes),
    decreases lane,
{
    let ghost c = p@;
    let ghost start = out@;
    let l = AdvanceSceneLane {
        id: lane.id.clone(),
        title: lane.title.clone(),
        x,
        y,
        w: m.w,
        h: m.h,
    };
    let ghost lanes_before = out.lanes@;
    out.lanes.push(l);
    assert(scene_lanes(out.lanes@) =~= scene_lanes(lanes_before).push(l@));
    let pad_x: Px = p.sp.lane_pad_x;
    let pad_y: Px = p.sp.lane_pad_y;
    let title: Px = p.sp.lane_title_h;
    let (cx, cy): (Px, Px) = match p.d.direction {
        AdvanceDirection::Vertical => (sum(x, pad_x), sum(sum(y, title), pad_y)),
        AdvanceDirection::Horizontal => (sum(sum(x, title), pad_x), sum(y, pad_y)),
    };
    assert((cx as int, cy as int) == inner_corner(c, x as int, y as int));
    assert(dim_views(m.children@).len() == m.children@.len());
    assert(lane_views(lane.children@).len() == lane.children@.len());
    place_lanes(p, &lane.children, &m.children, cx, cy, out);
    let (wide, high, _, _) = crate::advance::place::lanes::gather(&m.children);
    let first: Px = match p.d.direction {
        AdvanceDirection::Vertical => if m.children.len() == 0 {
            cy
        } else {
            sum(sum(cy, high), pad_y)
        },
        AdvanceDirection::Horizontal => if m.children.len() == 0 {
            cx
        } else {
            sum(sum(cx, wide), pad_x)
        },
    };
    assert(first == nodes_start(c, m@.children, x as int, y as int));
    let centre: Px = match p.d.direction {
        AdvanceDirection::Vertical => sum(x, half(m.w)),
        AdvanceDirection::Horizontal => sum(y, half(m.h)),
    };
    place_nodes(p, lane.id.as_str(), first, centre, &mut out.nodes);
}

pub fn place_lanes(
    p: &Placement,
    lanes: &Vec<AdvanceLane>,
    ms: &Vec<LaneDim>,
    x: Px,
    y: Px,
    out: &mut Staging,
)
    requires
        basis_fits(p@),
        bounded(x as int),
        bounded(y as int),
        dims_fit(dim_views(ms@), ms@.len()),
        all_sized(lane_views(lanes@), dim_views(ms@), lanes@.len()),
        nodes_near(old(out)@.nodes),
    ensures
        final(out)@ == with_lanes(
            p@,
            lane_views(lanes@),
            dim_views(ms@),
            lanes@.len(),
            x as int,
            y as int,
            old(out)@,
        ),
        nodes_near(final(out)@.nodes),
    decreases lanes,
{
    let ghost c = p@;
    let ghost lv = lane_views(lanes@);
    let ghost mv = dim_views(ms@);
    let ghost start = out@;
    let ghost origin: int = match c.d.direction {
        AdvanceDirection::Vertical => x as int,
        AdvanceDirection::Horizontal => y as int,
    };
    let mut along: Px = match p.d.direction {
        AdvanceDirection::Vertical => x,
        AdvanceDirection::Horizontal => y,
    };
    let mut k: usize = 0;
    while k < lanes.len()
        invariant
            k <= lanes@.len(),
            c == p@,
            basis_fits(c),
            lv == lane_views(lanes@),
            mv == dim_views(ms@),
            mv.len() == ms@.len(),
            lv.len() == lanes@.len(),
            dims_fit(mv, ms@.len()),
            all_sized(lv, mv, lanes@.len()),
            bounded(x as int),
            bounded(y as int),
            bounded(along as int),
            origin == (match c.d.direction {
                AdvanceDirection::Vertical => x as int,
                AdvanceDirection::Horizontal => y as int,
            }),
            along == lane_start(c, mv, k as int, origin),
            out@ == with_lanes(c, lv, mv, k as nat, x as int, y as int, start),
            nodes_near(out@.nodes),
        decreases lanes@.len() - k,
    {
        proof {
            lemma_sized(lv, mv, lanes@.len(), k as int);
            lemma_dims_fit(mv, ms@.len(), k as int);
            assert(lv[k as int] == lanes@[k as int]@);
            assert(mv[k as int] == ms@[k as int]@);
        }
        match p.d.direction {
            AdvanceDirection::Vertical => {
                place_lane(p, &lanes[k], &ms[k], along, y, out);
                along = sum(along, sum(ms[k].w, p.sp.lane_gap));
            },
            AdvanceDirection::Horizontal => {
                place_lane(p, &lanes[k], &ms[k], x, along, out);
                along = sum(along, sum(ms[k].h, p.sp.lane_gap));
            },
        }
        k += 1;
    }
}

} // verus!
