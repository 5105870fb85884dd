//! How large lanes are, and where they and their nodes go.

use vstd::prelude::*;

use crate::advance::order::global;
use crate::advance::place::lengths::{bounded, diff, minus, multiple, plus, sum, times};
use crate::advance::place::sizes::{node_measured, NodeMeasure};
use crate::advance::route::geometry::{greater, most};
use crate::advance::scene::Px;
use crate::advance::{
    lane_node_views, lane_views, AdvanceDiagram, AdvanceDirection, AdvanceLane, DiagramView,
    LaneNodeView, LaneView,
};
use crate::text::str_eq;

verus! {

/// The least extents of a lane.
pub const MIN_LANE: i64 = 7680000;

pub const MIN_ROW_W: i64 = 10240000;

pub const MIN_ROW_H: i64 = 5120000;

/// Spacing of a diagram.
#[derive(Debug, Clone, Copy, PartialEq, Eq, Structural)]
pub struct Spacing {
    pub margin: Px,
    pub lane_gap: Px,
    pub node_gap_y: Px,
    pub lane_pad_x: Px,
    pub lane_pad_y: Px,
    pub lane_title_h: Px,
}

/// Whether all spacing is in range.
pub open spec fn spacing_fits(s: Spacing) -> bool {
    bounded(s.margin as int) && bounded(s.lane_gap as int) && bounded(s.node_gap_y as int)
        && bounded(s.lane_pad_x as int) && bounded(s.lane_pad_y as int) && bounded(
        s.lane_title_h as int,
    )
}

/// What lanes are placed by: the diagram, what was measured of its nodes,
/// their sizes, and the spacing.
#[verifier::ext_equal]
pub struct Basis {
    pub d: DiagramView,
    pub measures: Seq<NodeMeasure>,
    pub sizes: Seq<(Px, Px)>,
    pub sp: Spacing,
}

/// What lanes are placed by.
pub struct Placement<'a> {
    pub d: &'a AdvanceDiagram,
    pub measures: &'a Vec<NodeMeasure>,
    pub sizes: &'a Vec<(Px, Px)>,
    pub sp: Spacing,
}

impl<'a> View for Placement<'a> {
    type V = Basis;

    open spec fn view(&self) -> Basis {
        Basis { d: self.d@, measures: self.measures@, sizes: self.sizes@, sp: self.sp }
    }
}

/// Whether everything that lanes are placed by is there and in range.
pub open spec fn basis_fits(c: Basis) -> bool {
    &&& spacing_fits(c.sp)
    &&& c.measures.len() == c.d.nodes.len()
    &&& c.sizes.len() == c.d.nodes.len()
    &&& forall|i: int|
        0 <= i < c.d.nodes.len() ==> node_measured(#[trigger] c.d.nodes[i], c.measures[i])
    &&& forall|i: int|
        0 <= i < c.sizes.len() ==> bounded((#[trigger] c.sizes[i]).0 as int) && bounded(
            c.sizes[i].1 as int,
        )
    &&& forall|i: int|
        0 <= i < c.d.edges.len() ==> global(c.d.nodes, (#[trigger] c.d.edges[i]).from) is Some
            && global(c.d.nodes, c.d.edges[i].to) is Some
}

/// The nodes among the first `k` that are in a lane, in order.
pub open spec fn local(nodes: Seq<LaneNodeView>, lane: Seq<char>, k: int) -> Seq<usize>
    decreases k,
{
    if k <= 0 {
        Seq::empty()
    } else if nodes[k - 1].lane == lane {
        local(nodes, lane, k - 1).push((k - 1) as usize)
    } else {
        local(nodes, lane, k - 1)
    }
}

/// The nodes of a lane in declaration order.
pub open spec fn lane_list(c: Basis, lane: Seq<char>) -> Seq<usize> {
    local(c.d.nodes, lane, c.d.nodes.len() as int)
}

pub fn list_lane(p: &Placement, lane: &str) -> (r: Vec<usize>)
    ensures
        r@ == lane_list(p@, lane@),
        forall|i: int| 0 <= i < r@.len() ==> (#[trigger] r@[i]) < p@.d.nodes.len(),
{
    let ghost nodes = p@.d.nodes;
    let mut r: Vec<usize> = Vec::new();
    let mut i: usize = 0;
    while i < p.d.nodes.len()
        invariant
            i <= p.d.nodes@.len(),
            nodes == p@.d.nodes,
            nodes == lane_node_views(p.d.nodes@),
            r@ == local(nodes, lane@, i as int),
            forall|k: int| 0 <= k < r@.len() ==> (#[trigger] r@[k]) < i,
        decreases p.d.nodes@.len() - i,
    {
        assert(nodes[i as int] == p.d.nodes@[i as int]@);
        if str_eq(p.d.nodes[i].lane.as_str(), lane) {
            r.push(i);
        }
        i += 1;
    }
    r
}

/// The widest of the first `k` listed nodes.
pub open spec fn widest_node(sizes: Seq<(Px, Px)>, list: Seq<usize>, k: int) -> int
    decreases k,
{
    if k <= 0 {
        0
    } else {
        most(widest_node(sizes, list, k - 1), sizes[list[k - 1] as int].0 as int)
    }
}

/// The highest of the first `k` listed nodes.
pub open spec fn highest_node(sizes: Seq<(Px, Px)>, list: Seq<usize>, k: int) -> int
    decreases k,
{
    if k <= 0 {
        0
    } else {
        most(highest_node(sizes, list, k - 1), sizes[list[k - 1] as int].1 as int)
    }
}

/// The first `k` listed nodes side by side, with a gap behind each.
pub open spec fn run_of_widths(sizes: Seq<(Px, Px)>, list: Seq<usize>, k: int, gap: int) -> int
    decreases k,
{
    if k <= 0 {
        0
    } else {
        plus(
            run_of_widths(sizes, list, k - 1, gap),
            plus(sizes[list[k - 1] as int].0 as int, gap),
        )
    }
}

/// The first `k` listed nodes above each other, with a gap below each.
pub open spec fn run_of_heights(sizes: Seq<(Px, Px)>, list: Seq<usize>, k: int, gap: int) -> int
    decreases k,
{
    if k <= 0 {
        0
    } else {
        plus(
            run_of_heights(sizes, list, k - 1, gap),
            plus(sizes[list[k - 1] as int].1 as int, gap),
        )
    }
}

/// The extent of the nodes of a lane: its own nodes, without its sub-lanes.
pub open spec fn nodes_extent(c: Basis, lane: Seq<char>) -> (int, int) {
    let list = lane_list(c, lane);
    let n = list.len() as int;
    match c.d.direction {
        AdvanceDirection::Vertical => {
            let gap = c.sp.node_gap_y as int;
            let run = run_of_heights(c.sizes, list, n, gap);
            (
                widest_node(c.sizes, list, n),
                if n > 0 {
                    minus(run, gap)
                } else {
                    run
                },
            )
        },
        AdvanceDirection::Horizontal => {
            let gap = c.sp.lane_gap as int;
            let run = run_of_widths(c.sizes, list, n, gap);
            (
                if n > 0 {
                    minus(run, gap)
                } else {
                    run
                },
                highest_node(c.sizes, list, n),
            )
        },
    }
}

fn measure_nodes(p: &Placement, lane: &str) -> (r: (Px, Px))
    requires
        basis_fits(p@),
    ensures
        (r.0 as int, r.1 as int) == nodes_extent(p@, lane@),
        bounded(r.0 as int),
        bounded(r.1 as int),
{
    let list = list_lane(p, lane);
    let ghost sizes = p@.sizes;
    let mut wide: Px = 0;
    let mut high: Px = 0;
    let mut across: Px = 0;
    let mut down: Px = 0;
    let mut i: usize = 0;
    while i < list.len()
        invariant
            i <= list@.len(),
            basis_fits(p@),
            sizes == p@.sizes,
            forall|k: int| 0 <= k < list@.len() ==> (#[trigger] list@[k]) < p@.d.nodes.len(),
            bounded(wide as int) && bounded(high as int),
            bounded(across as int) && bounded(down as int),
            wide == widest_node(sizes, list@, i as int),
            high == highest_node(sizes, list@, i as int),
            across == run_of_widths(sizes, list@, i as int, p.sp.lane_gap as int),
            down == run_of_heights(sizes, list@, i as int, p.sp.node_gap_y as int),
        decreases list@.len() - i,
    {
        let ni: usize = list[i];
        assert(bounded(p@.sizes[ni as int].0 as int));
        let (w, h) = p.sizes[ni];
        wide = greater(wide, w);
        high = greater(high, h);
        across = sum(across, sum(w, p.sp.lane_gap));
        down = sum(down, sum(h, p.sp.node_gap_y));
        i += 1;
    }
    match p.d.direction {
        AdvanceDirection::Vertical => {
            if list.len() > 0 {
                (wide, diff(down, p.sp.node_gap_y))
            } else {
                (wide, down)
            }
        },
        AdvanceDirection::Horizontal => {
            if list.len() > 0 {
                (diff(across, p.sp.lane_gap), high)
            } else {
                (across, high)
            }
        },
    }
}

/// The size of a lane with its sub-lanes.
#[derive(Debug)]
pub struct LaneDim {
    pub w: Px,
    pub h: Px,
    pub children: Vec<LaneDim>,
}

/// A [`LaneDim`] in mathematical terms.
#[verifier::ext_equal]
pub struct Dim {
    pub w: int,
    pub h: int,
    pub children: Seq<Dim>,
}

pub open spec fn dim_views(v: Seq<LaneDim>) -> Seq<Dim>
    decreases v,
{
    Seq::new(
        v.len(),
        |i: int|
            if 0 <= i < v.len() {
                dim_view(v[i])
            } else {
                arbitrary()
            },
    )
}

pub open spec fn dim_view(m: LaneDim) -> Dim
    decreases m,
{
    Dim { w: m.w as int, h: m.h as int, children: dim_views(m.children@) }
}

impl View for LaneDim {
    type V = Dim;

    open spec fn view(&self) -> Dim {
        dim_view(*self)
    }
}

/// Whether all lanes of a tree are in range.
pub open spec fn dim_fits(m: Dim) -> bool
    decreases m, 0nat,
{
    bounded(m.w) && bounded(m.h) && dims_fit(m.children, m.children.len())
}

pub open spec fn dims_fit(ms: Seq<Dim>, k: nat) -> bool
    decreases ms, k,
{
    k <= ms.len() && (k > 0 ==> dim_fits(ms[k - 1]) && dims_fit(ms, (k - 1) as nat))
}

pub proof fn lemma_dims_fit(ms: Seq<Dim>, k: nat, i: int)
    requires
        dims_fit(ms, k),
        0 <= i < k,
    ensures
        dim_fits(ms[i]),
    decreases k,
{
    if i < k - 1 {
        lemma_dims_fit(ms, (k - 1) as nat, i);
    }
}

proof fn lemma_all_dims_fit(ms: Seq<Dim>, k: nat)
    requires
        k <= ms.len(),
        forall|i: int| 0 <= i < k ==> dim_fits(#[trigger] ms[i]),
    ensures
        dims_fit(ms, k),
    decreases k,
{
    if k > 0 {
        lemma_all_dims_fit(ms, (k - 1) as nat);
        assert(dim_fits(ms[k - 1]));
    }
}

/// The largest width of the first `k` lanes.
pub open spec fn max_w(ms: Seq<Dim>, k: int) -> int
    decreases k,
{
    if k <= 0 {
        0
    } else {
        most(max_w(ms, k - 1), ms[k - 1].w)
    }
}

/// The largest height of the first `k` lanes.
pub open spec fn max_h(ms: Seq<Dim>, k: int) -> int
    decreases k,
{
    if k <= 0 {
        0
    } else {
        most(max_h(ms, k - 1), ms[k - 1].h)
    }
}

/// The first `k` lanes side by side, without gaps.
pub open spec fn sum_w(ms: Seq<Dim>, k: int) -> int
    decreases k,
{
    if k <= 0 {
        0
    } else {
        plus(sum_w(ms, k - 1), ms[k - 1].w)
    }
}

/// The first `k` lanes above each other, without gaps.
pub open spec fn sum_h(ms: Seq<Dim>, k: int) -> int
    decreases k,
{
    if k <= 0 {
        0
    } else {
        plus(sum_h(ms, k - 1), ms[k - 1].h)
    }
}

/// The size of a lane around its own nodes and its sub-lanes.
pub open spec fn lane_extent(c: Basis, lane: Seq<char>, inner: Seq<Dim>) -> (int, int) {
    let (nw, nh) = nodes_extent(c, lane);
    let pad_x = c.sp.lane_pad_x as int;
    let pad_y = c.sp.lane_pad_y as int;
    let title = c.sp.lane_title_h as int;
    let both_x = plus(pad_x, pad_x);
    let both_y = plus(pad_y, pad_y);
    let n = inner.len() as int;
    let gaps = times(n - 1, c.sp.lane_gap as int);
    match c.d.direction {
        AdvanceDirection::Vertical => {
            let top = plus(title, pad_y);
            if n == 0 {
                (
                    most(plus(nw, both_x), MIN_LANE as int),
                    most(plus(plus(top, nh), pad_y), MIN_LANE as int),
                )
            } else {
                let across = plus(sum_w(inner, n), gaps);
                (
                    most(most(plus(across, both_x), plus(nw, both_x)), MIN_LANE as int),
                    most(plus(plus(plus(top, max_h(inner, n)), pad_y), nh), MIN_LANE as int),
                )
            }
        },
        AdvanceDirection::Horizontal => {
            let left = plus(title, pad_x);
            if n == 0 {
                (
                    most(plus(plus(left, nw), pad_x), MIN_ROW_W as int),
                    most(most(plus(nh, both_y), plus(title, both_y)), MIN_ROW_H as int),
                )
            } else {
                let down = plus(sum_h(inner, n), gaps);
                (
                    most(plus(plus(plus(left, max_w(inner, n)), pad_x), nw), MIN_ROW_W as int),
                    most(most(plus(down, both_y), plus(nh, both_y)), MIN_ROW_H as int),
                )
            }
        },
    }
}

/// The size of a lane with its sub-lanes.
pub open spec fn lane_dim(c: Basis, lane: LaneView) -> Dim
    decreases lane,
{
    let inner = lane_dims(c, lane.children);
    let (w, h) = lane_extent(c, lane.id, inner);
    Dim { w, h, children: inner }
}

pub open spec fn lane_dims(c: Basis, lanes: Seq<LaneView>) -> Seq<Dim>
    decreases lanes,
{
    Seq::new(
        lanes.len(),
        |i: int|
            if 0 <= i < lanes.len() {
                lane_dim(c, lanes[i])
            } else {
                arbitrary()
            },
    )
}

/// The extents of lanes together: widest, highest, side by side, above each
/// other.
pub fn gather(ms: &Vec<LaneDim>) -> (r: (Px, Px, Px, Px))
    requires
        dims_fit(dim_views(ms@), ms@.len()),
    ensures
        r.0 == max_w(dim_views(ms@), ms@.len() as int),
        r.1 == max_h(dim_views(ms@), ms@.len() as int),
        r.2 == sum_w(dim_views(ms@), ms@.len() as int),
        r.3 == sum_h(dim_views(ms@), ms@.len() as int),
        bounded(r.0 as int) && bounded(r.1 as int) && bounded(r.2 as int) && bounded(r.3 as int),
{
    let ghost v = dim_views(ms@);
    let mut wide: Px = 0;
    let mut high: Px = 0;
    let mut across: Px = 0;
    let mut down: Px = 0;
    let mut i: usize = 0;
    while i < ms.len()
        invariant
            i <= ms@.len(),
            v == dim_views(ms@),
            dims_fit(v, ms@.len()),
            wide == max_w(v, i as int),
            high == max_h(v, i as int),
            across == sum_w(v, i as int),
            down == sum_h(v, i as int),
            bounded(wide as int) && bounded(high as int),
            bounded(across as int) && bounded(down as int),
        decreases ms@.len() - i,
    {
        proof {
            lemma_dims_fit(v, ms@.len(), i as int);
            assert(v[i as int] == ms@[i as int]@);
        }
        wide = greater(wide, ms[i].w);
        high = greater(high, ms[i].h);
        across = sum(across, ms[i].w);
        down = sum(down, ms[i].h);
        i += 1;
    }
    (wide, high, across, down)
}

fn measure_lane(p: &Placement, lane: &str, inner: &Vec<LaneDim>) -> (r: (Px, Px))
    requires
        basis_fits(p@),
        dims_fit(dim_views(inner@), inner@.len()),
    ensures
        (r.0 as int, r.1 as int) == lane_extent(p@, lane@, dim_views(inner@)),
        bounded(r.0 as int),
        bounded(r.1 as int),
{
    let (nw, nh) = measure_nodes(p, lane);
    let pad_x: Px = p.sp.lane_pad_x;
    let pad_y: Px = p.sp.lane_pad_y;
    let title: Px = p.sp.lane_title_h;
    let both_x: Px = sum(pad_x, pad_x);
    let both_y: Px = sum(pad_y, pad_y);
    let n: usize = inner.len();
    let (wide, high, across, down) = gather(inner);
    match p.d.direction {
        AdvanceDirection::Vertical => {
            let top: Px = sum(title, pad_y);
            if n == 0 {
                (
                    greater(sum(nw, both_x), MIN_LANE),
                    greater(sum(sum(top, nh), pad_y), MIN_LANE),
                )
            } else {
                let across: Px = sum(across, multiple(n - 1, p.sp.lane_gap));
                (
                    greater(greater(sum(across, both_x), sum(nw, both_x)), MIN_LANE),
                    greater(sum(sum(sum(top, high), pad_y), nh), MIN_LANE),
                )
            }
        },
        AdvanceDirection::Horizontal => {
            let left: Px = sum(title, pad_x);
            if n == 0 {
                (
                    greater(sum(sum(left, nw), pad_x), MIN_ROW_W),
                    greater(greater(sum(nh, both_y), sum(title, both_y)), MIN_ROW_H),
                )
            } else {
                let down: Px = sum(down, multiple(n - 1, p.sp.lane_gap));
                (
                    greater(sum(sum(sum(left, wide), pad_x), nw), MIN_ROW_W),
                    greater(greater(sum(down, both_y), sum(nh, both_y)), MIN_ROW_H),
                )
            }
        },
    }
}

pub fn compute_lane_dim(p: &Placement, lane: &AdvanceLane) -> (r: LaneDim)
    requires
        basis_fits(p@),
    ensures
        r@ == lane_dim(p@, lane@),
        dim_fits(r@),
    decreases lane,
{
    let children = compute_lane_dims(p, &lane.children);
    let (w, h) = measure_lane(p, lane.id.as_str(), &children);
    assert(dim_views(children@).len() == children@.len());
    LaneDim { w, h, children }
}

pub fn compute_lane_dims(p: &Placement, lanes: &Vec<AdvanceLane>) -> (r: Vec<LaneDim>)
    requires
        basis_fits(p@),
    ensures
        dim_views(r@) == lane_dims(p@, lane_views(lanes@)),
        r@.len() == lanes@.len(),
        dims_fit(dim_views(r@), r@.len()),
    decreases lanes,
{
    let ghost lv = lane_views(lanes@);
    let mut r: Vec<LaneDim> = Vec::new();
    let mut i: usize = 0;
    while i < lanes.len()
        invariant
            i <= lanes@.len(),
            basis_fits(p@),
            lv == lane_views(lanes@),
            r@.len() == i,
            forall|k: int| 0 <= k < i ==> (#[trigger] r@[k])@ == lane_dim(p@, lv[k]),
            forall|k: int| 0 <= k < i ==> dim_fits((#[trigger] r@[k])@),
        decreases lanes@.len() - i,
    {
        assert(lv[i as int] == lanes@[i as int]@);
        r.push(compute_lane_dim(p, &lanes[i]));
        i += 1;
    }
    assert(dim_views(r@) =~= lane_dims(p@, lv));
    proof {
        let v = dim_views(r@);
        assert forall|k: int| 0 <= k < v.len() implies dim_fits(#[trigger] v[k]) by {
            assert(v[k] == r@[k]@);
        }
        lemma_all_dims_fit(v, r@.len());
    }
    r
}

/// A lane with sub-lanes that are all as high as the highest, at each level.
pub open spec fn even_heights(m: Dim) -> Dim
    decreases m,
{
    Dim { w: m.w, h: m.h, children: all_as_high(m.children, max_h(m.children, m.children.len() as int)) }
}

pub open spec fn all_as_high(ms: Seq<Dim>, h: int) -> Seq<Dim>
    decreases ms,
{
    Seq::new(
        ms.len(),
        |i: int|
            if 0 <= i < ms.len() {
                let e = even_heights(ms[i]);
                Dim { w: e.w, h, children: e.children }
            } else {
                arbitrary()
            },
    )
}

/// A lane with sub-lanes that are all as wide as the widest, at each level.
pub open spec fn even_widths(m: Dim) -> Dim
    decreases m,
{
    Dim { w: m.w, h: m.h, children: all_as_wide(m.children, max_w(m.children, m.children.len() as int)) }
}

pub open spec fn all_as_wide(ms: Seq<Dim>, w: int) -> Seq<Dim>
    decreases ms,
{
    Seq::new(
        ms.len(),
        |i: int|
            if 0 <= i < ms.len() {
                let e = even_widths(ms[i]);
                Dim { w, h: e.h, children: e.children }
            } else {
                arbitrary()
            },
    )
}

/// The lane with its sub-lanes as high as the highest, at each level.
pub fn equalize_sibling_heights(m: &LaneDim) -> (r: LaneDim)
    requires
        dim_fits(m@),
    ensures
        r@ == even_heights(m@),
        dim_fits(r@),
    decreases m,
{
    assert(dim_views(m.children@).len() == m.children@.len());
    let (_, high, _, _) = gather(&m.children);
    let children = make_as_high(&m.children, high);
    assert(dim_views(children@).len() == children@.len());
    LaneDim { w: m.w, h: m.h, children }
}

/// The lanes, each as high as `h`, and even inside.
pub fn make_as_high(ms: &Vec<LaneDim>, h: Px) -> (r: Vec<LaneDim>)
    requires
        dims_fit(dim_views(ms@), ms@.len()),
        bounded(h as int),
    ensures
        dim_views(r@) == all_as_high(dim_views(ms@), h as int),
        r@.len() == ms@.len(),
        dims_fit(dim_views(r@), r@.len()),
    decreases ms,
{
    let ghost v = dim_views(ms@);
    let mut r: Vec<LaneDim> = Vec::new();
    let mut i: usize = 0;
    while i < ms.len()
        invariant
            i <= ms@.len(),
            v == dim_views(ms@),
            dims_fit(v, ms@.len()),
            bounded(h as int),
            r@.len() == i,
            forall|k: int|
                0 <= k < i ==> (#[trigger] r@[k])@ == (Dim {
                    w: even_heights(v[k]).w,
                    h: h as int,
                    children: even_heights(v[k]).children,
                }),
            forall|k: int| 0 <= k < i ==> dim_fits((#[trigger] r@[k])@),
        decreases ms@.len() - i,
    {
        proof {
            lemma_dims_fit(v, ms@.len(), i as int);
            assert(v[i as int] == ms@[i as int]@);
        }
        let e = equalize_sibling_heights(&ms[i]);
        r.push(LaneDim { w: e.w, h, children: e.children });
        i += 1;
    }
    assert(dim_views(r@) =~= all_as_high(v, h as int));
    proof {
        let w = dim_views(r@);
        assert forall|k: int| 0 <= k < w.len() implies dim_fits(#[trigger] w[k]) by {
            assert(w[k] == r@[k]@);
        }
        lemma_all_dims_fit(w, r@.len());
    }
    r
}

/// The lane with its sub-lanes as wide as the widest, at each level.
pub fn equalize_sibling_widths(m: &LaneDim) -> (r: LaneDim)
    requires
        dim_fits(m@),
    ensures
        r@ == even_widths(m@),
        dim_fits(r@),
    decreases m,
{
    assert(dim_views(m.children@).len() == m.children@.len());
    let (wide, _, _, _) = gather(&m.children);
    let children = make_as_wide(&m.children, wide);
    assert(dim_views(children@).len() == children@.len());
    LaneDim { w: m.w, h: m.h, children }
}

/// The lanes, each as wide as `w`, and even inside.
pub fn make_as_wide(ms: &Vec<LaneDim>, w: Px) -> (r: Vec<LaneDim>)
    requires
        dims_fit(dim_views(ms@), ms@.len()),
        bounded(w as int),
    ensures
        dim_views(r@) == all_as_wide(dim_views(ms@), w as int),
        r@.len() == ms@.len(),
        dims_fit(dim_views(r@), r@.len()),
    decreases ms,
{
    let ghost v = dim_views(ms@);
    let mut r: Vec<LaneDim> = Vec::new();
    let mut i: usize = 0;
    while i < ms.len()
        invariant
            i <= ms@.len(),
            v == dim_views(ms@),
            dims_fit(v, ms@.len()),
            bounded(w as int),
            r@.len() == i,
            forall|k: int|
                0 <= k < i ==> (#[trigger] r@[k])@ == (Dim {
                    w: w as int,
                    h: even_widths(v[k]).h,
                    children: even_widths(v[k]).children,
                }),
            forall|k: int| 0 <= k < i ==> dim_fits((#[trigger] r@[k])@),
        decreases ms@.len() - i,
    {
        proof {
            lemma_dims_fit(v, ms@.len(), i as int);
            assert(v[i as int] == ms@[i as int]@);
        }
        let e = equalize_sibling_widths(&ms[i]);
        r.push(LaneDim { w, h: e.h, children: e.children });
        i += 1;
    }
    assert(dim_views(r@) =~= all_as_wide(v, w as int));
    proof {
        let q = dim_views(r@);
        assert forall|k: int| 0 <= k < q.len() implies dim_fits(#[trigger] q[k]) by {
            assert(q[k] == r@[k]@);
        }
        lemma_all_dims_fit(q, r@.len());
    }
    r
}

} // verus!
