//! Lanes around nodes that have their places, and the canvas around both.

use vstd::prelude::*;

use crate::advance::lane_tree::{collect_all_lanes, preorder, ref_views};
use crate::advance::place::lanes::{spacing_fits, Spacing, MIN_LANE};
use crate::advance::place::lengths::{bounded, diff, minus, plus, sum};
use crate::advance::route::edges::{node_near, nodes_near, spot};
use crate::advance::route::geometry::{greater, half, least, lesser, most};
use crate::advance::scene::{
    scene_lanes, scene_nodes, AdvanceSceneLane, AdvanceSceneNode, Px, SceneLaneView, SceneNodeView,
};
use crate::advance::{lane_views, AdvanceDiagram, AdvanceLane, LaneView};
use crate::text::str_eq;

verus! {

/// The edges of a box.
#[verifier::ext_equal]
pub struct Bounds {
    pub l: int,
    pub t: int,
    pub r: int,
    pub b: int,
}

/// The edges of a node, in range.
pub open spec fn node_bounds(n: SceneNodeView) -> Bounds {
    Bounds {
        l: minus(n.x as int, n.w as int / 2),
        t: minus(n.y as int, n.h as int / 2),
        r: plus(n.x as int, n.w as int / 2),
        b: plus(n.y as int, n.h as int / 2),
    }
}

/// The box around two boxes.
pub open spec fn around(a: Bounds, b: Bounds) -> Bounds {
    Bounds { l: least(b.l, a.l), t: least(b.t, a.t), r: most(b.r, a.r), b: most(b.b, a.b) }
}

/// The box around those of the first `k` nodes that are in a lane.
pub open spec fn lane_bounds(nodes: Seq<SceneNodeView>, lane: Seq<char>, k: int) -> Option<Bounds>
    decreases k,
{
    if k <= 0 {
        None
    } else {
        let before = lane_bounds(nodes, lane, k - 1);
        let n = nodes[k - 1];
        if n.lane == lane {
            Some(
                match before {
                    Some(b) => around(b, node_bounds(n)),
                    None => node_bounds(n),
                },
            )
        } else {
            before
        }
    }
}

/// A lane around its nodes, with room for its title; a lane without nodes
/// has a box of its own.
pub open spec fn lane_around(lane: LaneView, nodes: Seq<SceneNodeView>, sp: Spacing) -> SceneLaneView {
    let margin = sp.margin as int;
    let b = match lane_bounds(nodes, lane.id, nodes.len() as int) {
        Some(b) => b,
        None => Bounds {
            l: margin,
            t: margin,
            r: plus(margin, MIN_LANE as int),
            b: plus(margin, MIN_LANE as int),
        },
    };
    let pad_x = sp.lane_pad_x as int;
    let pad_y = sp.lane_pad_y as int;
    let title = sp.lane_title_h as int;
    let x = minus(b.l, pad_x);
    let y = least(minus(minus(b.t, title), pad_y), margin);
    SceneLaneView {
        id: lane.id,
        title: lane.title,
        x: x as Px,
        y: y as Px,
        w: most(plus(minus(b.r, x), pad_x), MIN_LANE as int) as Px,
        h: most(plus(minus(b.b, y), pad_y), plus(title, plus(pad_y, pad_y))) as Px,
    }
}

/// The first `k` lanes around their nodes.
pub open spec fn lanes_around(
    lanes: Seq<LaneView>,
    k: int,
    nodes: Seq<SceneNodeView>,
    sp: Spacing,
) -> Seq<SceneLaneView>
    decreases k,
{
    if k <= 0 {
        Seq::empty()
    } else {
        lanes_around(lanes, k - 1, nodes, sp).push(lane_around(lanes[k - 1], nodes, sp))
    }
}

/// How far the first `k` lanes reach to the right.
pub open spec fn reach_right(lanes: Seq<SceneLaneView>, k: int) -> int
    decreases k,
{
    if k <= 0 {
        0
    } else {
        most(
            reach_right(lanes, k - 1),
            plus(lanes[k - 1].x as int, lanes[k - 1].w as int),
        )
    }
}

/// How far the first `k` lanes reach down.
pub open spec fn reach_down(lanes: Seq<SceneLaneView>, k: int) -> int
    decreases k,
{
    if k <= 0 {
        0
    } else {
        most(
            reach_down(lanes, k - 1),
            plus(lanes[k - 1].y as int, lanes[k - 1].h as int),
        )
    }
}

/// Whether the corner and the size of a lane are in range.
pub open spec fn lane_fits(l: SceneLaneView) -> bool {
    bounded(l.x as int) && bounded(l.y as int) && bounded(l.w as int) && bounded(l.h as int)
}

pub open spec fn lanes_fit(s: Seq<SceneLaneView>) -> bool {
    forall|i: int| 0 <= i < s.len() ==> lane_fits(#[trigger] s[i])
}

#[derive(Clone, Copy)]
struct Sides {
    l: Px,
    t: Px,
    r: Px,
    b: Px,
}

impl Sides {
    spec fn shows(self, b: Bounds) -> bool {
        &&& self.l == b.l && self.t == b.t && self.r == b.r && self.b == b.b
        &&& bounded(b.l) && bounded(b.t) && bounded(b.r) && bounded(b.b)
    }
}

fn sides_of(n: &AdvanceSceneNode) -> (r: Sides)
    requires
        node_near(n@),
    ensures
        r.shows(node_bounds(n@)),
{
    assert(spot(n@).x == n.x);
    Sides {
        l: diff(n.x, half(n.w)),
        t: diff(n.y, half(n.h)),
        r: sum(n.x, half(n.w)),
        b: sum(n.y, half(n.h)),
    }
}

fn find_bounds(nodes: &Vec<AdvanceSceneNode>, lane: &str) -> (r: Option<Sides>)
    requires
        nodes_near(scene_nodes(nodes@)),
    ensures
        match lane_bounds(scene_nodes(nodes@), lane@, nodes@.len() as int) {
            Some(b) => r matches Some(s) && s.shows(b),
            None => r is None,
        },
{
    let ghost all = scene_nodes(nodes@);
    let mut best: Option<Sides> = None;
    let mut i: usize = 0;
    while i < nodes.len()
        invariant
            i <= nodes@.len(),
            all == scene_nodes(nodes@),
            nodes_near(all),
            match lane_bounds(all, lane@, i as int) {
                Some(b) => best matches Some(s) && s.shows(b),
                None => best is None,
            },
        decreases nodes@.len() - i,
    {
        let n = &nodes[i];
        assert(all[i as int] == n@);
        assert(node_near(all[i as int]));
        if str_eq(n.lane.as_str(), lane) {
            let s = sides_of(n);
            best = match best {
                Some(b) => Some(
                    Sides {
                        l: lesser(s.l, b.l),
                        t: lesser(s.t, b.t),
                        r: greater(s.r, b.r),
                        b: greater(s.b, b.b),
                    },
                ),
                None => Some(s),
            };
        }
        i += 1;
    }
    best
}

fn wrap_lane(lane: &AdvanceLane, nodes: &Vec<AdvanceSceneNode>, sp: Spacing) -> (r: AdvanceSceneLane)
    requires
        nodes_near(scene_nodes(nodes@)),
        spacing_fits(sp),
    ensures
        r@ == lane_around(lane@, scene_nodes(nodes@), sp),
        lane_fits(r@),
{
    let b = match find_bounds(nodes, lane.id.as_str()) {
        Some(b) => b,
        None => Sides {
            l: sp.margin,
            t: sp.margin,
            r: sum(sp.margin, MIN_LANE),
            b: sum(sp.margin, MIN_LANE),
        },
    };
    let x: Px = diff(b.l, sp.lane_pad_x);
    let y: Px = lesser(diff(diff(b.t, sp.lane_title_h), sp.lane_pad_y), sp.margin);
    AdvanceSceneLane {
        id: lane.id.clone(),
        title: lane.title.clone(),
        x,
        y,
        w: greater(sum(diff(b.r, x), sp.lane_pad_x), MIN_LANE),
        h: greater(
            sum(diff(b.b, y), sp.lane_pad_y),
            sum(sp.lane_title_h, sum(sp.lane_pad_y, sp.lane_pad_y)),
        ),
    }
}

/// All lanes around nodes that have their places, with the size of the
/// canvas.
pub fn build_lanes_around_nodes(d: &AdvanceDiagram, nodes: &Vec<AdvanceSceneNode>, sp: Spacing) -> (r:
    (Vec<AdvanceSceneLane>, Px, Px))
    requires
        nodes_near(scene_nodes(nodes@)),
        spacing_fits(sp),
    ensures
        ({
            let flat = preorder(d@.lanes);
            let lanes = lanes_around(flat, flat.len() as int, scene_nodes(nodes@), sp);
            &&& scene_lanes(r.0@) == lanes
            &&& r.1 == plus(reach_right(lanes, lanes.len() as int), sp.margin as int)
            &&& r.2 == plus(reach_down(lanes, lanes.len() as int), sp.margin as int)
        }),
        lanes_fit(scene_lanes(r.0@)),
        bounded(r.1 as int),
        bounded(r.2 as int),
{
    let mut flat: Vec<&AdvanceLane> = Vec::new();
    assert(ref_views(flat@) =~= Seq::empty());
    collect_all_lanes(&d.lanes, &mut flat);
    let ghost all = preorder(d@.lanes);
    assert(ref_views(flat@) =~= all);
    let ghost placed = scene_nodes(nodes@);
    let mut lanes: Vec<AdvanceSceneLane> = Vec::new();
    let mut right: Px = 0;
    let mut down: Px = 0;
    let mut i: usize = 0;
    assert(scene_lanes(lanes@) =~= lanes_around(all, 0, placed, sp));
    while i < flat.len()
        invariant
            i <= flat@.len(),
            all == ref_views(flat@),
            placed == scene_nodes(nodes@),
            nodes_near(placed),
            spacing_fits(sp),
            lanes@.len() == i,
            scene_lanes(lanes@) == lanes_around(all, i as int, placed, sp),
            lanes_fit(scene_lanes(lanes@)),
            bounded(right as int),
            bounded(down as int),
            right == reach_right(scene_lanes(lanes@), i as int),
            down == reach_down(scene_lanes(lanes@), i as int),
        decreases flat@.len() - i,
    {
        assert(all[i as int] == flat@[i as int]@);
        let l = wrap_lane(flat[i], nodes, sp);
        let ghost before = scene_lanes(lanes@);
        right = greater(right, sum(l.x, l.w));
        down = greater(down, sum(l.y, l.h));
        lanes.push(l);
        let ghost after = scene_lanes(lanes@);
        assert(after =~= before.push(l@));
        proof {
            lemma_reach(before, after, i as int);
        }
        i += 1;
    }
    (lanes, sum(right, sp.margin), sum(down, sp.margin))
}

proof fn lemma_reach(a: Seq<SceneLaneView>, b: Seq<SceneLaneView>, k: int)
    requires
        k <= a.len() <= b.len(),
        forall|i: int| 0 <= i < a.len() ==> a[i] == #[trigger] b[i],
    ensures
        reach_right(a, k) == reach_right(b, k),
        reach_down(a, k) == reach_down(b, k),
    decreases k,
{
    if k > 0 {
        lemma_reach(a, b, k - 1);
        assert(a[k - 1] == b[k - 1]);
    }
}

/// The lowest bottom of those of the first `k` nodes that are in a lane.
pub open spec fn lane_bottom(nodes: Seq<SceneNodeView>, lane: Seq<char>, k: int) -> Option<int> {
    match lane_bounds(nodes, lane, k) {
        Some(b) => Some(b.b),
        None => None,
    }
}

/// How high a lane has to be for its nodes.
pub open spec fn lane_height(nodes: Seq<SceneNodeView>, lane: Seq<char>, margin: int, sp: Spacing) -> int {
    let pad_y = sp.lane_pad_y as int;
    let least_h = plus(sp.lane_title_h as int, plus(pad_y, pad_y));
    match lane_bottom(nodes, lane, nodes.len() as int) {
        Some(b) => most(plus(minus(b, margin), pad_y), least_h),
        None => least_h,
    }
}

/// The height of the highest of the first `k` lanes.
pub open spec fn highest_lane(
    lanes: Seq<LaneView>,
    k: int,
    nodes: Seq<SceneNodeView>,
    margin: int,
    sp: Spacing,
) -> int
    decreases k,
{
    if k <= 0 {
        0
    } else {
        most(
            highest_lane(lanes, k - 1, nodes, margin, sp),
            lane_height(nodes, lanes[k - 1].id, margin, sp),
        )
    }
}

/// Where the `k`-th of lanes with given widths starts.
pub open spec fn given_start(widths: Seq<Px>, k: int, margin: int, gap: int) -> int
    decreases k,
{
    if k <= 0 {
        margin
    } else {
        plus(given_start(widths, k - 1, margin, gap), plus(widths[k - 1] as int, gap))
    }
}

/// The first `k` lanes with given widths, side by side, all of one height.
pub open spec fn given_lanes(
    lanes: Seq<LaneView>,
    widths: Seq<Px>,
    k: int,
    margin: int,
    gap: int,
    h: int,
) -> Seq<SceneLaneView>
    decreases k,
{
    if k <= 0 {
        Seq::empty()
    } else {
        given_lanes(lanes, widths, k - 1, margin, gap, h).push(
            SceneLaneView {
                id: lanes[k - 1].id,
                title: lanes[k - 1].title,
                x: given_start(widths, k - 1, margin, gap) as Px,
                y: margin as Px,
                w: widths[k - 1],
                h: h as Px,
            },
        )
    }
}

proof fn lemma_preorder_len(lanes: Seq<LaneView>)
    ensures
        preorder(lanes).len() >= lanes.len(),
    decreases lanes.len(),
{
    if lanes.len() > 0 {
        lemma_preorder_len(lanes.skip(1));
    }
}

pub open spec fn widths_fit(w: Seq<Px>) -> bool {
    forall|i: int| 0 <= i < w.len() ==> bounded((#[trigger] w[i]) as int)
}

/// The top lanes with given widths, with the size of the canvas.
pub fn build_lanes_with_widths(
    d: &AdvanceDiagram,
    nodes: &Vec<AdvanceSceneNode>,
    widths: &Vec<Px>,
    margin: Px,
    gap: Px,
    sp: Spacing,
) -> (r: (Vec<AdvanceSceneLane>, Px, Px))
    requires
        nodes_near(scene_nodes(nodes@)),
        spacing_fits(sp),
        widths@.len() == d.lanes@.len(),
        widths_fit(widths@),
        bounded(margin as int),
        bounded(gap as int),
    ensures
        ({
            let n = d@.lanes.len() as int;
            let h = highest_lane(
                preorder(d@.lanes),
                n,
                scene_nodes(nodes@),
                margin as int,
                sp,
            );
            &&& scene_lanes(r.0@) == given_lanes(
                d@.lanes,
                widths@,
                n,
                margin as int,
                gap as int,
                h,
            )
            &&& r.1 == (if n == 0 {
                plus(margin as int, margin as int)
            } else {
                plus(
                    minus(given_start(widths@, n, margin as int, gap as int), gap as int),
                    margin as int,
                )
            })
            &&& r.2 == plus(h, plus(margin as int, margin as int))
        }),
        lanes_fit(scene_lanes(r.0@)),
        bounded(r.1 as int),
        bounded(r.2 as int),
{
    let ghost lv = d@.lanes;
    let ghost placed = scene_nodes(nodes@);
    let n: usize = d.lanes.len();
    let mut flat: Vec<&AdvanceLane> = Vec::new();
    assert(ref_views(flat@) =~= Seq::empty());
    collect_all_lanes(&d.lanes, &mut flat);
    let ghost all = preorder(lv);
    assert(ref_views(flat@) =~= all);
    proof {
        lemma_preorder_len(lv);
    }
    let mut high: Px = 0;
    let mut i: usize = 0;
    while i < n
        invariant
            i <= n,
            n <= flat@.len(),
            all == ref_views(flat@),
            placed == scene_nodes(nodes@),
            nodes_near(placed),
            spacing_fits(sp),
            bounded(margin as int),
            bounded(high as int),
            high == highest_lane(all, i as int, placed, margin as int, sp),
        decreases n - i,
    {
        assert(all[i as int] == flat@[i as int]@);
        let least_h: Px = sum(sp.lane_title_h, sum(sp.lane_pad_y, sp.lane_pad_y));
        let h: Px = match find_bounds(nodes, flat[i].id.as_str()) {
            Some(b) => greater(sum(diff(b.b, margin), sp.lane_pad_y), least_h),
            None => least_h,
        };
        high = greater(high, h);
        i += 1;
    }
    let mut lanes: Vec<AdvanceSceneLane> = Vec::new();
    let mut x: Px = margin;
    let mut i: usize = 0;
    assert(scene_lanes(lanes@) =~= given_lanes(
        lv,
        widths@,
        0,
        margin as int,
        gap as int,
        high as int,
    ));
    while i < n
        invariant
            i <= n,
            n == d.lanes@.len(),
            n == widths@.len(),
            widths_fit(widths@),
            lv == d@.lanes,
            lv == lane_views(d.lanes@),
            bounded(margin as int),
            bounded(gap as int),
            bounded(high as int),
            bounded(x as int),
            x == given_start(widths@, i as int, margin as int, gap as int),
            scene_lanes(lanes@) == given_lanes(
                lv,
                widths@,
                i as int,
                margin as int,
                gap as int,
                high as int,
            ),
            lanes_fit(scene_lanes(lanes@)),
        decreases n - i,
    {
        assert(lv[i as int] == d.lanes@[i as int]@);
        assert(bounded(widths@[i as int] as int));
        let l = AdvanceSceneLane {
            id: d.lanes[i].id.clone(),
            title: d.lanes[i].title.clone(),
            x,
            y: margin,
            w: widths[i],
            h: high,
        };
        let ghost before = scene_lanes(lanes@);
        lanes.push(l);
        assert(scene_lanes(lanes@) =~= before.push(l@));
        x = sum(x, sum(widths[i], gap));
        i += 1;
    }
    let width: Px = if n == 0 {
        sum(margin, margin)
    } else {
        sum(diff(x, gap), margin)
    };
    (lanes, width, sum(high, sum(margin, margin)))
}

} // verus!
