//! Which commits are joined, and by what curves.

use vstd::prelude::*;

use crate::advance::place::lengths::{
    bounded, diff, minus, multiple, plus, sum, times,
};
use crate::advance::route::geometry::half;
use crate::advance::scene::{Point, Px};
use crate::gitgraph::{
    parents_exist, GitBranch, GitCommit, GitGraph, GitOrientation, BRANCH_DY, BRANCH_LABEL_W,
    COMMIT_DX, PAD, R,
};
use crate::model::EdgeKind;

verus! {

/// The greatest position along the flow among the first `k` commits.
pub open spec fn last_seq(commits: Seq<GitCommit>, k: int) -> int
    decreases k,
{
    if k <= 0 {
        0
    } else {
        let before = last_seq(commits, k - 1);
        if commits[k - 1].seq > before {
            commits[k - 1].seq as int
        } else {
            before
        }
    }
}

/// The greatest lane among the first `k` branches.
pub open spec fn last_lane(branches: Seq<GitBranch>, k: int) -> int
    decreases k,
{
    if k <= 0 {
        0
    } else {
        let before = last_lane(branches, k - 1);
        if branches[k - 1].order > before {
            branches[k - 1].order as int
        } else {
            before
        }
    }
}

pub open spec fn branch_pos(order: int) -> int {
    plus(PAD as int, times(order, BRANCH_DY as int))
}

pub open spec fn commit_pos(seq: int) -> int {
    plus(PAD + BRANCH_LABEL_W, times(seq, COMMIT_DX as int))
}

pub fn lane_at(order: usize) -> (r: Px)
    ensures
        r == branch_pos(order as int),
        bounded(r as int),
{
    sum(PAD, multiple(order, BRANCH_DY))
}

pub fn flow_at(seq: usize) -> (r: Px)
    ensures
        r == commit_pos(seq as int),
        bounded(r as int),
{
    sum(PAD + BRANCH_LABEL_W, multiple(seq, COMMIT_DX))
}

/// The greater of two lengths.
pub open spec fn at_least(v: int, low: int) -> int {
    if v < low {
        low
    } else {
        v
    }
}

/// The size of the canvas.
pub open spec fn canvas(d: GitGraph) -> (int, int) {
    let flow = plus(commit_pos(last_seq(d.commits@, d.commits@.len() as int)), R + PAD);
    let across = plus(branch_pos(last_lane(d.branches@, d.branches@.len() as int)), R + PAD);
    let (w, h) = match d.orientation {
        GitOrientation::LR => (flow, across),
        GitOrientation::TB | GitOrientation::BT => (across, flow),
    };
    (at_least(w, PAD + BRANCH_LABEL_W + PAD), at_least(h, PAD + PAD))
}

pub fn canvas_of(d: &GitGraph) -> (r: (Px, Px))
    ensures
        (r.0 as int, r.1 as int) == canvas(*d),
        bounded(r.0 as int),
        bounded(r.1 as int),
{
    let mut seq: usize = 0;
    let mut i: usize = 0;
    while i < d.commits.len()
        invariant
            i <= d.commits@.len(),
            seq == last_seq(d.commits@, i as int),
        decreases d.commits@.len() - i,
    {
        if d.commits[i].seq > seq {
            seq = d.commits[i].seq;
        }
        i += 1;
    }
    let mut order: usize = 0;
    let mut j: usize = 0;
    while j < d.branches.len()
        invariant
            j <= d.branches@.len(),
            order == last_lane(d.branches@, j as int),
        decreases d.branches@.len() - j,
    {
        if d.branches[j].order > order {
            order = d.branches[j].order;
        }
        j += 1;
    }
    let flow: Px = sum(flow_at(seq), R + PAD);
    let across: Px = sum(lane_at(order), R + PAD);
    let (w, h): (Px, Px) = match d.orientation {
        GitOrientation::LR => (flow, across),
        GitOrientation::TB | GitOrientation::BT => (across, flow),
    };
    let w: Px = if w < PAD + BRANCH_LABEL_W + PAD {
        PAD + BRANCH_LABEL_W + PAD
    } else {
        w
    };
    let h: Px = if h < PAD + PAD {
        PAD + PAD
    } else {
        h
    };
    (w, h)
}

/// Where a commit is drawn.
pub open spec fn position(d: GitGraph, c: GitCommit) -> (int, int) {
    match d.orientation {
        GitOrientation::LR => (commit_pos(c.seq as int), branch_pos(c.branch as int)),
        GitOrientation::TB => (branch_pos(c.branch as int), commit_pos(c.seq as int)),
        GitOrientation::BT => (
            branch_pos(c.branch as int),
            minus(canvas(d).1, commit_pos(c.seq as int)),
        ),
    }
}

/// A point in mathematical terms.
pub open spec fn spot(p: Point) -> (int, int) {
    (p.x as int, p.y as int)
}

pub fn place_commit(d: &GitGraph, height: Px, c: &GitCommit) -> (r: Point)
    requires
        height == canvas(*d).1,
        bounded(height as int),
    ensures
        spot(r) == position(*d, *c),
        bounded(r.x as int),
        bounded(r.y as int),
{
    match d.orientation {
        GitOrientation::LR => Point { x: flow_at(c.seq), y: lane_at(c.branch) },
        GitOrientation::TB => Point { x: lane_at(c.branch), y: flow_at(c.seq) },
        GitOrientation::BT => Point { x: lane_at(c.branch), y: diff(height, flow_at(c.seq)) },
    }
}

/// An edge between two commits, by their numbers, with the four points of
/// its curve.
#[derive(Debug, Clone, Copy, PartialEq, Eq, Structural)]
pub struct GitEdge {
    pub from: usize,
    pub to: usize,
    pub start: Point,
    pub bend_from: Point,
    pub bend_to: Point,
    pub end: Point,
    pub kind: EdgeKind,
}

/// The curve between two places: straight in one lane, else along the lane
/// of the first half of the way.
pub open spec fn curve(p: (int, int), q: (int, int), o: GitOrientation) -> ((int, int), (int, int)) {
    match o {
        GitOrientation::LR => if p.1 == q.1 {
            (p, q)
        } else {
            let bend = ((p.0 + q.0) / 2, p.1);
            (bend, bend)
        },
        GitOrientation::TB | GitOrientation::BT => if p.0 == q.0 {
            (p, q)
        } else {
            let bend = (p.0, (p.1 + q.1) / 2);
            (bend, bend)
        },
    }
}

/// Whether `e` joins commit `i` to commit `j`.
pub open spec fn joins(d: GitGraph, e: GitEdge, i: int, j: int, kind: EdgeKind) -> bool {
    let p = position(d, d.commits@[i]);
    let q = position(d, d.commits@[j]);
    &&& e.from == i && e.to == j && e.kind == kind
    &&& spot(e.start) == p && spot(e.end) == q
    &&& (spot(e.bend_from), spot(e.bend_to)) == curve(p, q, d.orientation)
}

fn join(d: &GitGraph, height: Px, i: usize, j: usize, kind: EdgeKind) -> (r: GitEdge)
    requires
        i < d.commits@.len(),
        j < d.commits@.len(),
        height == canvas(*d).1,
        bounded(height as int),
    ensures
        joins(*d, r, i as int, j as int, kind),
{
    let p = place_commit(d, height, &d.commits[i]);
    let q = place_commit(d, height, &d.commits[j]);
    let (a, b) = match d.orientation {
        GitOrientation::LR => if p.y == q.y {
            (p, q)
        } else {
            let m = Point { x: half(p.x + q.x), y: p.y };
            (m, m)
        },
        GitOrientation::TB | GitOrientation::BT => if p.x == q.x {
            (p, q)
        } else {
            let m = Point { x: p.x, y: half(p.y + q.y) };
            (m, m)
        },
    };
    GitEdge { from: i, to: j, start: p, bend_from: a, bend_to: b, end: q, kind }
}

/// How far forward `v` goes in a list that is sorted by position: behind
/// the last commit that is not after it.
pub open spec fn slot(commits: Seq<GitCommit>, list: Seq<int>, v: int, i: int) -> int
    decreases i,
{
    if i <= 0 || commits[list[i - 1]].seq <= commits[v].seq {
        i
    } else {
        slot(commits, list, v, i - 1)
    }
}

/// The commits of a lane among the first `k`, sorted by their positions;
/// those in one position stay in order.
pub open spec fn lane_commits(commits: Seq<GitCommit>, lane: int, k: int) -> Seq<int>
    decreases k,
{
    if k <= 0 {
        Seq::empty()
    } else {
        let before = lane_commits(commits, lane, k - 1);
        if commits[k - 1].branch == lane {
            before.insert(slot(commits, before, k - 1, before.len() as int), k - 1)
        } else {
            before
        }
    }
}

/// Whether a list holds commits, sorted by their positions.
pub open spec fn in_sequence(commits: Seq<GitCommit>, list: Seq<int>) -> bool {
    &&& forall|i: int| 0 <= i < list.len() ==> 0 <= #[trigger] list[i] < commits.len()
    &&& forall|i: int, j: int|
        0 <= i < j < list.len() ==> commits[#[trigger] list[i]].seq <= commits[#[trigger] list[j]].seq
}

proof fn lemma_slot(commits: Seq<GitCommit>, list: Seq<int>, v: int, i: int)
    requires
        0 <= i <= list.len(),
        in_sequence(commits, list),
    ensures
        0 <= slot(commits, list, v, i) <= i,
        forall|j: int|
            0 <= j < slot(commits, list, v, i) ==> commits[#[trigger] list[j]].seq
                <= commits[v].seq,
        forall|j: int|
            slot(commits, list, v, i) <= j < i ==> commits[#[trigger] list[j]].seq
                > commits[v].seq,
    decreases i,
{
    if i > 0 && commits[list[i - 1]].seq > commits[v].seq {
        lemma_slot(commits, list, v, i - 1);
    }
}

/// The commits of a lane are drawn in the order of their positions.
pub proof fn law_lane_is_in_sequence(commits: Seq<GitCommit>, lane: int, k: int)
    requires
        k <= commits.len(),
    ensures
        in_sequence(commits, lane_commits(commits, lane, k)),
    decreases k,
{
    if k > 0 {
        law_lane_is_in_sequence(commits, lane, k - 1);
        let before = lane_commits(commits, lane, k - 1);
        if commits[k - 1].branch == lane {
            lemma_slot(commits, before, k - 1, before.len() as int);
            let at = slot(commits, before, k - 1, before.len() as int);
            let after = before.insert(at, k - 1);
            assert forall|i: int| 0 <= i < after.len() implies 0 <= #[trigger] after[i]
                < commits.len() by {
                if i < at {
                    assert(after[i] == before[i]);
                } else if i > at {
                    assert(after[i] == before[i - 1]);
                }
            }
            assert forall|i: int, j: int| 0 <= i < j < after.len() implies commits[#[trigger] after[i]].seq
                <= commits[#[trigger] after[j]].seq by {
                let a = if i < at {
                    before[i]
                } else if i > at {
                    before[i - 1]
                } else {
                    k - 1
                };
                let b = if j < at {
                    before[j]
                } else if j > at {
                    before[j - 1]
                } else {
                    k - 1
                };
                assert(after[i] == a && after[j] == b);
            }
        }
    }
}

pub open spec fn ints(v: Seq<usize>) -> Seq<int> {
    v.map_values(|x: usize| x as int)
}

fn list_lane(commits: &Vec<GitCommit>, lane: usize) -> (r: Vec<usize>)
    ensures
        ints(r@) == lane_commits(commits@, lane as int, commits@.len() as int),
        forall|i: int| 0 <= i < r@.len() ==> #[trigger] r@[i] < commits@.len(),
{
    let mut r: Vec<usize> = Vec::new();
    let mut k: usize = 0;
    assert(ints(r@) =~= Seq::empty());
    while k < commits.len()
        invariant
            k <= commits@.len(),
            ints(r@) == lane_commits(commits@, lane as int, k as int),
            forall|i: int| 0 <= i < r@.len() ==> #[trigger] r@[i] < k,
        decreases commits@.len() - k,
    {
        if commits[k].branch == lane {
            let ghost before = ints(r@);
            let mut at: usize = r.len();
            while at > 0 && commits[r[at - 1]].seq > commits[k].seq
                invariant
                    at <= r@.len(),
                    k < commits@.len(),
                    before == ints(r@),
                    forall|i: int| 0 <= i < r@.len() ==> #[trigger] r@[i] < k,
                    slot(commits@, before, k as int, before.len() as int) == slot(
                        commits@,
                        before,
                        k as int,
                        at as int,
                    ),
                decreases at,
            {
                at -= 1;
            }
            let ghost old_r = r@;
            r.insert(at, k);
            proof {
                assert forall|i: int| 0 <= i < r@.len() implies #[trigger] r@[i] < k + 1 by {
                    if i < at {
                        assert(r@[i] == old_r[i]);
                    } else if i > at {
                        assert(r@[i] == old_r[i - 1]);
                    }
                }
                assert(ints(r@) =~= before.insert(at as int, k as int));
            }
        }
        k += 1;
    }
    r
}

/// The joins between neighbours among the first `k + 1` of a list.
pub open spec fn chain(list: Seq<int>, k: int) -> Seq<(int, int, EdgeKind)>
    decreases k,
{
    if k <= 0 {
        Seq::empty()
    } else {
        chain(list, k - 1).push((list[k - 1], list[k], EdgeKind::Open))
    }
}

/// The joins of a branch: from the commit it forks from, then along the
/// lane.
pub open spec fn branch_joins(d: GitGraph, b: GitBranch) -> Seq<(int, int, EdgeKind)> {
    let list = lane_commits(d.commits@, b.order as int, d.commits@.len() as int);
    let fork = match b.parent_commit {
        Some(p) => if list.len() > 0 {
            seq![(p as int, list[0], EdgeKind::Open)]
        } else {
            Seq::empty()
        },
        None => Seq::empty(),
    };
    fork + chain(list, list.len() - 1)
}

/// The joins of the first `k` branches.
pub open spec fn branches_joins(d: GitGraph, k: int) -> Seq<(int, int, EdgeKind)>
    decreases k,
{
    if k <= 0 {
        Seq::empty()
    } else {
        branches_joins(d, k - 1) + branch_joins(d, d.branches@[k - 1])
    }
}

/// The merges among the first `k` commits.
pub open spec fn merges(d: GitGraph, k: int) -> Seq<(int, int, EdgeKind)>
    decreases k,
{
    if k <= 0 {
        Seq::empty()
    } else {
        match d.commits@[k - 1].second_parent {
            Some(p) => merges(d, k - 1).push((p as int, k - 1, EdgeKind::Arrow)),
            None => merges(d, k - 1),
        }
    }
}

/// All joins of a graph.
pub open spec fn all_joins(d: GitGraph) -> Seq<(int, int, EdgeKind)> {
    branches_joins(d, d.branches@.len() as int) + merges(d, d.commits@.len() as int)
}

/// Whether the edges are the given joins.
pub open spec fn are_joined(d: GitGraph, e: Seq<GitEdge>, j: Seq<(int, int, EdgeKind)>) -> bool {
    e.len() == j.len() && forall|i: int|
        0 <= i < e.len() ==> joins(d, #[trigger] e[i], j[i].0, j[i].1, j[i].2)
}

proof fn lemma_joined_push(
    d: GitGraph,
    e: Seq<GitEdge>,
    j: Seq<(int, int, EdgeKind)>,
    x: GitEdge,
    y: (int, int, EdgeKind),
)
    requires
        are_joined(d, e, j),
        joins(d, x, y.0, y.1, y.2),
    ensures
        are_joined(d, e.push(x), j.push(y)),
{
    let ee = e.push(x);
    let jj = j.push(y);
    assert forall|i: int| 0 <= i < ee.len() implies joins(
        d,
        #[trigger] ee[i],
        jj[i].0,
        jj[i].1,
        jj[i].2,
    ) by {
        if i < e.len() {
            assert(ee[i] == e[i] && jj[i] == j[i]);
        }
    }
}

fn join_branch(d: &GitGraph, height: Px, b: &GitBranch, out: &mut Vec<GitEdge>, Ghost(done): Ghost<
    Seq<(int, int, EdgeKind)>,
>)
    requires
        height == canvas(*d).1,
        bounded(height as int),
        are_joined(*d, old(out)@, done),
        b.parent_commit matches Some(p) ==> p < d.commits@.len(),
    ensures
        are_joined(*d, final(out)@, done + branch_joins(*d, *b)),
{
    let list = list_lane(&d.commits, b.order);
    let ghost lane = lane_commits(d.commits@, b.order as int, d.commits@.len() as int);
    let ghost mut have = done;
    assert(lane.len() == list@.len());
    assert(forall|i: int| 0 <= i < lane.len() ==> lane[i] == list@[i]);
    if let Some(p) = b.parent_commit {
        if list.len() > 0 {
            let e = join(d, height, p, list[0], EdgeKind::Open);
            proof {
                lemma_joined_push(*d, out@, have, e, (p as int, lane[0], EdgeKind::Open));
                have = have.push((p as int, lane[0], EdgeKind::Open));
            }
            out.push(e);
        }
    }
    let ghost start = have;
    let mut k: usize = 1;
    assert(start + chain(lane, 0) =~= start);
    while k < list.len()
        invariant
            1 <= k,
            k <= list@.len() || (list@.len() == 0 && k == 1),
            lane.len() == list@.len(),
            forall|i: int| 0 <= i < lane.len() ==> lane[i] == list@[i],
            forall|i: int| 0 <= i < list@.len() ==> #[trigger] list@[i] < d.commits@.len(),
            height == canvas(*d).1,
            bounded(height as int),
            are_joined(*d, out@, start + chain(lane, k - 1)),
        decreases list@.len() - k,
    {
        let e = join(d, height, list[k - 1], list[k], EdgeKind::Open);
        proof {
            let y = (lane[k - 1], lane[k as int], EdgeKind::Open);
            lemma_joined_push(*d, out@, start + chain(lane, k - 1), e, y);
            assert((start + chain(lane, k - 1)).push(y) =~= start + chain(lane, k as int));
        }
        out.push(e);
        k += 1;
    }
    proof {
        assert(chain(lane, lane.len() - 1) == chain(lane, k - 1));
        assert(start + chain(lane, lane.len() - 1) =~= done + branch_joins(*d, *b));
    }
}

/// Join the commits of a graph: forks and lanes branch by branch, then
/// merges.
pub fn join_commits(d: &GitGraph, height: Px) -> (r: Vec<GitEdge>)
    requires
        parents_exist(*d),
        height == canvas(*d).1,
        bounded(height as int),
    ensures
        are_joined(*d, r@, all_joins(*d)),
{
    let mut out: Vec<GitEdge> = Vec::new();
    let mut i: usize = 0;
    while i < d.branches.len()
        invariant
            i <= d.branches@.len(),
            parents_exist(*d),
            height == canvas(*d).1,
            bounded(height as int),
            are_joined(*d, out@, branches_joins(*d, i as int)),
        decreases d.branches@.len() - i,
    {
        let ghost done = branches_joins(*d, i as int);
        join_branch(d, height, &d.branches[i], &mut out, Ghost(done));
        i += 1;
    }
    let ghost base = branches_joins(*d, d.branches@.len() as int);
    assert(base + merges(*d, 0) =~= base);
    let mut k: usize = 0;
    while k < d.commits.len()
        invariant
            k <= d.commits@.len(),
            parents_exist(*d),
            height == canvas(*d).1,
            bounded(height as int),
            are_joined(*d, out@, base + merges(*d, k as int)),
        decreases d.commits@.len() - k,
    {
        if let Some(p) = d.commits[k].second_parent {
            assert(d.commits@[k as int].second_parent == Some(p));
            let e = join(d, height, p, k, EdgeKind::Arrow);
            proof {
                let y = (p as int, k as int, EdgeKind::Arrow);
                lemma_joined_push(*d, out@, base + merges(*d, k as int), e, y);
                assert((base + merges(*d, k as int)).push(y) =~= base + merges(*d, k + 1));
            }
            out.push(e);
        }
        k += 1;
    }
    out
}

} // verus!
