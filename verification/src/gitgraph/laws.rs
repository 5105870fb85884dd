//! What a drawn git graph shows.

use vstd::prelude::*;

use crate::advance::route::geometry::FAR;
use crate::gitgraph::edges::{
    all_joins, branch_joins, branches_joins, canvas, chain, joins, lane_commits,
    law_lane_is_in_sequence, merges, slot,
};
use crate::gitgraph::scene::{is_id, is_node, is_scene, is_tag, tagged, GitScene};
use crate::gitgraph::{CommitKind, GitCommit, GitGraph, GitOrientation, BRANCH_DY, COMMIT_DX, R};
use crate::model::EdgeKind;
use crate::style::TEXT_COLOR;

verus! {

/// How far along the flow a place is: to the right, down, or up.
pub open spec fn flow(o: GitOrientation, x: int, y: int) -> int {
    match o {
        GitOrientation::LR => x,
        GitOrientation::TB => y,
        GitOrientation::BT => -y,
    }
}

/// Where a place is across the flow.
pub open spec fn across(o: GitOrientation, x: int, y: int) -> int {
    match o {
        GitOrientation::LR => y,
        GitOrientation::TB | GitOrientation::BT => x,
    }
}

/// Whether a number of steps stays in range.
pub open spec fn few(n: int, step: int) -> bool {
    n * step <= FAR / 4
}

proof fn lemma_steps(a: int, b: int, step: int)
    requires
        0 <= a < b,
        0 < step,
    ensures
        0 <= a * step,
        a * step + step <= b * step,
{
    assert(0 <= a * step && a * step + step <= b * step) by (nonlinear_arith)
        requires
            0 <= a,
            a + 1 <= b,
            0 < step,
    ;
}

proof fn lemma_canvas_bounded(d: GitGraph)
    ensures
        0 <= canvas(d).0 <= FAR,
        0 <= canvas(d).1 <= FAR,
{
}

/// Later commits are drawn further along the flow, each at least a step
/// behind those before. Commits of one branch are drawn on one line, and
/// the lines of later branches lie at least a step aside. This holds as
/// long as the drawing stays in range.
pub proof fn law_commits_follow_the_flow(
    s: GitScene,
    d: GitGraph,
    accents: Seq<String>,
    i: int,
    j: int,
)
    requires
        is_scene(s, d, accents),
        0 <= i < s.nodes@.len(),
        0 <= j < s.nodes@.len(),
    ensures
        ({
            let o = d.orientation;
            let (a, b) = (s.nodes@[i], s.nodes@[j]);
            let (p, q) = (d.commits@[i], d.commits@[j]);
            &&& a.id@ == p.id@
            &&& p.seq < q.seq && few(q.seq as int, COMMIT_DX as int) ==> flow(
                o,
                a.x as int,
                a.y as int,
            ) + COMMIT_DX <= flow(o, b.x as int, b.y as int)
            &&& p.seq == q.seq ==> flow(o, a.x as int, a.y as int) == flow(
                o,
                b.x as int,
                b.y as int,
            )
            &&& p.branch == q.branch ==> across(o, a.x as int, a.y as int) == across(
                o,
                b.x as int,
                b.y as int,
            )
            &&& p.branch < q.branch && few(q.branch as int, BRANCH_DY as int) ==> across(
                o,
                a.x as int,
                a.y as int,
            ) + BRANCH_DY <= across(o, b.x as int, b.y as int)
        }),
{
    let (p, q) = (d.commits@[i], d.commits@[j]);
    assert(is_node(s.nodes@[i], d, p, accents));
    assert(is_node(s.nodes@[j], d, q, accents));
    lemma_canvas_bounded(d);
    if p.seq < q.seq {
        lemma_steps(p.seq as int, q.seq as int, COMMIT_DX as int);
    }
    if p.branch < q.branch {
        lemma_steps(p.branch as int, q.branch as int, BRANCH_DY as int);
    }
}

/// An edge starts at the place of its first commit and ends at that of its
/// second. Between lanes it leaves along the lane of the first commit.
pub proof fn law_edges_meet_their_commits(s: GitScene, d: GitGraph, accents: Seq<String>, k: int)
    requires
        is_scene(s, d, accents),
        0 <= k < s.edges@.len(),
        s.edges@[k].from < s.nodes@.len(),
        s.edges@[k].to < s.nodes@.len(),
    ensures
        ({
            let e = s.edges@[k];
            let o = d.orientation;
            let (a, b) = (s.nodes@[e.from as int], s.nodes@[e.to as int]);
            &&& e.start.x == a.x && e.start.y == a.y
            &&& e.end.x == b.x && e.end.y == b.y
            &&& across(o, e.bend_from.x as int, e.bend_from.y as int) == across(
                o,
                a.x as int,
                a.y as int,
            )
            &&& across(o, a.x as int, a.y as int) == across(o, b.x as int, b.y as int)
                ==> e.bend_from == e.start && e.bend_to == e.end
            &&& across(o, a.x as int, a.y as int) != across(o, b.x as int, b.y as int)
                ==> e.bend_from == e.bend_to
        }),
{
    let e = s.edges@[k];
    let w = all_joins(d)[k];
    assert(joins(d, e, w.0, w.1, w.2));
    assert(is_node(s.nodes@[e.from as int], d, d.commits@[e.from as int], accents));
    assert(is_node(s.nodes@[e.to as int], d, d.commits@[e.to as int], accents));
}

proof fn lemma_slot_range(commits: Seq<GitCommit>, list: Seq<int>, v: int, i: int)
    requires
        0 <= i,
    ensures
        0 <= slot(commits, list, v, i) <= i,
    decreases i,
{
    if i > 0 && commits[list[i - 1]].seq > commits[v].seq {
        lemma_slot_range(commits, list, v, i - 1);
    }
}

/// A lane lists each of its commits once.
proof fn lemma_lane_lists(commits: Seq<GitCommit>, lane: int, k: int)
    requires
        0 <= k <= commits.len(),
    ensures
        lane_commits(commits, lane, k).no_duplicates(),
        forall|i: int|
            0 <= i < lane_commits(commits, lane, k).len() ==> 0 <= #[trigger] lane_commits(
                commits,
                lane,
                k,
            )[i] < k && commits[lane_commits(commits, lane, k)[i]].branch == lane,
        forall|c: int|
            0 <= c < k && (#[trigger] commits[c]).branch == lane ==> lane_commits(
                commits,
                lane,
                k,
            ).contains(c),
    decreases k,
{
    if k > 0 {
        lemma_lane_lists(commits, lane, k - 1);
        let before = lane_commits(commits, lane, k - 1);
        let after = lane_commits(commits, lane, k);
        if commits[k - 1].branch == lane {
            let at = slot(commits, before, k - 1, before.len() as int);
            lemma_slot_range(commits, before, k - 1, before.len() as int);
            assert(after == before.insert(at, k - 1));
            assert forall|i: int| 0 <= i < after.len() implies 0 <= #[trigger] after[i] < k
                && commits[after[i]].branch == lane by {
                if i < at {
                    assert(after[i] == before[i]);
                } else if i > at {
                    assert(after[i] == before[i - 1]);
                }
            }
            assert forall|i: int, j: int|
                0 <= i < after.len() && 0 <= j < after.len() && i != j implies after[i]
                != after[j] by {
                let a = if i < at {
                    i
                } else {
                    i - 1
                };
                let b = if j < at {
                    j
                } else {
                    j - 1
                };
                if i != at {
                    assert(after[i] == before[a]);
                    assert(before[a] < k - 1);
                }
                if j != at {
                    assert(after[j] == before[b]);
                    assert(before[b] < k - 1);
                }
            }
            assert forall|c: int| 0 <= c < k && (#[trigger] commits[c]).branch == lane implies after.contains(
                c,
            ) by {
                if c == k - 1 {
                    assert(after[at] == c);
                } else {
                    let i = choose|i: int| 0 <= i < before.len() && before[i] == c;
                    if i < at {
                        assert(after[i] == c);
                    } else {
                        assert(after[i + 1] == c);
                    }
                }
            }
        }
    }
}

proof fn lemma_chain(list: Seq<int>, k: int, i: int)
    requires
        0 < i <= k,
    ensures
        chain(list, k).contains((list[i - 1], list[i], EdgeKind::Open)),
    decreases k,
{
    let x = (list[i - 1], list[i], EdgeKind::Open);
    if i < k {
        lemma_chain(list, k - 1, i);
        let before = chain(list, k - 1);
        let j = choose|j: int| 0 <= j < before.len() && before[j] == x;
        assert(chain(list, k)[j] == x);
    } else {
        assert(chain(list, k)[chain(list, k).len() - 1] == x);
    }
}

proof fn lemma_branch_within(d: GitGraph, k: int, b: int, x: (int, int, EdgeKind))
    requires
        0 <= b < k <= d.branches@.len(),
        branch_joins(d, d.branches@[b]).contains(x),
    ensures
        branches_joins(d, k).contains(x),
    decreases k,
{
    let all = branches_joins(d, k);
    let before = branches_joins(d, k - 1);
    if b < k - 1 {
        lemma_branch_within(d, k - 1, b, x);
        let j = choose|j: int| 0 <= j < before.len() && before[j] == x;
        assert(all[j] == x);
    } else {
        let own = branch_joins(d, d.branches@[b]);
        let j = choose|j: int| 0 <= j < own.len() && own[j] == x;
        assert(all[before.len() + j] == x);
    }
}

/// Whether some edge of a scene joins two commits.
pub open spec fn joined(s: GitScene, a: int, b: int, kind: EdgeKind) -> bool {
    exists|e: int|
        0 <= e < s.edges@.len() && (#[trigger] s.edges@[e]).from == a && s.edges@[e].to == b
            && s.edges@[e].kind == kind
}

proof fn lemma_drawn(s: GitScene, d: GitGraph, accents: Seq<String>, x: (int, int, EdgeKind))
    requires
        is_scene(s, d, accents),
        all_joins(d).contains(x),
    ensures
        joined(s, x.0, x.1, x.2),
{
    let all = all_joins(d);
    let j = choose|j: int| 0 <= j < all.len() && all[j] == x;
    assert(joins(d, s.edges@[j], all[j].0, all[j].1, all[j].2));
}

proof fn lemma_branch_drawn(
    s: GitScene,
    d: GitGraph,
    accents: Seq<String>,
    b: int,
    x: (int, int, EdgeKind),
)
    requires
        is_scene(s, d, accents),
        0 <= b < d.branches@.len(),
        branch_joins(d, d.branches@[b]).contains(x),
    ensures
        joined(s, x.0, x.1, x.2),
{
    let n = d.branches@.len() as int;
    lemma_branch_within(d, n, b, x);
    let part = branches_joins(d, n);
    let j = choose|j: int| 0 <= j < part.len() && part[j] == x;
    assert(all_joins(d)[j] == x);
    lemma_drawn(s, d, accents, x);
}

/// Each commit of a branch is joined to the next one of the branch.
pub proof fn law_neighbours_are_joined(
    s: GitScene,
    d: GitGraph,
    accents: Seq<String>,
    b: int,
    p: int,
    q: int,
)
    requires
        is_scene(s, d, accents),
        0 <= b < d.branches@.len(),
        0 <= p < d.commits@.len(),
        0 <= q < d.commits@.len(),
        d.commits@[p].branch == d.branches@[b].order,
        d.commits@[q].branch == d.branches@[b].order,
        d.commits@[p].seq < d.commits@[q].seq,
        forall|c: int|
            0 <= c < d.commits@.len() && (#[trigger] d.commits@[c]).branch == d.branches@[b].order
                && c != p && c != q ==> d.commits@[c].seq < d.commits@[p].seq || d.commits@[c].seq
                > d.commits@[q].seq,
    ensures
        joined(s, p, q, EdgeKind::Open),
{
    let lane = d.branches@[b].order as int;
    let n = d.commits@.len() as int;
    let list = lane_commits(d.commits@, lane, n);
    lemma_lane_lists(d.commits@, lane, n);
    law_lane_is_in_sequence(d.commits@, lane, n);
    let i = choose|i: int| 0 <= i < list.len() && list[i] == p;
    let j = choose|j: int| 0 <= j < list.len() && list[j] == q;
    assert(i < j) by {
        if j < i {
            assert(d.commits@[list[j]].seq <= d.commits@[list[i]].seq);
        }
    }
    if i + 1 < j {
        let c = list[i + 1];
        assert(d.commits@[list[i]].seq <= d.commits@[list[i + 1]].seq);
        assert(d.commits@[list[i + 1]].seq <= d.commits@[list[j]].seq);
        assert(c != p && c != q);
        assert(d.commits@[c].branch == d.branches@[b].order);
        assert(false);
    }
    let x = (p, q, EdgeKind::Open);
    lemma_chain(list, list.len() - 1, j);
    let own = branch_joins(d, d.branches@[b]);
    let links = chain(list, list.len() - 1);
    let k = choose|k: int| 0 <= k < links.len() && links[k] == x;
    assert(own[own.len() - links.len() + k] == x);
    lemma_branch_drawn(s, d, accents, b, x);
}

/// A branch that forks from a commit is joined to it by its first commit.
pub proof fn law_forks_are_joined(
    s: GitScene,
    d: GitGraph,
    accents: Seq<String>,
    b: int,
    p: int,
    q: int,
)
    requires
        is_scene(s, d, accents),
        0 <= b < d.branches@.len(),
        d.branches@[b].parent_commit == Some(p as usize),
        0 <= p < d.commits@.len() <= usize::MAX,
        0 <= q < d.commits@.len(),
        d.commits@[q].branch == d.branches@[b].order,
        forall|c: int|
            0 <= c < d.commits@.len() && (#[trigger] d.commits@[c]).branch == d.branches@[b].order
                && c != q ==> d.commits@[c].seq > d.commits@[q].seq,
    ensures
        joined(s, p, q, EdgeKind::Open),
{
    let lane = d.branches@[b].order as int;
    let n = d.commits@.len() as int;
    let list = lane_commits(d.commits@, lane, n);
    lemma_lane_lists(d.commits@, lane, n);
    law_lane_is_in_sequence(d.commits@, lane, n);
    let j = choose|j: int| 0 <= j < list.len() && list[j] == q;
    if j > 0 {
        assert(d.commits@[list[0]].seq <= d.commits@[list[j]].seq);
        assert(list[0] != q);
        assert(d.commits@[list[0]].branch == d.branches@[b].order);
        assert(false);
    }
    let x = (p, q, EdgeKind::Open);
    assert(branch_joins(d, d.branches@[b])[0] == x);
    lemma_branch_drawn(s, d, accents, b, x);
}

proof fn lemma_merges(d: GitGraph, k: int, c: int)
    requires
        0 <= c < k <= d.commits@.len(),
        d.commits@[c].second_parent is Some,
    ensures
        merges(d, k).contains((d.commits@[c].second_parent->0 as int, c, EdgeKind::Arrow)),
    decreases k,
{
    let x = (d.commits@[c].second_parent->0 as int, c, EdgeKind::Arrow);
    if c < k - 1 {
        lemma_merges(d, k - 1, c);
        let before = merges(d, k - 1);
        let j = choose|j: int| 0 <= j < before.len() && before[j] == x;
        assert(merges(d, k)[j] == x);
    } else {
        assert(merges(d, k)[merges(d, k).len() - 1] == x);
    }
}

/// An arrow leads to every merge from the commit that was merged in.
pub proof fn law_merges_are_joined(s: GitScene, d: GitGraph, accents: Seq<String>, c: int)
    requires
        is_scene(s, d, accents),
        0 <= c < d.commits@.len(),
        d.commits@[c].second_parent is Some,
    ensures
        joined(s, d.commits@[c].second_parent->0 as int, c, EdgeKind::Arrow),
{
    let n = d.commits@.len() as int;
    let x = (d.commits@[c].second_parent->0 as int, c, EdgeKind::Arrow);
    lemma_merges(d, n, c);
    let part = merges(d, n);
    let j = choose|j: int| 0 <= j < part.len() && part[j] == x;
    let before = branches_joins(d, d.branches@.len() as int);
    assert(all_joins(d)[before.len() + j] == x);
    lemma_drawn(s, d, accents, x);
}

proof fn lemma_tagged(commits: Seq<GitCommit>, k: int, c: int)
    requires
        0 <= c < k <= commits.len(),
        commits[c].tag is Some,
    ensures
        tagged(commits, k).contains(c),
    decreases k,
{
    if c < k - 1 {
        lemma_tagged(commits, k - 1, c);
        let before = tagged(commits, k - 1);
        let j = choose|j: int| 0 <= j < before.len() && before[j] == c;
        assert(tagged(commits, k)[j] == c);
    } else {
        assert(tagged(commits, k)[tagged(commits, k).len() - 1] == c);
    }
}

/// Every commit has its id below it, and its tag, if any, above, as long as
/// the drawing stays in range.
pub proof fn law_commits_are_labelled(s: GitScene, d: GitGraph, accents: Seq<String>, c: int)
    requires
        is_scene(s, d, accents),
        0 <= c < s.nodes@.len(),
        -FAR / 2 <= s.nodes@[c].y <= FAR / 2,
    ensures
        s.commit_ids@[c].text@ == d.commits@[c].id@,
        s.commit_ids@[c].y >= s.nodes@[c].y + R,
        d.commits@[c].tag matches Some(t) ==> exists|k: int|
            0 <= k < s.tags@.len() && (#[trigger] s.tags@[k]).text@ == t@ && s.tags@[k].y + R
                <= s.nodes@[c].y,
{
    assert(is_node(s.nodes@[c], d, d.commits@[c], accents));
    assert(is_id(s.commit_ids@[c], d, d.commits@[c]));
    if d.commits@[c].tag is Some {
        let t = tagged(d.commits@, d.commits@.len() as int);
        lemma_tagged(d.commits@, d.commits@.len() as int, c);
        let k = choose|k: int| 0 <= k < t.len() && t[k] == c;
        assert(is_tag(s.tags@[k], d, d.commits@[t[k]], accents));
    }
}

/// A commit is drawn in the colour of its branch: filled and outlined with
/// it, or, where it was reversed, hollow, or, where it stands out, with
/// another outline.
pub proof fn law_commits_show_their_kinds(s: GitScene, d: GitGraph, accents: Seq<String>, c: int)
    requires
        is_scene(s, d, accents),
        0 <= c < s.nodes@.len(),
        (d.commits@[c].branch as int) < accents.len(),
    ensures
        ({
            let own = accents[d.commits@[c].branch as int]@;
            let n = s.nodes@[c];
            match d.commits@[c].kind {
                CommitKind::Normal => n.fill@ == own && n.stroke@ == own,
                CommitKind::Reverse => n.stroke@ == own && n.fill@ == "#ffffff"@,
                CommitKind::Highlight => n.fill@ == own && n.stroke@ == TEXT_COLOR@,
            }
        }),
{
    assert(is_node(s.nodes@[c], d, d.commits@[c], accents));
    vstd::arithmetic::div_mod::lemma_small_mod(d.commits@[c].branch as nat, accents.len());
}

} // verus!
