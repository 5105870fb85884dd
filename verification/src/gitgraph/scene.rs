//! The geometry of a git graph.

use vstd::prelude::*;

use crate::advance::place::lengths::{bounded, diff, minus, plus, sum};
use crate::advance::scene::Px;
use crate::gitgraph::edges::{
    all_joins, are_joined, branch_pos, canvas, canvas_of, join_commits, lane_at, place_commit,
    position, GitEdge,
};
use crate::gitgraph::{
    parents_exist, CommitKind, GitBranch, GitCommit, GitGraph, GitOrientation, PAD,
};
use crate::style::{accent, accent_of, TEXT_COLOR};

verus! {

/// A commit in its place.
#[derive(Debug)]
pub struct GitNode {
    pub id: String,
    pub x: Px,
    pub y: Px,
    pub fill: String,
    pub stroke: String,
}

/// A label in its place.
#[derive(Debug)]
pub struct GitLabel {
    pub x: Px,
    pub y: Px,
    pub text: String,
    pub anchor: &'static str,
    pub bold: bool,
    pub color: String,
}

/// Everything that is drawn of a git graph.
#[derive(Debug)]
pub struct GitScene {
    pub width: Px,
    pub height: Px,
    pub nodes: Vec<GitNode>,
    pub edges: Vec<GitEdge>,
    pub branch_labels: Vec<GitLabel>,
    pub commit_ids: Vec<GitLabel>,
    pub tags: Vec<GitLabel>,
}

/// The colours of a commit: fill, then stroke.
pub open spec fn commit_colours(c: GitCommit, accents: Seq<String>) -> (Seq<char>, Seq<char>) {
    let own = accent_of(accents, c.branch as int);
    match c.kind {
        CommitKind::Normal => (own, own),
        CommitKind::Reverse => ("#ffffff"@, own),
        CommitKind::Highlight => (own, TEXT_COLOR@),
    }
}

pub fn commit_color(c: &GitCommit, accents: &Vec<String>) -> (r: (String, String))
    requires
        accents@.len() > 0,
    ensures
        (r.0@, r.1@) == commit_colours(*c, accents@),
{
    let own = accent(accents, c.branch);
    match c.kind {
        CommitKind::Normal => (own.clone(), own),
        CommitKind::Reverse => ("#ffffff".to_owned(), own),
        CommitKind::Highlight => (own, TEXT_COLOR.to_owned()),
    }
}

/// Whether `n` is the commit in its place.
pub open spec fn is_node(n: GitNode, d: GitGraph, c: GitCommit, accents: Seq<String>) -> bool {
    &&& n.id@ == c.id@
    &&& (n.x as int, n.y as int) == position(d, c)
    &&& (n.fill@, n.stroke@) == commit_colours(c, accents)
}

/// How far a label is from the centre of its commit.
pub const ASIDE: Px = 1024000;

/// How far below its commit an id stands.
pub const BELOW: Px = 1664000;

/// How far above its commit a tag stands.
pub const ABOVE: Px = 1408000;

/// Whether `l` is the id of the commit: below it, or below and to its right
/// where commits flow up or down.
pub open spec fn is_id(l: GitLabel, d: GitGraph, c: GitCommit) -> bool {
    let (x, y) = position(d, c);
    &&& l.text@ == c.id@ && !l.bold && l.color@ == TEXT_COLOR@
    &&& l.y == plus(y, BELOW as int)
    &&& match d.orientation {
        GitOrientation::LR => l.x == x && l.anchor@ == "middle"@,
        GitOrientation::TB | GitOrientation::BT => l.x == plus(x, ASIDE as int) && l.anchor@
            == "start"@,
    }
}

/// Whether `l` is the tag of the commit: above it, or above and to its left
/// where commits flow up or down.
pub open spec fn is_tag(l: GitLabel, d: GitGraph, c: GitCommit, accents: Seq<String>) -> bool {
    let (x, y) = position(d, c);
    &&& c.tag matches Some(t) && l.text@ == t@
    &&& l.bold && l.color@ == commit_colours(c, accents).1
    &&& l.y == minus(y, ABOVE as int)
    &&& match d.orientation {
        GitOrientation::LR => l.x == x && l.anchor@ == "middle"@,
        GitOrientation::TB | GitOrientation::BT => l.x == minus(x, ASIDE as int) && l.anchor@
            == "end"@,
    }
}

/// The commits with tags among the first `k`.
pub open spec fn tagged(commits: Seq<GitCommit>, k: int) -> Seq<int>
    decreases k,
{
    if k <= 0 {
        Seq::empty()
    } else if commits[k - 1].tag is Some {
        tagged(commits, k - 1).push(k - 1)
    } else {
        tagged(commits, k - 1)
    }
}

/// Whether `l` is the name of the branch at the start of its lane.
pub open spec fn is_branch(l: GitLabel, d: GitGraph, b: GitBranch, accents: Seq<String>) -> bool {
    let lane = branch_pos(b.order as int);
    &&& l.text@ == b.name@ && l.bold && l.color@ == accent_of(accents, b.order as int)
    &&& match d.orientation {
        GitOrientation::LR => l.x == PAD && l.y == lane && l.anchor@ == "start"@,
        GitOrientation::TB => l.x == lane && l.y == PAD && l.anchor@ == "middle"@,
        GitOrientation::BT => l.x == lane && l.y == minus(canvas(d).1, PAD as int) && l.anchor@
            == "middle"@,
    }
}

/// Whether `s` is what is drawn of a graph.
pub open spec fn is_scene(s: GitScene, d: GitGraph, accents: Seq<String>) -> bool {
    let t = tagged(d.commits@, d.commits@.len() as int);
    &&& (s.width as int, s.height as int) == canvas(d)
    &&& s.nodes@.len() == d.commits@.len()
    &&& forall|i: int|
        0 <= i < s.nodes@.len() ==> is_node(#[trigger] s.nodes@[i], d, d.commits@[i], accents)
    &&& are_joined(d, s.edges@, all_joins(d))
    &&& s.branch_labels@.len() == d.branches@.len()
    &&& forall|i: int|
        0 <= i < s.branch_labels@.len() ==> is_branch(
            #[trigger] s.branch_labels@[i],
            d,
            d.branches@[i],
            accents,
        )
    &&& s.commit_ids@.len() == d.commits@.len()
    &&& forall|i: int|
        0 <= i < s.commit_ids@.len() ==> is_id(#[trigger] s.commit_ids@[i], d, d.commits@[i])
    &&& s.tags@.len() == t.len()
    &&& forall|i: int|
        0 <= i < s.tags@.len() ==> is_tag(#[trigger] s.tags@[i], d, d.commits@[t[i]], accents)
}

fn node_of(d: &GitGraph, height: Px, c: &GitCommit, accents: &Vec<String>) -> (r: GitNode)
    requires
        accents@.len() > 0,
        height == canvas(*d).1,
        bounded(height as int),
    ensures
        is_node(r, *d, *c, accents@),
{
    let p = place_commit(d, height, c);
    let (fill, stroke) = commit_color(c, accents);
    GitNode { id: c.id.clone(), x: p.x, y: p.y, fill, stroke }
}

fn id_of(d: &GitGraph, height: Px, c: &GitCommit) -> (r: GitLabel)
    requires
        height == canvas(*d).1,
        bounded(height as int),
    ensures
        is_id(r, *d, *c),
{
    let p = place_commit(d, height, c);
    let (x, anchor): (Px, &'static str) = match d.orientation {
        GitOrientation::LR => (p.x, "middle"),
        GitOrientation::TB | GitOrientation::BT => (sum(p.x, ASIDE), "start"),
    };
    GitLabel {
        x,
        y: sum(p.y, BELOW),
        text: c.id.clone(),
        anchor,
        bold: false,
        color: TEXT_COLOR.to_owned(),
    }
}

fn tag_of(d: &GitGraph, height: Px, c: &GitCommit, tag: &String, accents: &Vec<String>) -> (r:
    GitLabel)
    requires
        accents@.len() > 0,
        height == canvas(*d).1,
        bounded(height as int),
        c.tag matches Some(t) && t@ == tag@,
    ensures
        is_tag(r, *d, *c, accents@),
{
    let p = place_commit(d, height, c);
    let (_, stroke) = commit_color(c, accents);
    let (x, anchor): (Px, &'static str) = match d.orientation {
        GitOrientation::LR => (p.x, "middle"),
        GitOrientation::TB | GitOrientation::BT => (diff(p.x, ASIDE), "end"),
    };
    GitLabel {
        x,
        y: diff(p.y, ABOVE),
        text: tag.clone(),
        anchor,
        bold: true,
        color: stroke,
    }
}

fn branch_of(d: &GitGraph, height: Px, b: &GitBranch, accents: &Vec<String>) -> (r: GitLabel)
    requires
        accents@.len() > 0,
        height == canvas(*d).1,
        bounded(height as int),
    ensures
        is_branch(r, *d, *b, accents@),
{
    let lane: Px = lane_at(b.order);
    let (x, y, anchor): (Px, Px, &'static str) = match d.orientation {
        GitOrientation::LR => (PAD, lane, "start"),
        GitOrientation::TB => (lane, PAD, "middle"),
        GitOrientation::BT => (lane, diff(height, PAD), "middle"),
    };
    GitLabel { x, y, text: b.name.clone(), anchor, bold: true, color: accent(accents, b.order) }
}

/// Compute everything that is drawn of a git graph.
pub fn scene(d: &GitGraph, accents: &Vec<String>) -> (r: GitScene)
    requires
        parents_exist(*d),
        accents@.len() > 0,
    ensures
        is_scene(r, *d, accents@),
{
    let (width, height) = canvas_of(d);
    let mut nodes: Vec<GitNode> = Vec::new();
    let mut commit_ids: Vec<GitLabel> = Vec::new();
    let mut tags: Vec<GitLabel> = Vec::new();
    let mut i: usize = 0;
    while i < d.commits.len()
        invariant
            i <= d.commits@.len(),
            accents@.len() > 0,
            height == canvas(*d).1,
            bounded(height as int),
            nodes@.len() == i,
            commit_ids@.len() == i,
            tags@.len() == tagged(d.commits@, i as int).len(),
            forall|k: int|
                0 <= k < i ==> is_node(#[trigger] nodes@[k], *d, d.commits@[k], accents@),
            forall|k: int| 0 <= k < i ==> is_id(#[trigger] commit_ids@[k], *d, d.commits@[k]),
            forall|k: int|
                0 <= k < tags@.len() ==> is_tag(
                    #[trigger] tags@[k],
                    *d,
                    d.commits@[tagged(d.commits@, i as int)[k]],
                    accents@,
                ),
        decreases d.commits@.len() - i,
    {
        let c = &d.commits[i];
        nodes.push(node_of(d, height, c, accents));
        commit_ids.push(id_of(d, height, c));
        let ghost before = tagged(d.commits@, i as int);
        let ghost old_tags = tags@;
        if let Some(tag) = &c.tag {
            tags.push(tag_of(d, height, c, tag, accents));
        }
        proof {
            let after = tagged(d.commits@, i + 1);
            assert forall|k: int| 0 <= k < tags@.len() implies is_tag(
                #[trigger] tags@[k],
                *d,
                d.commits@[after[k]],
                accents@,
            ) by {
                if k < old_tags.len() {
                    assert(tags@[k] == old_tags[k]);
                    assert(after[k] == before[k]);
                }
            }
        }
        i += 1;
    }
    let edges = join_commits(d, height);
    let mut branch_labels: Vec<GitLabel> = Vec::new();
    let mut j: usize = 0;
    while j < d.branches.len()
        invariant
            j <= d.branches@.len(),
            accents@.len() > 0,
            height == canvas(*d).1,
            bounded(height as int),
            branch_labels@.len() == j,
            forall|k: int|
                0 <= k < j ==> is_branch(
                    #[trigger] branch_labels@[k],
                    *d,
                    d.branches@[k],
                    accents@,
                ),
        decreases d.branches@.len() - j,
    {
        branch_labels.push(branch_of(d, height, &d.branches[j], accents));
        j += 1;
    }
    GitScene { width, height, nodes, edges, branch_labels, commit_ids, tags }
}

} // verus!
