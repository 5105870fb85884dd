//! Architecture diagrams: services in nested groups, joined side to side.

pub mod arrange;
pub mod icons;
pub mod laws;
pub mod line_laws;
pub mod place;
pub mod scene;
pub mod svg;

use vstd::prelude::*;

verus! {

/// A side of a service.
#[derive(Debug, Clone, Copy, PartialEq, Eq, Structural)]
pub enum ArchSide {
    L,
    R,
    T,
    B,
}

#[derive(Debug)]
pub struct ArchGroup {
    pub id: String,
    pub icon: Option<String>,
    pub title: String,
    /// The group it stands in.
    pub parent: Option<usize>,
}

#[derive(Debug)]
pub struct ArchService {
    pub id: String,
    pub icon: Option<String>,
    pub title: String,
    /// The group it stands in.
    pub group: Option<usize>,
}

#[derive(Debug)]
pub struct ArchEdge {
    pub from: usize,
    pub from_side: ArchSide,
    pub to: usize,
    pub to_side: ArchSide,
    pub arrow_start: bool,
    pub arrow_end: bool,
}

#[derive(Debug)]
pub struct Architecture {
    pub groups: Vec<ArchGroup>,
    pub services: Vec<ArchService>,
    pub edges: Vec<ArchEdge>,
}

/// How many groups a group stands in, counted up to `room`.
pub open spec fn rank(groups: Seq<ArchGroup>, i: int, room: int) -> int
    decreases room,
{
    if room <= 0 {
        0
    } else {
        match groups[i].parent {
            Some(p) => 1 + rank(groups, p as int, room - 1),
            None => 0,
        }
    }
}

/// How many groups a group stands in.
pub open spec fn level(d: Architecture, i: int) -> int {
    rank(d.groups@, i, d.groups@.len() as int)
}

/// Whether groups nest: parents exist, and no group stands in itself.
pub open spec fn nests(d: Architecture) -> bool {
    forall|i: int|
        0 <= i < d.groups@.len() ==> ((#[trigger] d.groups@[i]).parent matches Some(p) ==> p
            < d.groups@.len() && level(d, i) == level(d, p as int) + 1)
}

/// Whether services and edges point into the diagram.
pub open spec fn indices_exist(d: Architecture) -> bool {
    &&& forall|i: int|
        0 <= i < d.services@.len() ==> ((#[trigger] d.services@[i]).group matches Some(g) ==> g
            < d.groups@.len())
    &&& forall|i: int|
        0 <= i < d.edges@.len() ==> (#[trigger] d.edges@[i]).from < d.services@.len()
            && d.edges@[i].to < d.services@.len()
}

pub proof fn lemma_rank(groups: Seq<ArchGroup>, i: int, room: int)
    requires
        0 <= room,
    ensures
        0 <= rank(groups, i, room) <= room,
    decreases room,
{
    if room > 0 {
        if let Some(p) = groups[i].parent {
            lemma_rank(groups, p as int, room - 1);
        }
    }
}

/// How many groups a group stands in.
pub fn depth_of(idx: usize, d: &Architecture) -> (r: usize)
    requires
        nests(*d),
        idx < d.groups@.len(),
    ensures
        r == level(*d, idx as int),
{
    let n: usize = d.groups.len();
    let mut depth: usize = 0;
    let mut cur: usize = idx;
    proof {
        lemma_rank(d.groups@, idx as int, d.groups@.len() as int);
    }
    loop
        invariant_except_break
            nests(*d),
            cur < d.groups@.len(),
            depth + level(*d, cur as int) == level(*d, idx as int),
            n == d.groups@.len(),
            level(*d, idx as int) <= n,
            0 <= level(*d, cur as int),
        ensures
            depth == level(*d, idx as int),
        decreases level(*d, cur as int),
    {
        match d.groups[cur].parent {
            Some(p) => {
                assert(d.groups@[cur as int].parent == Some(p));
                proof {
                    lemma_rank(d.groups@, p as int, d.groups@.len() as int);
                }
                depth += 1;
                cur = p;
            },
            None => {
                assert(level(*d, cur as int) == 0);
                break;
            },
        }
    }
    depth
}

fn level_of(d: &Architecture, i: usize) -> (r: Option<usize>)
    requires
        i < d.groups@.len(),
        forall|k: int|
            0 <= k < d.groups@.len() ==> ((#[trigger] d.groups@[k]).parent matches Some(p) ==> p
                < d.groups@.len()),
    ensures
        r matches Some(n) && n == level(*d, i as int),
{
    let mut depth: usize = 0;
    let mut cur: usize = i;
    let n: usize = d.groups.len();
    let mut room: usize = n;
    while room > 0
        invariant
            n == d.groups@.len(),
            cur < n,
            depth + room == n,
            forall|k: int|
                0 <= k < d.groups@.len() ==> ((#[trigger] d.groups@[k]).parent matches Some(p)
                    ==> p < d.groups@.len()),
            depth + rank(d.groups@, cur as int, room as int) == level(*d, i as int),
        decreases room,
    {
        match d.groups[cur].parent {
            Some(p) => {
                assert(d.groups@[cur as int].parent == Some(p));
                depth += 1;
                cur = p;
                room -= 1;
            },
            None => {
                return Some(depth);
            },
        }
    }
    Some(depth)
}

/// Whether groups nest, and services and edges point into the diagram.
pub fn check(d: &Architecture) -> (r: bool)
    ensures
        r == (nests(*d) && indices_exist(*d)),
{
    let n: usize = d.groups.len();
    let mut i: usize = 0;
    while i < n
        invariant
            i <= n,
            n == d.groups@.len(),
            forall|k: int|
                0 <= k < i ==> ((#[trigger] d.groups@[k]).parent matches Some(p) ==> p < n),
        decreases n - i,
    {
        if let Some(p) = d.groups[i].parent {
            if p >= n {
                assert(d.groups@[i as int].parent == Some(p));
                return false;
            }
        }
        i += 1;
    }
    let mut j: usize = 0;
    while j < n
        invariant
            j <= n,
            n == d.groups@.len(),
            forall|k: int|
                0 <= k < n ==> ((#[trigger] d.groups@[k]).parent matches Some(p) ==> p < n),
            forall|k: int|
                0 <= k < j ==> ((#[trigger] d.groups@[k]).parent matches Some(p) ==> level(*d, k)
                    == level(*d, p as int) + 1),
        decreases n - j,
    {
        if let Some(p) = d.groups[j].parent {
            assert(d.groups@[j as int].parent == Some(p));
            proof {
                lemma_rank(d.groups@, p as int, n as int);
                lemma_rank(d.groups@, j as int, n as int);
            }
            if let (Some(a), Some(b)) = (level_of(d, j), level_of(d, p)) {
                if a == 0 || a - 1 != b {
                    return false;
                }
            }
        }
        j += 1;
    }
    assert(nests(*d));
    let mut s: usize = 0;
    while s < d.services.len()
        invariant
            s <= d.services@.len(),
            n == d.groups@.len(),
            nests(*d),
            forall|k: int|
                0 <= k < s ==> ((#[trigger] d.services@[k]).group matches Some(g) ==> g < n),
        decreases d.services@.len() - s,
    {
        if let Some(g) = d.services[s].group {
            if g >= n {
                assert(d.services@[s as int].group == Some(g));
                return false;
            }
        }
        s += 1;
    }
    let mut e: usize = 0;
    while e < d.edges.len()
        invariant
            e <= d.edges@.len(),
            n == d.groups@.len(),
            nests(*d),
            forall|k: int|
                0 <= k < d.services@.len() ==> ((#[trigger] d.services@[k]).group matches Some(g)
                    ==> g < n),
            forall|k: int|
                0 <= k < e ==> (#[trigger] d.edges@[k]).from < d.services@.len() && d.edges@[k].to
                    < d.services@.len(),
        decreases d.edges@.len() - e,
    {
        if d.edges[e].from >= d.services.len() || d.edges[e].to >= d.services.len() {
            assert(!(d.edges@[e as int].from < d.services@.len() && d.edges@[e as int].to
                < d.services@.len()));
            return false;
        }
        e += 1;
    }
    true
}

} // verus!
