//! The wedges of subtrees, counted in leaves.

use vstd::prelude::*;

use crate::mindmap::{grown, node_fits};
use crate::model::{MindNode, Mindmap};

verus! {

/// The sum of two counts; one that is too great stays at the greatest.
pub open spec fn joined(a: int, b: int) -> int {
    if a + b > usize::MAX {
        usize::MAX as int
    } else {
        a + b
    }
}

fn join(a: usize, b: usize) -> (r: usize)
    ensures
        r == joined(a as int, b as int),
{
    if a > usize::MAX - b {
        usize::MAX
    } else {
        a + b
    }
}

/// The weights of the first `k` children together.
pub open spec fn kids_weight(w: Seq<usize>, kids: Seq<usize>, k: int) -> int
    decreases k,
{
    if k <= 0 {
        0
    } else {
        joined(kids_weight(w, kids, k - 1), w[kids[k - 1] as int] as int)
    }
}

/// Whether `w` are the weights of all nodes: one for a leaf, else that of
/// the children together.
pub open spec fn is_weights(d: Mindmap, w: Seq<usize>) -> bool {
    &&& w.len() == d.nodes@.len()
    &&& forall|i: int| 0 <= i < d.nodes@.len() ==> #[trigger] node_weighs(d.nodes@, w, i)
}

/// Whether a node has the weight of its subtree.
pub open spec fn node_weighs(nodes: Seq<MindNode>, w: Seq<usize>, i: int) -> bool {
    let kids = nodes[i].children@;
    w[i] == (if kids.len() == 0 {
        1
    } else {
        kids_weight(w, kids, kids.len() as int)
    })
}

proof fn lemma_kids_same(w: Seq<usize>, v: Seq<usize>, kids: Seq<usize>, k: int)
    requires
        0 <= k <= kids.len(),
        forall|j: int| 0 <= j < kids.len() ==> w[(#[trigger] kids[j]) as int] == v[kids[j] as int],
    ensures
        kids_weight(w, kids, k) == kids_weight(v, kids, k),
    decreases k,
{
    if k > 0 {
        lemma_kids_same(w, v, kids, k - 1);
    }
}

/// Count the leaves of all subtrees.
pub fn weigh(d: &Mindmap) -> (w: Vec<usize>)
    requires
        grown(*d),
    ensures
        is_weights(*d, w@),
{
    let n: usize = d.nodes.len();
    let ghost nodes = d.nodes@;
    let mut w: Vec<usize> = Vec::new();
    while w.len() < n
        invariant
            w@.len() <= n,
        decreases n - w@.len(),
    {
        w.push(0);
    }
    let mut i: usize = n;
    while i > 0
        invariant
            i <= n,
            n == d.nodes@.len(),
            nodes == d.nodes@,
            grown(*d),
            w@.len() == n,
            forall|k: int| i <= k < n ==> #[trigger] node_weighs(nodes, w@, k),
        decreases i,
    {
        i -= 1;
        let kids = &d.nodes[i].children;
        assert(node_fits(nodes, i as int));
        let mut total: usize = 0;
        let mut k: usize = 0;
        while k < kids.len()
            invariant
                k <= kids@.len(),
                i < n,
                n == d.nodes@.len(),
                nodes == d.nodes@,
                node_fits(nodes, i as int),
                kids@ == nodes[i as int].children@,
                w@.len() == n,
                total == kids_weight(w@, kids@, k as int),
            decreases kids@.len() - k,
        {
            let c: usize = kids[k];
            assert(nodes[i as int].children@[k as int] < n);
            total = join(total, w[c]);
            k += 1;
        }
        let ghost before = w@;
        let own: usize = if kids.len() == 0 {
            1
        } else {
            total
        };
        w.set(i, own);
        proof {
            assert forall|k: int| i <= k < n implies #[trigger] node_weighs(nodes, w@, k) by {
                assert(node_fits(nodes, k));
                let q = nodes[k].children@;
                assert forall|j: int| 0 <= j < q.len() implies w@[(#[trigger] q[j]) as int]
                    == before[q[j] as int] by {}
                lemma_kids_same(w@, before, q, q.len() as int);
                if k > i {
                    assert(node_weighs(nodes, before, k));
                }
            }
        }
    }
    w
}

/// Whether the wedges of the children of node `i` follow each other from
/// where its own wedge starts.
pub open spec fn kids_follow(nodes: Seq<MindNode>, w: Seq<usize>, r: Seq<usize>, i: int) -> bool {
    let kids = nodes[i].children@;
    forall|j: int|
        0 <= j < kids.len() ==> r[(#[trigger] kids[j]) as int] == joined(
            r[i] as int,
            kids_weight(w, kids, j),
        )
}

/// Whether `r` says after how many leaves the wedge of each node starts.
pub open spec fn is_wedges(d: Mindmap, w: Seq<usize>, r: Seq<usize>) -> bool {
    &&& r.len() == d.nodes@.len()
    &&& r.len() > 0 ==> r[0] == 0
    &&& forall|i: int| 0 <= i < d.nodes@.len() ==> #[trigger] kids_follow(d.nodes@, w, r, i)
}

proof fn lemma_sum_bound(w: Seq<usize>, kids: Seq<usize>, k: int)
    ensures
        0 <= kids_weight(w, kids, k) <= usize::MAX,
    decreases k,
{
    if k > 0 {
        lemma_sum_bound(w, kids, k - 1);
    }
}

/// Give every node its wedge.
pub fn wedges(d: &Mindmap, w: &Vec<usize>) -> (r: Vec<usize>)
    requires
        grown(*d),
        w@.len() == d.nodes@.len(),
    ensures
        is_wedges(*d, w@, r@),
{
    let n: usize = d.nodes.len();
    let ghost nodes = d.nodes@;
    let mut r: Vec<usize> = Vec::new();
    while r.len() < n
        invariant
            r@.len() <= n,
            forall|k: int| 0 <= k < r@.len() ==> (#[trigger] r@[k]) == 0,
        decreases n - r@.len(),
    {
        r.push(0);
    }
    let mut i: usize = 0;
    while i < n
        invariant
            i <= n,
            n == d.nodes@.len(),
            nodes == d.nodes@,
            grown(*d),
            w@.len() == n,
            r@.len() == n,
            n > 0 ==> r@[0] == 0,
            forall|k: int| 0 <= k < i ==> #[trigger] kids_follow(nodes, w@, r@, k),
        decreases n - i,
    {
        let kids = &d.nodes[i].children;
        assert(node_fits(nodes, i as int));
        let mut at: usize = 0;
        let mut j: usize = 0;
        while j < kids.len()
            invariant
                j <= kids@.len(),
                i < n,
                n == d.nodes@.len(),
                nodes == d.nodes@,
                grown(*d),
                node_fits(nodes, i as int),
                kids@ == nodes[i as int].children@,
                w@.len() == n,
                r@.len() == n,
                n > 0 ==> r@[0] == 0,
                at == kids_weight(w@, kids@, j as int),
                forall|k: int| 0 <= k < i ==> #[trigger] kids_follow(nodes, w@, r@, k),
                forall|k: int|
                    0 <= k < j ==> r@[(#[trigger] kids@[k]) as int] == joined(
                        r@[i as int] as int,
                        kids_weight(w@, kids@, k),
                    ),
            decreases kids@.len() - j,
        {
            let c: usize = kids[j];
            assert(i < nodes[i as int].children@[j as int] < n);
            let ghost before = r@;
            let x: usize = join(r[i], at);
            r.set(c, x);
            proof {
                assert forall|k: int| 0 <= k < i implies #[trigger] kids_follow(nodes, w@, r@, k) by {
                    assert(kids_follow(nodes, w@, before, k));
                    assert(node_fits(nodes, k));
                    let q = nodes[k].children@;
                    assert forall|b: int| 0 <= b < q.len() implies r@[(#[trigger] q[b]) as int]
                        == joined(r@[k] as int, kids_weight(w@, q, b)) by {
                        assert(nodes[q[b] as int].parent == Some(k as usize));
                        assert(nodes[c as int].parent == Some(i));
                    }
                }
            }
            at = join(at, w[c]);
            j += 1;
        }
        i += 1;
    }
    r
}

/// The wedges of the children fill the wedge of their parent: the last one
/// ends where it ends, as long as the leaves can be counted.
pub proof fn law_children_fill_the_wedge(d: Mindmap, w: Seq<usize>, r: Seq<usize>, i: int)
    requires
        grown(d),
        is_weights(d, w),
        is_wedges(d, w, r),
        0 <= i < d.nodes@.len(),
        d.nodes@[i].children@.len() > 0,
        r[i] + w[i] < usize::MAX,
    ensures
        ({
            let kids = d.nodes@[i].children@;
            let last = kids.last() as int;
            &&& r[kids[0] as int] == r[i]
            &&& r[last] + w[last] == r[i] + w[i]
        }),
{
    let kids = d.nodes@[i].children@;
    let n = kids.len() as int;
    assert(kids_follow(d.nodes@, w, r, i));
    assert(node_weighs(d.nodes@, w, i));
    lemma_sum_bound(w, kids, n - 1);
    assert(kids_weight(w, kids, n) == joined(
        kids_weight(w, kids, n - 1),
        w[kids[n - 1] as int] as int,
    ));
    assert(kids[n - 1] == kids.last());
    assert(kids_weight(w, kids, 0) == 0);
}

/// The wedges of two neighbouring children touch.
pub proof fn law_wedges_touch(d: Mindmap, w: Seq<usize>, r: Seq<usize>, i: int, j: int)
    requires
        is_wedges(d, w, r),
        0 <= i < d.nodes@.len(),
        0 <= j,
        j + 1 < d.nodes@[i].children@.len(),
        r[d.nodes@[i].children@[j + 1] as int] < usize::MAX,
    ensures
        ({
            let kids = d.nodes@[i].children@;
            r[kids[j] as int] + w[kids[j] as int] == r[kids[j + 1] as int]
        }),
{
    let kids = d.nodes@[i].children@;
    assert(kids_follow(d.nodes@, w, r, i));
    lemma_sum_bound(w, kids, j);
    assert(kids_weight(w, kids, j + 1) == joined(
        kids_weight(w, kids, j),
        w[kids[j] as int] as int,
    ));
    assert(r[kids[j] as int] == joined(r[i] as int, kids_weight(w, kids, j)));
    assert(r[kids[j + 1] as int] == joined(r[i] as int, kids_weight(w, kids, j + 1)));
}

} // verus!
