//! Connected nodes of other lanes draw the nodes of a lane to their places.

use vstd::prelude::*;

use crate::advance::order::{earlier, pull, pulled, put_in, sorted, topological, Pull};
use crate::advance::place::lanes::local;
use crate::advance::place::sequence::stack_of;
use crate::advance::{AdvanceOrder, DiagramView, LaneNodeView};

verus! {

/// Whether a pull is a mean of places: it counts no fewer than none.
pub open spec fn is_mean(p: Pull) -> bool {
    0 <= p.count
}

/// Whether no node of a list is drawn to an earlier place than one before
/// it.
pub open spec fn in_pull_order(s: Seq<(int, Pull)>) -> bool {
    forall|i: int, j: int|
        0 <= i < j < s.len() ==> !earlier((#[trigger] s[j]).1, (#[trigger] s[i]).1)
}

proof fn lemma_not_earlier_chain(a: Pull, b: Pull, c: Pull)
    requires
        is_mean(a),
        is_mean(b),
        is_mean(c),
        !earlier(b, a),
        !earlier(c, b),
    ensures
        !earlier(c, a),
{
    if earlier(c, a) {
        if b.count == 0 {
            assert(false);
        } else if a.count == 0 {
            assert(false);
        } else {
            let (s, t, u) = (a.sum, b.sum, c.sum);
            let (x, y, z) = (a.count, b.count, c.count);
            assert(false) by (nonlinear_arith)
                requires
                    0 < x,
                    0 < y,
                    0 < z,
                    !(t * x < s * y),
                    !(u * y < t * z),
                    u * x < s * z,
            {
                assert(s * y <= t * x);
                assert(t * z <= u * y);
                assert((s * y) * z <= (t * x) * z) by (nonlinear_arith)
                    requires
                        s * y <= t * x,
                        0 < z,
                ;
                assert((t * z) * x <= (u * y) * x) by (nonlinear_arith)
                    requires
                        t * z <= u * y,
                        0 < x,
                ;
                assert((u * x) * y < (s * z) * y) by (nonlinear_arith)
                    requires
                        u * x < s * z,
                        0 < y,
                ;
                assert((s * y) * z == (s * z) * y) by (nonlinear_arith);
                assert((t * x) * z == (t * z) * x) by (nonlinear_arith);
                assert((u * y) * x == (u * x) * y) by (nonlinear_arith);
            }
        }
    }
}

proof fn lemma_put_in(s: Seq<(int, Pull)>, x: (int, Pull))
    requires
        in_pull_order(s),
        is_mean(x.1),
        forall|i: int| 0 <= i < s.len() ==> is_mean((#[trigger] s[i]).1),
    ensures
        put_in(s, x).len() == s.len() + 1,
        in_pull_order(put_in(s, x)),
        forall|i: int|
            0 <= i < put_in(s, x).len() ==> #[trigger] put_in(s, x)[i] == x || s.contains(
                put_in(s, x)[i],
            ),
        forall|i: int| 0 <= i < put_in(s, x).len() ==> is_mean((#[trigger] put_in(s, x)[i]).1),
    decreases s.len(),
{
    let r = put_in(s, x);
    if s.len() == 0 || !earlier(x.1, s.last().1) {
        assert forall|i: int| 0 <= i < r.len() implies #[trigger] r[i] == x || s.contains(r[i]) by {
            if i < s.len() {
                assert(r[i] == s[i]);
            }
        }
        assert forall|i: int, j: int| 0 <= i < j < r.len() implies !earlier(
            (#[trigger] r[j]).1,
            (#[trigger] r[i]).1,
        ) by {
            if j == s.len() && i < s.len() - 1 {
                assert(!earlier(s[s.len() - 1].1, s[i].1));
                lemma_not_earlier_chain(s[i].1, s[s.len() - 1].1, x.1);
            }
        }
    } else {
        let front = s.drop_last();
        let z = s.last();
        assert forall|i: int| 0 <= i < front.len() implies is_mean((#[trigger] front[i]).1) by {
            assert(front[i] == s[i]);
        }
        assert(in_pull_order(front));
        lemma_put_in(front, x);
        let p = put_in(front, x);
        assert(r == p.push(z));
        assert forall|i: int| 0 <= i < r.len() implies #[trigger] r[i] == x || s.contains(r[i]) by {
            if i < p.len() {
                assert(r[i] == p[i]);
                if p[i] != x {
                    let k = choose|k: int| 0 <= k < front.len() && front[k] == p[i];
                    assert(s[k] == p[i]);
                }
            } else {
                assert(s[s.len() - 1] == z);
            }
        }
        assert(!earlier(z.1, x.1)) by {
            let (a, b) = (x.1, z.1);
            if b.count > 0 {
                assert(a.sum * b.count < b.sum * a.count);
            }
        }
        assert forall|i: int, j: int| 0 <= i < j < r.len() implies !earlier(
            (#[trigger] r[j]).1,
            (#[trigger] r[i]).1,
        ) by {
            assert(r[i] == p[i]);
            if j < p.len() {
                assert(r[j] == p[j]);
            } else if p[i] != x {
                let k = choose|k: int| 0 <= k < front.len() && front[k] == p[i];
                assert(s[k] == p[i] && k < s.len() - 1);
                assert(!earlier(s[s.len() - 1].1, s[k].1));
            }
        }
    }
}

proof fn lemma_sorted(s: Seq<(int, Pull)>)
    requires
        forall|i: int| 0 <= i < s.len() ==> is_mean((#[trigger] s[i]).1),
    ensures
        sorted(s).len() == s.len(),
        in_pull_order(sorted(s)),
        forall|i: int| 0 <= i < sorted(s).len() ==> is_mean((#[trigger] sorted(s)[i]).1),
    decreases s.len(),
{
    if s.len() > 0 {
        let front = s.drop_last();
        assert forall|i: int| 0 <= i < front.len() implies is_mean((#[trigger] front[i]).1) by {
            assert(front[i] == s[i]);
        }
        lemma_sorted(front);
        lemma_put_in(sorted(front), s.last());
    }
}

proof fn lemma_pull(lane: Seq<usize>, d: DiagramView, id: Seq<char>, k: int)
    ensures
        is_mean(pull(lane, d, id, k)),
    decreases k,
{
    if k > 0 {
        lemma_pull(lane, d, id, k - 1);
    }
}

/// A node that is connected to nodes of other lanes stands before one that
/// is drawn further back: the mean places that the nodes are drawn to do
/// not fall along the lane, and nodes that are drawn nowhere come last.
pub proof fn law_lane_follows_its_pulls(lane: Seq<usize>, d: DiagramView, i: int, j: int)
    requires
        0 <= i < j < sorted(pulled(lane, d)).len(),
    ensures
        ({
            let (a, b) = (sorted(pulled(lane, d))[i].1, sorted(pulled(lane, d))[j].1);
            &&& a.count == 0 ==> b.count == 0
            &&& a.count > 0 && b.count > 0 ==> a.sum * b.count <= b.sum * a.count
        }),
{
    let s = pulled(lane, d);
    assert forall|k: int| 0 <= k < s.len() implies is_mean((#[trigger] s[k]).1) by {
        let u = topological(lane, d)[k];
        lemma_pull(lane, d, d.nodes[lane[u] as int].id, d.edges.len() as int);
    }
    lemma_sorted(s);
    let r = sorted(s);
    assert(!earlier(r[j].1, r[i].1));
    assert(is_mean(r[i].1) && is_mean(r[j].1));
}

proof fn lemma_local_rises(nodes: Seq<LaneNodeView>, lane: Seq<char>, k: int)
    requires
        0 <= k <= nodes.len() <= usize::MAX,
    ensures
        forall|i: int|
            0 <= i < local(nodes, lane, k).len() ==> (#[trigger] local(nodes, lane, k)[i]) < k,
        forall|i: int, j: int|
            0 <= i < j < local(nodes, lane, k).len() ==> #[trigger] local(nodes, lane, k)[i]
                < #[trigger] local(nodes, lane, k)[j],
    decreases k,
{
    if k > 0 {
        lemma_local_rises(nodes, lane, k - 1);
        let before = local(nodes, lane, k - 1);
        let after = local(nodes, lane, k);
        assert forall|i: int, j: int| 0 <= i < j < after.len() implies #[trigger] after[i]
            < #[trigger] after[j] by {
            assert(after[i] == before[i]);
            if j < before.len() {
                assert(after[j] == before[j]);
            }
        }
        assert forall|i: int| 0 <= i < after.len() implies (#[trigger] after[i]) < k by {
            if i < before.len() {
                assert(after[i] == before[i]);
            }
        }
    }
}

/// Where a diagram asks for the order of its declarations, the nodes of a
/// lane are stacked in that order.
pub proof fn law_declared_order_is_kept(d: DiagramView, lane: Seq<char>, i: int, j: int)
    requires
        d.config.order == AdvanceOrder::Declaration,
        d.nodes.len() <= usize::MAX,
        0 <= i < j < stack_of(d, lane).len(),
    ensures
        stack_of(d, lane)[i] < stack_of(d, lane)[j],
{
    lemma_local_rises(d.nodes, lane, d.nodes.len() as int);
}

} // verus!
