//! Blocks of aligned nodes do not cross.

use vstd::prelude::*;

use crate::layout::align::{
    align_layers, align_medians, align_row, by_position, try_align, Blocks,
};
use crate::layout::compact_laws::increasing;
use crate::layout::ordering::lemma_vals_rearranged;
use crate::layout::sorting::{law_sorting_rearranges, Class, Item};

verus! {

/// Whether neighbours stand in the row before row `t`, at their positions.
pub open spec fn steps_back(
    ns: Seq<usize>,
    at: Seq<int>,
    t: int,
    order: Seq<usize>,
    prev: Seq<usize>,
) -> bool {
    forall|x: int|
        0 <= x < ns.len() ==> (#[trigger] ns[x]) < at.len() && at[ns[x] as int] == t - 1
            && order[ns[x] as int] < prev.len() && prev[order[ns[x] as int] as int] == ns[x]
}

/// Sorting neighbours leaves them where they stand.
proof fn lemma_sorted_back(
    ns: Seq<usize>,
    at: Seq<int>,
    t: int,
    order: Seq<usize>,
    prev: Seq<usize>,
)
    requires
        steps_back(ns, at, t, order, prev),
    ensures
        steps_back(by_position(ns, order), at, t, order, prev),
        by_position(ns, order).len() == ns.len(),
{
    broadcast use vstd::seq_lib::group_to_multiset_ensures;

    let items = ns.map_values(
        |w: usize|
            Item { class: Class::Valued, num: order[w as int] as u128, den: 1, tie: 0, val: w },
    );
    law_sorting_rearranges(items);
    lemma_vals_rearranged(crate::layout::sorting::sorted(items), items);
    assert(items.map_values(|x: Item| x.val) =~= ns);
    let ws = by_position(ns, order);
    assert(ws.to_multiset() == ns.to_multiset());
    assert forall|x: int| 0 <= x < ws.len() implies (#[trigger] ws[x]) < at.len() && at[ws[x] as int]
        == t - 1 && order[ws[x] as int] < prev.len() && prev[order[ws[x] as int] as int] == ws[x] by {
        assert(ws.to_multiset().count(ws[x]) > 0);
        assert(ns.contains(ws[x]));
        let j = choose|j: int| 0 <= j < ns.len() && ns[j] == ws[x];
        assert(ns[j] < at.len());
    }
}

proof fn lemma_joined(
    b: Blocks,
    last: int,
    v: usize,
    ws: Seq<usize>,
    i: int,
    hi: int,
    order: Seq<usize>,
    barred: Seq<(usize, usize)>,
)
    requires
        b.align[v as int] != v,
    ensures
        align_medians(b, last, v, ws, i, hi, order, barred) == (b, last),
    decreases hi - i + 1,
{
    if i <= hi {
        lemma_joined(b, last, v, ws, i + 1, hi, order, barred);
    }
}

/// What joining `v` to the node at position `q` of the row before makes of
/// the blocks; `q` is negative where `v` stays alone.
spec fn after_join(b: Blocks, v: usize, prev: Seq<usize>, q: int) -> Blocks {
    if q < 0 {
        b
    } else {
        let r = b.root[prev[q] as int];
        Blocks {
            root: b.root.update(v as int, r),
            align: b.align.update(prev[q] as int, v).update(v as int, r),
        }
    }
}

/// A node joins at most one of its median neighbours, to the right of the
/// last one that was joined to.
proof fn lemma_medians(
    b: Blocks,
    last: int,
    v: usize,
    ws: Seq<usize>,
    i: int,
    hi: int,
    order: Seq<usize>,
    barred: Seq<(usize, usize)>,
    at: Seq<int>,
    t: int,
    prev: Seq<usize>,
) -> (q: int)
    requires
        0 <= i,
        hi < ws.len(),
        -1 <= last,
        steps_back(ws, at, t, order, prev),
        b.root.len() == at.len(),
        b.align.len() == at.len(),
        v < at.len(),
        at[v as int] == t,
        b.align[v as int] == v,
        forall|u: int|
            0 <= u < at.len() && #[trigger] at[u] < t ==> b.root[u] < at.len() && at[b.root[u] as int]
                <= at[u],
    ensures
        -1 <= q < prev.len(),
        q >= 0 ==> last < q && prev[q] < at.len() && at[prev[q] as int] == t - 1,
        align_medians(b, last, v, ws, i, hi, order, barred) == (
            after_join(b, v, prev, q),
            if q < 0 {
                last
            } else {
                q
            },
        ),
    decreases hi - i + 1,
{
    if i > hi {
        -1
    } else {
        let w = ws[i];
        assert(at[w as int] == t - 1);
        let (c, l) = try_align(b, last, v, w, order, barred);
        if b.align[v as int] == v && last < order[w as int] && !barred.contains(
            crate::layout::align::pair(v, w),
        ) {
            let r = b.root[w as int];
            assert(at[r as int] <= t - 1);
            assert(c.align[v as int] == r && r != v);
            lemma_joined(c, l, v, ws, i + 1, hi, order, barred);
            order[w as int] as int
        } else {
            lemma_medians(b, last, v, ws, i + 1, hi, order, barred, at, t, prev)
        }
    }
}

/// What is known of blocks before row `t` is aligned.
pub open spec fn blocks_before(b: Blocks, at: Seq<int>, t: int) -> bool {
    &&& b.root.len() == at.len()
    &&& b.align.len() == at.len()
    &&& forall|u: int|
        0 <= u < at.len() && #[trigger] at[u] < t ==> b.root[u] < at.len() && at[b.root[u] as int]
            <= at[u]
    &&& forall|u: int|
        0 <= u < at.len() && #[trigger] at[u] >= t ==> b.root[u] == u && b.align[u] == u
}

/// Whether a row is row `t`: without repetitions, and all of its nodes and
/// neighbours are where they should be.
pub open spec fn row_at(
    row: Seq<usize>,
    nbrs: Seq<Seq<usize>>,
    at: Seq<int>,
    t: int,
    order: Seq<usize>,
    prev: Seq<usize>,
) -> bool {
    &&& row.no_duplicates()
    &&& forall|i: int|
        0 <= i < row.len() ==> (#[trigger] row[i]) < at.len() && at[row[i] as int] == t
            && steps_back(nbrs[row[i] as int], at, t, order, prev)
}

/// Whether the first `k` nodes of a row joined the nodes at the positions
/// `q` of the row before, from left to right.
spec fn row_joined(
    b: Blocks,
    c: Blocks,
    row: Seq<usize>,
    prev: Seq<usize>,
    at: Seq<int>,
    t: int,
    q: Seq<int>,
    last: int,
) -> bool {
    let k = q.len() as int;
    &&& c.root.len() == at.len() && c.align.len() == at.len()
    &&& forall|u: int| 0 <= u < at.len() && #[trigger] at[u] != t ==> c.root[u] == b.root[u]
    &&& forall|u: int| 0 <= u < at.len() && #[trigger] at[u] > t ==> c.align[u] == u
    &&& forall|i: int|
        k <= i < row.len() ==> c.root[(#[trigger] row[i]) as int] == row[i] && c.align[row[i] as int]
            == row[i]
    &&& forall|i: int|
        0 <= i < k ==> -1 <= (#[trigger] q[i]) < prev.len() && q[i] <= last && c.root[row[i] as int]
            == (if q[i] < 0 {
            row[i]
        } else {
            b.root[prev[q[i]] as int]
        }) && (q[i] >= 0 ==> prev[q[i]] < at.len() && at[prev[q[i]] as int] == t - 1)
    &&& forall|i: int, j: int|
        0 <= i < j < k && (#[trigger] q[i]) >= 0 && (#[trigger] q[j]) >= 0 ==> q[i] < q[j]
    &&& -1 <= last
}

/// What one more node of a row does.
proof fn lemma_row_step(
    b: Blocks,
    c: Blocks,
    row: Seq<usize>,
    prev: Seq<usize>,
    at: Seq<int>,
    t: int,
    q: Seq<int>,
    last: int,
    e: int,
)
    requires
        row.no_duplicates(),
        forall|i: int|
            0 <= i < row.len() ==> (#[trigger] row[i]) < at.len() && at[row[i] as int] == t,
        q.len() < row.len(),
        row_joined(b, c, row, prev, at, t, q, last),
        -1 <= e < prev.len(),
        e >= 0 ==> last < e && prev[e] < at.len() && at[prev[e] as int] == t - 1,
    ensures
        row_joined(
            b,
            after_join(c, row[q.len() as int], prev, e),
            row,
            prev,
            at,
            t,
            q.push(e),
            if e < 0 {
                last
            } else {
                e
            },
        ),
{
    let k = q.len() + 1;
    let v = row[k - 1];
    let d = after_join(c, v, prev, e);
    let r = q.push(e);
    let end = if e < 0 {
        last
    } else {
        e
    };
    assert(v < at.len() && at[v as int] == t);
    if e >= 0 {
        assert(c.root[prev[e] as int] == b.root[prev[e] as int]);
    }
    assert forall|i: int| k <= i < row.len() implies d.root[(#[trigger] row[i]) as int] == row[i]
        && d.align[row[i] as int] == row[i] by {
        assert(row[i] != v);
        assert(at[row[i] as int] == t);
        assert(c.root[row[i] as int] == row[i]);
    }
    assert forall|i: int| 0 <= i < k implies -1 <= (#[trigger] r[i]) < prev.len() && r[i] <= end
        && d.root[row[i] as int] == (if r[i] < 0 {
        row[i]
    } else {
        b.root[prev[r[i]] as int]
    }) && (r[i] >= 0 ==> prev[r[i]] < at.len() && at[prev[r[i]] as int] == t - 1) by {
        if i < k - 1 {
            assert(r[i] == q[i]);
            assert(row[i] != v);
            assert(row[i] < at.len());
        } else {
            assert(c.root[v as int] == v);
        }
    }
    assert forall|i: int, j: int|
        0 <= i < j < k && (#[trigger] r[i]) >= 0 && (#[trigger] r[j]) >= 0 implies r[i] < r[j] by {
        assert(r[i] == q[i]);
        if j < k - 1 {
            assert(r[j] == q[j]);
        } else {
            assert(q[i] <= last);
        }
    }
}

/// Which node of the row before the next node of a row joins.
proof fn lemma_choice(
    b: Blocks,
    c: Blocks,
    row: Seq<usize>,
    nbrs: Seq<Seq<usize>>,
    order: Seq<usize>,
    barred: Seq<(usize, usize)>,
    at: Seq<int>,
    t: int,
    prev: Seq<usize>,
    q: Seq<int>,
    last: int,
) -> (e: int)
    requires
        blocks_before(b, at, t),
        row_at(row, nbrs, at, t, order, prev),
        q.len() < row.len(),
        row_joined(b, c, row, prev, at, t, q, last),
        (c, last) == align_row(b, row, nbrs, order, barred, q.len() as int),
    ensures
        -1 <= e < prev.len(),
        e >= 0 ==> last < e && prev[e] < at.len() && at[prev[e] as int] == t - 1,
        align_row(b, row, nbrs, order, barred, q.len() as int + 1) == (
            after_join(c, row[q.len() as int], prev, e),
            if e < 0 {
                last
            } else {
                e
            },
        ),
{
    let v = row[q.len() as int];
    let ns = nbrs[v as int];
    let m = ns.len() as int;
    assert(v < at.len() && at[v as int] == t && steps_back(ns, at, t, order, prev));
    assert(c.align[v as int] == v);
    if m == 0 {
        -1
    } else {
        lemma_sorted_back(ns, at, t, order, prev);
        assert forall|u: int| 0 <= u < at.len() && #[trigger] at[u] < t implies c.root[u] < at.len()
            && at[c.root[u] as int] <= at[u] by {
            assert(c.root[u] == b.root[u]);
        }
        lemma_medians(
            c,
            last,
            v,
            by_position(ns, order),
            (m - 1) / 2,
            m / 2,
            order,
            barred,
            at,
            t,
            prev,
        )
    }
}

proof fn lemma_row(
    b: Blocks,
    row: Seq<usize>,
    nbrs: Seq<Seq<usize>>,
    order: Seq<usize>,
    barred: Seq<(usize, usize)>,
    at: Seq<int>,
    t: int,
    prev: Seq<usize>,
    k: int,
) -> (q: Seq<int>)
    requires
        blocks_before(b, at, t),
        row_at(row, nbrs, at, t, order, prev),
        0 <= k <= row.len(),
    ensures
        q.len() == k,
        row_joined(
            b,
            align_row(b, row, nbrs, order, barred, k).0,
            row,
            prev,
            at,
            t,
            q,
            align_row(b, row, nbrs, order, barred, k).1,
        ),
    decreases k,
{
    if k <= 0 {
        assert forall|i: int| 0 <= i < row.len() implies b.root[(#[trigger] row[i]) as int] == row[i]
            && b.align[row[i] as int] == row[i] by {
            assert(at[row[i] as int] == t);
        }
        Seq::empty()
    } else {
        let q = lemma_row(b, row, nbrs, order, barred, at, t, prev, k - 1);
        let (c, last) = align_row(b, row, nbrs, order, barred, k - 1);
        let e = lemma_choice(b, c, row, nbrs, order, barred, at, t, prev, q, last);
        lemma_row_step(b, c, row, prev, at, t, q, last, e);
        q.push(e)
    }
}

/// The rank that node `i` of a row starts from: that of the last block to
/// its left that reaches the row, else `low`.
spec fn base(f: Seq<int>, root: Seq<usize>, prev: Seq<usize>, q: Seq<int>, low: int, i: int) -> int
    decreases i + 1,
{
    if i < 0 {
        low
    } else if q[i] >= 0 {
        f[root[prev[q[i]] as int] as int]
    } else {
        base(f, root, prev, q, low, i - 1)
    }
}

/// Where a rank comes from.
proof fn lemma_base(
    f: Seq<int>,
    root: Seq<usize>,
    prev: Seq<usize>,
    q: Seq<int>,
    low: int,
    i: int,
) -> (a: int)
    requires
        i < q.len(),
    ensures
        -1 <= a <= i || (i < 0 && a == -1),
        a < 0 ==> base(f, root, prev, q, low, i) == low,
        a >= 0 ==> q[a] >= 0 && base(f, root, prev, q, low, i) == f[root[prev[q[a]] as int] as int],
    decreases i + 1,
{
    if i < 0 {
        -1
    } else if q[i] >= 0 {
        i
    } else {
        lemma_base(f, root, prev, q, low, i - 1)
    }
}

proof fn lemma_base_rises(
    f: Seq<int>,
    root: Seq<usize>,
    prev: Seq<usize>,
    q: Seq<int>,
    low: int,
    i: int,
    j: int,
)
    requires
        0 <= i <= j < q.len(),
        increasing(f, root, prev),
        forall|x: int| 0 <= x < q.len() ==> (#[trigger] q[x]) < prev.len(),
        forall|x: int|
            0 <= x < q.len() && (#[trigger] q[x]) >= 0 ==> low < f[root[prev[q[x]] as int] as int],
        forall|x: int, y: int|
            0 <= x < y < q.len() && (#[trigger] q[x]) >= 0 && (#[trigger] q[y]) >= 0 ==> q[x] < q[y],
    ensures
        base(f, root, prev, q, low, i) <= base(f, root, prev, q, low, j),
    decreases j,
{
    if i < j {
        if q[j] >= 0 {
            let a = lemma_base(f, root, prev, q, low, i);
            if a >= 0 {
                assert(q[a] < q[j]);
                assert(f[root[prev[q[a]] as int] as int] < f[root[prev[q[j]] as int] as int]);
            }
        } else {
            lemma_base_rises(f, root, prev, q, low, i, j - 1);
        }
    }
}

proof fn lemma_floor(f: Seq<int>, k: int) -> (low: int)
    requires
        0 <= k <= f.len(),
    ensures
        forall|i: int| 0 <= i < k ==> low < #[trigger] f[i],
    decreases k,
{
    if k <= 0 {
        0
    } else {
        let low = lemma_floor(f, k - 1);
        if low < f[k - 1] {
            low
        } else {
            f[k - 1] - 1
        }
    }
}

/// Whether block `r` reaches node `i` of a row.
spec fn reaches(root: Seq<usize>, row: Seq<usize>, r: int, i: int) -> bool {
    0 <= i < row.len() && root[row[i] as int] == r
}

/// Ranks of blocks once one more row was aligned.
spec fn reranked(
    f: Seq<int>,
    b: Blocks,
    c: Blocks,
    row: Seq<usize>,
    prev: Seq<usize>,
    q: Seq<int>,
    low: int,
) -> Seq<int> {
    let n = row.len() as int + 1;
    Seq::new(
        f.len(),
        |r: int|
            if exists|i: int| #[trigger] reaches(c.root, row, r, i) {
                let i = choose|i: int| #[trigger] reaches(c.root, row, r, i);
                base(f, b.root, prev, q, low, i) * n + i
            } else {
                f[r] * n
            },
    )
}

/// Every block reaches a row at most once.
proof fn lemma_reaches_once(
    f: Seq<int>,
    b: Blocks,
    c: Blocks,
    row: Seq<usize>,
    nbrs: Seq<Seq<usize>>,
    order: Seq<usize>,
    prev: Seq<usize>,
    at: Seq<int>,
    t: int,
    q: Seq<int>,
    last: int,
    i: int,
    j: int,
)
    requires
        f.len() == at.len(),
        blocks_before(b, at, t),
        row_at(row, nbrs, at, t, order, prev),
        row_joined(b, c, row, prev, at, t, q, last),
        q.len() == row.len(),
        increasing(f, b.root, prev),
        0 <= i < j < row.len(),
    ensures
        c.root[row[i] as int] != c.root[row[j] as int],
{
    assert(row[i] != row[j]);
    assert(q[i] < prev.len() && q[j] < prev.len());
    assert(at[row[i] as int] == t && at[row[j] as int] == t);
    if q[i] >= 0 {
        assert(at[b.root[prev[q[i]] as int] as int] <= t - 1);
    }
    if q[j] >= 0 {
        assert(at[b.root[prev[q[j]] as int] as int] <= t - 1);
    }
    if q[i] >= 0 && q[j] >= 0 {
        assert(q[i] < q[j]);
        assert(f[b.root[prev[q[i]] as int] as int] < f[b.root[prev[q[j]] as int] as int]);
    }
}

/// A rank within the `n` ranks above `x`.
proof fn lemma_scaled(x: int, y: int, n: int, c: int, d: int)
    requires
        x < y || (x == y && c < d),
        0 <= c < n,
        0 <= d,
    ensures
        x * n + c < y * n + d,
{
    if x < y {
        assert((x + 1) * n <= y * n) by (nonlinear_arith)
            requires
                x + 1 <= y,
                0 <= n,
        ;
        assert((x + 1) * n == x * n + n) by (nonlinear_arith);
    }
}

/// Whether rows are the rows of a layered graph, with all nodes, and with
/// neighbours in the row before.
pub open spec fn rows_at(
    layers: Seq<Seq<usize>>,
    nbrs: Seq<Seq<usize>>,
    at: Seq<int>,
    order: Seq<usize>,
) -> bool {
    forall|t: int|
        0 <= t < layers.len() ==> row_at(
            #[trigger] layers[t],
            nbrs,
            at,
            t,
            order,
            if t == 0 {
                Seq::empty()
            } else {
                layers[t - 1]
            },
        ) && forall|u: int|
            0 <= u < at.len() && #[trigger] at[u] == t ==> exists|i: int|
                0 <= i < layers[t].len() && layers[t][i] == u
}

/// The next row keeps its rank order.
proof fn lemma_new_row(
    f: Seq<int>,
    b: Blocks,
    c: Blocks,
    row: Seq<usize>,
    nbrs: Seq<Seq<usize>>,
    order: Seq<usize>,
    prev: Seq<usize>,
    at: Seq<int>,
    t: int,
    q: Seq<int>,
    last: int,
    low: int,
)
    requires
        f.len() == at.len(),
        blocks_before(b, at, t),
        row_at(row, nbrs, at, t, order, prev),
        row_joined(b, c, row, prev, at, t, q, last),
        q.len() == row.len(),
        increasing(f, b.root, prev),
        forall|i: int| 0 <= i < f.len() ==> low < #[trigger] f[i],
    ensures
        increasing(reranked(f, b, c, row, prev, q, low), c.root, row),
        forall|i: int|
            0 <= i < row.len() ==> c.root[(#[trigger] row[i]) as int] < at.len() && reranked(
                f,
                b,
                c,
                row,
                prev,
                q,
                low,
            )[c.root[row[i] as int] as int] == base(f, b.root, prev, q, low, i) * (row.len() + 1)
                + i,
{
    let g = reranked(f, b, c, row, prev, q, low);
    let n = row.len() as int + 1;
    assert forall|x: int| 0 <= x < q.len() && (#[trigger] q[x]) >= 0 implies low
        < f[b.root[prev[q[x]] as int] as int] by {
        assert(at[prev[q[x]] as int] == t - 1);
        assert(b.root[prev[q[x]] as int] < at.len());
    }
    assert forall|i: int| 0 <= i < row.len() implies c.root[(#[trigger] row[i]) as int] < at.len()
        && g[c.root[row[i] as int] as int] == base(f, b.root, prev, q, low, i) * n + i by {
        assert(q[i] < prev.len());
        if q[i] >= 0 {
            assert(at[prev[q[i]] as int] == t - 1);
        }
        let r = c.root[row[i] as int] as int;
        assert(reaches(c.root, row, r, i));
        let j = choose|j: int| #[trigger] reaches(c.root, row, r, j);
        assert(reaches(c.root, row, r, j));
        if i < j {
            lemma_reaches_once(f, b, c, row, nbrs, order, prev, at, t, q, last, i, j);
        } else if j < i {
            lemma_reaches_once(f, b, c, row, nbrs, order, prev, at, t, q, last, j, i);
        }
    }
    assert forall|i: int, j: int| 0 <= i < j < row.len() implies g[c.root[(
    #[trigger] row[i]) as int] as int] < g[c.root[(#[trigger] row[j]) as int] as int] by {
        lemma_base_rises(f, b.root, prev, q, low, i, j);
        lemma_scaled(
            base(f, b.root, prev, q, low, i),
            base(f, b.root, prev, q, low, j),
            n,
            i,
            j,
        );
    }
}

/// Earlier rows keep their rank order.
proof fn lemma_old_row(
    f: Seq<int>,
    b: Blocks,
    c: Blocks,
    row: Seq<usize>,
    nbrs: Seq<Seq<usize>>,
    order: Seq<usize>,
    prev: Seq<usize>,
    at: Seq<int>,
    t: int,
    q: Seq<int>,
    last: int,
    low: int,
    old_row: Seq<usize>,
    s: int,
)
    requires
        f.len() == at.len(),
        blocks_before(b, at, t),
        row_at(row, nbrs, at, t, order, prev),
        row_joined(b, c, row, prev, at, t, q, last),
        q.len() == row.len(),
        0 <= s < t,
        increasing(f, b.root, old_row),
        forall|i: int|
            0 <= i < old_row.len() ==> (#[trigger] old_row[i]) < at.len() && at[old_row[i] as int]
                == s,
    ensures
        increasing(reranked(f, b, c, row, prev, q, low), c.root, old_row),
{
    let g = reranked(f, b, c, row, prev, q, low);
    let n = row.len() as int + 1;
    assert forall|i: int, j: int| 0 <= i < j < old_row.len() implies g[c.root[(
    #[trigger] old_row[i]) as int] as int] < g[c.root[(#[trigger] old_row[j]) as int] as int] by {
        let x = lemma_old_rank(f, b, c, row, nbrs, order, prev, at, t, q, last, low, old_row[i]);
        let y = lemma_old_rank(f, b, c, row, nbrs, order, prev, at, t, q, last, low, old_row[j]);
        assert(at[old_row[i] as int] == s && at[old_row[j] as int] == s);
        lemma_scaled(
            f[b.root[old_row[i] as int] as int],
            f[b.root[old_row[j] as int] as int],
            n,
            x,
            y,
        );
    }
}

/// The blocks of earlier rows keep their ranks, up to the scale.
proof fn lemma_old_rank(
    f: Seq<int>,
    b: Blocks,
    c: Blocks,
    row: Seq<usize>,
    nbrs: Seq<Seq<usize>>,
    order: Seq<usize>,
    prev: Seq<usize>,
    at: Seq<int>,
    t: int,
    q: Seq<int>,
    last: int,
    low: int,
    u: usize,
) -> (x: int)
    requires
        f.len() == at.len(),
        blocks_before(b, at, t),
        row_at(row, nbrs, at, t, order, prev),
        row_joined(b, c, row, prev, at, t, q, last),
        q.len() == row.len(),
        u < at.len(),
        at[u as int] < t,
    ensures
        0 <= x < row.len() + 1,
        c.root[u as int] == b.root[u as int],
        reranked(f, b, c, row, prev, q, low)[c.root[u as int] as int] == f[b.root[u as int] as int]
            * (row.len() + 1) + x,
{
    let g = reranked(f, b, c, row, prev, q, low);
    assert(c.root[u as int] == b.root[u as int]);
    let r = b.root[u as int] as int;
    assert(r < at.len() && at[r] < t);
    if exists|i: int| #[trigger] reaches(c.root, row, r, i) {
        let i = choose|i: int| #[trigger] reaches(c.root, row, r, i);
        assert(at[row[i] as int] == t);
        assert(q[i] < prev.len());
        assert(q[i] >= 0);
        assert(b.root[prev[q[i]] as int] == r);
        i
    } else {
        0
    }
}

/// The row before row `t`.
spec fn row_before(layers: Seq<Seq<usize>>, t: int) -> Seq<usize> {
    if t == 0 {
        Seq::empty()
    } else {
        layers[t - 1]
    }
}

/// One more row, with ranks.
proof fn lemma_ranked(
    layers: Seq<Seq<usize>>,
    nbrs: Seq<Seq<usize>>,
    order: Seq<usize>,
    at: Seq<int>,
    t: int,
    f: Seq<int>,
    b: Blocks,
    c: Blocks,
    q: Seq<int>,
    last: int,
) -> (g: Seq<int>)
    requires
        rows_at(layers, nbrs, at, order),
        0 <= t < layers.len(),
        f.len() == at.len(),
        blocks_before(b, at, t),
        forall|s: int| 0 <= s < t ==> increasing(f, b.root, #[trigger] layers[s]),
        row_joined(b, c, layers[t], row_before(layers, t), at, t, q, last),
        q.len() == layers[t].len(),
    ensures
        g.len() == at.len(),
        blocks_before(c, at, t + 1),
        forall|s: int| 0 <= s < t + 1 ==> increasing(g, c.root, #[trigger] layers[s]),
{
    let row = layers[t];
    let prev = row_before(layers, t);
    assert(row_at(row, nbrs, at, t, order, prev));
    assert(increasing(f, b.root, prev)) by {
        if t > 0 {
            assert(increasing(f, b.root, layers[t - 1]));
        }
    }
    let low = lemma_floor(f, f.len() as int);
    let g = reranked(f, b, c, row, prev, q, low);
    lemma_new_row(f, b, c, row, nbrs, order, prev, at, t, q, last, low);
    assert forall|s: int| 0 <= s < t + 1 implies increasing(g, c.root, #[trigger] layers[s]) by {
        if s < t {
            assert(row_at(layers[s], nbrs, at, s, order, row_before(layers, s)));
            lemma_old_row(f, b, c, row, nbrs, order, prev, at, t, q, last, low, layers[s], s);
        }
    }
    lemma_blocks_after(b, c, row, nbrs, order, prev, at, t, q, last);
    g
}

/// Blocks can be ranked so that every row goes through higher and higher
/// ones: they do not cross.
pub proof fn law_blocks_do_not_cross(
    layers: Seq<Seq<usize>>,
    nbrs: Seq<Seq<usize>>,
    order: Seq<usize>,
    barred: Seq<(usize, usize)>,
    at: Seq<int>,
    k: int,
) -> (f: Seq<int>)
    requires
        rows_at(layers, nbrs, at, order),
        forall|v: int| 0 <= v < at.len() ==> 0 <= #[trigger] at[v],
        at.len() <= usize::MAX,
        0 <= k <= layers.len(),
    ensures
        f.len() == at.len(),
        blocks_before(align_layers(at.len(), layers, nbrs, order, barred, k), at, k),
        forall|t: int|
            0 <= t < k ==> increasing(
                f,
                align_layers(at.len(), layers, nbrs, order, barred, k).root,
                #[trigger] layers[t],
            ),
    decreases k,
{
    if k <= 0 {
        Seq::new(at.len(), |i: int| 0int)
    } else {
        let f = law_blocks_do_not_cross(layers, nbrs, order, barred, at, k - 1);
        let b = align_layers(at.len(), layers, nbrs, order, barred, k - 1);
        let t = k - 1;
        let row = layers[t];
        let prev = row_before(layers, t);
        assert(row_at(row, nbrs, at, t, order, prev));
        let q = lemma_row(b, row, nbrs, order, barred, at, t, prev, row.len() as int);
        let (c, last) = align_row(b, row, nbrs, order, barred, row.len() as int);
        lemma_ranked(layers, nbrs, order, at, t, f, b, c, q, last)
    }
}

/// What is known of blocks once a row was aligned.
proof fn lemma_blocks_after(
    b: Blocks,
    c: Blocks,
    row: Seq<usize>,
    nbrs: Seq<Seq<usize>>,
    order: Seq<usize>,
    prev: Seq<usize>,
    at: Seq<int>,
    t: int,
    q: Seq<int>,
    last: int,
)
    requires
        blocks_before(b, at, t),
        row_at(row, nbrs, at, t, order, prev),
        row_joined(b, c, row, prev, at, t, q, last),
        q.len() == row.len(),
        forall|u: int|
            0 <= u < at.len() && #[trigger] at[u] == t ==> exists|i: int|
                0 <= i < row.len() && row[i] == u,
    ensures
        blocks_before(c, at, t + 1),
{
    assert forall|u: int| 0 <= u < at.len() && #[trigger] at[u] < t + 1 implies c.root[u] < at.len()
        && at[c.root[u] as int] <= at[u] by {
        if at[u] < t {
            assert(c.root[u] == b.root[u]);
        } else {
            let i = choose|i: int| 0 <= i < row.len() && row[i] == u;
            assert(q[i] < prev.len());
            if q[i] >= 0 {
                assert(at[prev[q[i]] as int] == t - 1);
            }
        }
    }
}

} // verus!
