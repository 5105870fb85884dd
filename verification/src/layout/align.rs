//! Aligning nodes across layers, so that long edges come out straight.
//!
//! Nodes numbered from `n` on are stand-ins. A segment between two
//! stand-ins is an inner segment: nothing may be aligned across it.

use vstd::prelude::*;

use crate::layout::ordering::{all_below, below, rows};
use crate::layout::sorting::{law_sorting_rearranges, sort, sorted, Class, Item};

verus! {

/// The first stand-in among the neighbours from `i` on.
pub open spec fn first_stand_in(ns: Seq<usize>, n: int, i: int) -> Option<usize>
    decreases ns.len() - i,
{
    if i < 0 || i >= ns.len() {
        None
    } else if ns[i] >= n {
        Some(ns[i])
    } else {
        first_stand_in(ns, n, i + 1)
    }
}

/// The upper end of the inner segment that ends in `v`.
pub open spec fn inner_from(v: usize, up: Seq<Seq<usize>>, n: int) -> Option<usize> {
    if v >= n {
        first_stand_in(up[v as int], n, 0)
    } else {
        None
    }
}

/// A pair with its smaller number first.
pub open spec fn pair(u: usize, v: usize) -> (usize, usize) {
    if u < v {
        (u, v)
    } else {
        (v, u)
    }
}

/// The segments into `v` from outside the positions `k0..=k1`, among its
/// first `k`; inner segments do not count.
pub open spec fn node_conflicts(
    v: usize,
    ns: Seq<usize>,
    order: Seq<usize>,
    n: int,
    k0: int,
    k1: int,
    k: int,
) -> Seq<(usize, usize)>
    decreases k,
{
    if k <= 0 {
        Seq::empty()
    } else {
        let before = node_conflicts(v, ns, order, n, k0, k1, k - 1);
        let u = ns[k - 1];
        if (order[u as int] < k0 || order[u as int] > k1) && !(u >= n && v >= n) {
            before.push(pair(u, v))
        } else {
            before
        }
    }
}

/// The conflicts of the nodes `from..to` of a row.
pub open spec fn row_conflicts(
    row: Seq<usize>,
    up: Seq<Seq<usize>>,
    order: Seq<usize>,
    n: int,
    k0: int,
    k1: int,
    from: int,
    to: int,
) -> Seq<(usize, usize)>
    decreases to - from,
{
    if from >= to {
        Seq::empty()
    } else {
        row_conflicts(row, up, order, n, k0, k1, from, to - 1) + node_conflicts(
            row[to - 1],
            up[row[to - 1] as int],
            order,
            n,
            k0,
            k1,
            up[row[to - 1] as int].len() as int,
        )
    }
}

/// The conflicts of a row from node `i` on; the nodes before `scan` were
/// looked at, and `k0` is the position of the last inner segment.
pub open spec fn layer_conflicts(
    row: Seq<usize>,
    above: int,
    up: Seq<Seq<usize>>,
    order: Seq<usize>,
    n: int,
    k0: int,
    scan: int,
    i: int,
) -> Seq<(usize, usize)>
    decreases row.len() - i,
{
    if i < 0 || i >= row.len() {
        Seq::empty()
    } else {
        let w = inner_from(row[i], up, n);
        if w is Some || i + 1 == row.len() {
            let k1 = match w {
                Some(w) => order[w as int] as int,
                None => above,
            };
            row_conflicts(row, up, order, n, k0, k1, scan, i + 1) + layer_conflicts(
                row,
                above,
                up,
                order,
                n,
                k1,
                i + 1,
                i + 1,
            )
        } else {
            layer_conflicts(row, above, up, order, n, k0, scan, i + 1)
        }
    }
}

/// The conflicts of the layers `1..k`.
pub open spec fn conflicts(
    layers: Seq<Seq<usize>>,
    up: Seq<Seq<usize>>,
    order: Seq<usize>,
    n: int,
    k: int,
) -> Seq<(usize, usize)>
    decreases k,
{
    if k <= 1 {
        Seq::empty()
    } else {
        conflicts(layers, up, order, n, k - 1) + layer_conflicts(
            layers[k - 1],
            layers[k - 2].len() as int,
            up,
            order,
            n,
            0,
            0,
            0,
        )
    }
}

fn inner_from_of(v: usize, up: &Vec<Vec<usize>>, n: usize) -> (r: Option<usize>)
    requires
        v < up@.len(),
    ensures
        r == inner_from(v, rows(up@), n as int),
        r matches Some(w) ==> up@[v as int]@.contains(w),
{
    if v < n {
        return None;
    }
    let ns = &up[v];
    assert(rows(up@)[v as int] == ns@);
    let mut i: usize = 0;
    while i < ns.len()
        invariant
            i <= ns@.len(),
            v >= n,
            v < up@.len(),
            *ns == up@[v as int],
            rows(up@)[v as int] == ns@,
            first_stand_in(ns@, n as int, 0) == first_stand_in(ns@, n as int, i as int),
        decreases ns@.len() - i,
    {
        if ns[i] >= n {
            return Some(ns[i]);
        }
        i += 1;
    }
    None
}

/// Mark the segments that cross an inner segment.
pub fn type1_conflicts(
    n: usize,
    layers: &Vec<Vec<usize>>,
    up: &Vec<Vec<usize>>,
    order: &Vec<usize>,
) -> (r: Vec<(usize, usize)>)
    requires
        up@.len() == order@.len(),
        all_below(rows(up@), order@.len() as int),
        all_below(rows(layers@), order@.len() as int),
    ensures
        r@ == conflicts(rows(layers@), rows(up@), order@, n as int, layers@.len() as int),
{
    let ghost lv = rows(layers@);
    let ghost uv = rows(up@);
    let ghost m = order@.len() as int;
    let mut out: Vec<(usize, usize)> = Vec::new();
    let mut l: usize = 1;
    while l < layers.len()
        invariant
            1 <= l,
            layers@.len() > 0 ==> l <= layers@.len(),
            layers@.len() == 0 ==> l == 1,
            lv == rows(layers@),
            uv == rows(up@),
            m == order@.len(),
            up@.len() == m,
            all_below(uv, m),
            all_below(lv, m),
            out@ == conflicts(lv, uv, order@, n as int, l as int),
        decreases layers@.len() - l,
    {
        let ghost start = out@;
        let row = &layers[l];
        assert(lv[l as int] == row@);
        assert(lv[l - 1] == layers@[l - 1]@);
        assert(below(lv[l as int], m));
        let above: usize = layers[l - 1].len();
        let ghost want = layer_conflicts(row@, above as int, uv, order@, n as int, 0, 0, 0);
        let mut k0: usize = 0;
        let mut scan: usize = 0;
        let len: usize = row.len();
        let mut i: usize = 0;
        assert(out@ + want =~= start + want);
        while i < len
            invariant
                i <= len,
                len == row@.len(),
                scan <= i,
                uv == rows(up@),
                m == order@.len(),
                up@.len() == m,
                all_below(uv, m),
                below(row@, m),
                out@ + layer_conflicts(
                    row@,
                    above as int,
                    uv,
                    order@,
                    n as int,
                    k0 as int,
                    scan as int,
                    i as int,
                ) == start + want,
            decreases len - i,
        {
            let ghost before = out@;
            let w = inner_from_of(row[i], up, n);
            if w.is_some() || i + 1 == len {
                let k1: usize = match w {
                    Some(w) => {
                        assert(below(uv[row@[i as int] as int], m));
                        assert(up@[row@[i as int] as int]@.contains(w));
                        order[w]
                    },
                    None => above,
                };
                let mut j: usize = scan;
                assert(out@ =~= before + row_conflicts(
                    row@,
                    uv,
                    order@,
                    n as int,
                    k0 as int,
                    k1 as int,
                    scan as int,
                    j as int,
                ));
                while j < i + 1
                    invariant
                        scan <= j <= i + 1,
                        i < len,
                        len == row@.len(),
                        uv == rows(up@),
                        m == order@.len(),
                        up@.len() == m,
                        all_below(uv, m),
                        below(row@, m),
                        out@ == before + row_conflicts(
                            row@,
                            uv,
                            order@,
                            n as int,
                            k0 as int,
                            k1 as int,
                            scan as int,
                            j as int,
                        ),
                    decreases i + 1 - j,
                {
                    let v = row[j];
                    let ns = &up[v];
                    assert(uv[v as int] == ns@);
                    assert(below(uv[v as int], m));
                    let ghost mid = out@;
                    let mut q: usize = 0;
                    assert(out@ =~= mid + node_conflicts(
                        v,
                        ns@,
                        order@,
                        n as int,
                        k0 as int,
                        k1 as int,
                        0,
                    ));
                    while q < ns.len()
                        invariant
                            q <= ns@.len(),
                            m == order@.len(),
                            below(ns@, m),
                            out@ == mid + node_conflicts(
                                v,
                                ns@,
                                order@,
                                n as int,
                                k0 as int,
                                k1 as int,
                                q as int,
                            ),
                        decreases ns@.len() - q,
                    {
                        let u = ns[q];
                        let p = order[u];
                        if (p < k0 || p > k1) && !(u >= n && v >= n) {
                            out.push(
                                if u < v {
                                    (u, v)
                                } else {
                                    (v, u)
                                },
                            );
                            assert(out@ =~= mid + node_conflicts(
                                v,
                                ns@,
                                order@,
                                n as int,
                                k0 as int,
                                k1 as int,
                                q as int + 1,
                            ));
                        }
                        q += 1;
                    }
                    assert(out@ =~= before + row_conflicts(
                        row@,
                        uv,
                        order@,
                        n as int,
                        k0 as int,
                        k1 as int,
                        scan as int,
                        j as int + 1,
                    ));
                    j += 1;
                }
                assert(out@ + layer_conflicts(
                    row@,
                    above as int,
                    uv,
                    order@,
                    n as int,
                    k1 as int,
                    i as int + 1,
                    i as int + 1,
                ) =~= before + layer_conflicts(
                    row@,
                    above as int,
                    uv,
                    order@,
                    n as int,
                    k0 as int,
                    scan as int,
                    i as int,
                ));
                scan = i + 1;
                k0 = k1;
            }
            i += 1;
        }
        assert(out@ =~= start + want);
        l += 1;
    }
    assert(layers@.len() == 0 ==> conflicts(lv, uv, order@, n as int, 1) =~= Seq::empty());
    out
}

/// The blocks of aligned nodes: the topmost node of each node's block, and
/// the next node of the block, in a ring.
#[verifier::ext_equal]
pub struct Blocks {
    pub root: Seq<usize>,
    pub align: Seq<usize>,
}

pub open spec fn alone(n: nat) -> Blocks {
    Blocks { root: Seq::new(n, |i: int| i as usize), align: Seq::new(n, |i: int| i as usize) }
}

/// Neighbours sorted by their positions.
pub open spec fn by_position(ns: Seq<usize>, order: Seq<usize>) -> Seq<usize> {
    sorted(
        ns.map_values(
            |w: usize|
                Item {
                    class: Class::Valued,
                    num: order[w as int] as u128,
                    den: 1,
                    tie: 0,
                    val: w,
                },
        ),
    ).map_values(|x: Item| x.val)
}

/// The blocks after `v` was joined to `w` where it may be, and the position
/// of the last neighbour that was joined to.
pub open spec fn try_align(
    b: Blocks,
    last: int,
    v: usize,
    w: usize,
    order: Seq<usize>,
    barred: Seq<(usize, usize)>,
) -> (Blocks, int) {
    if b.align[v as int] == v && last < order[w as int] && !barred.contains(pair(v, w)) {
        let r = b.root[w as int];
        (
            Blocks {
                root: b.root.update(v as int, r),
                align: b.align.update(w as int, v).update(v as int, r),
            },
            order[w as int] as int,
        )
    } else {
        (b, last)
    }
}

/// The blocks after `v` tried its median neighbours `i..=hi`.
pub open spec fn align_medians(
    b: Blocks,
    last: int,
    v: usize,
    ws: Seq<usize>,
    i: int,
    hi: int,
    order: Seq<usize>,
    barred: Seq<(usize, usize)>,
) -> (Blocks, int)
    decreases hi - i + 1,
{
    if i > hi {
        (b, last)
    } else {
        let (c, l) = try_align(b, last, v, ws[i], order, barred);
        align_medians(c, l, v, ws, i + 1, hi, order, barred)
    }
}

/// The blocks after the first `k` nodes of a row.
pub open spec fn align_row(
    b: Blocks,
    row: Seq<usize>,
    nbrs: Seq<Seq<usize>>,
    order: Seq<usize>,
    barred: Seq<(usize, usize)>,
    k: int,
) -> (Blocks, int)
    decreases k,
{
    if k <= 0 {
        (b, -1)
    } else {
        let (c, last) = align_row(b, row, nbrs, order, barred, k - 1);
        let v = row[k - 1];
        let m = nbrs[v as int].len() as int;
        if m == 0 {
            (c, last)
        } else {
            align_medians(
                c,
                last,
                v,
                by_position(nbrs[v as int], order),
                (m - 1) / 2,
                m / 2,
                order,
                barred,
            )
        }
    }
}

/// The blocks after the first `k` layers.
pub open spec fn align_layers(
    n: nat,
    layers: Seq<Seq<usize>>,
    nbrs: Seq<Seq<usize>>,
    order: Seq<usize>,
    barred: Seq<(usize, usize)>,
    k: int,
) -> Blocks
    decreases k,
{
    if k <= 0 {
        alone(n)
    } else {
        align_row(
            align_layers(n, layers, nbrs, order, barred, k - 1),
            layers[k - 1],
            nbrs,
            order,
            barred,
            layers[k - 1].len() as int,
        ).0
    }
}

fn holds_pair(s: &Vec<(usize, usize)>, p: (usize, usize)) -> (r: bool)
    ensures
        r == s@.contains(p),
{
    let mut i: usize = 0;
    while i < s.len()
        invariant
            i <= s@.len(),
            forall|j: int| 0 <= j < i ==> s@[j] != p,
        decreases s@.len() - i,
    {
        if s[i].0 == p.0 && s[i].1 == p.1 {
            assert(s@[i as int] == p);
            return true;
        }
        i += 1;
    }
    false
}

fn by_position_of(ns: &Vec<usize>, order: &Vec<usize>) -> (r: Vec<usize>)
    requires
        below(ns@, order@.len() as int),
    ensures
        r@ == by_position(ns@, order@),
        r@.len() == ns@.len(),
        below(r@, order@.len() as int),
{
    let ghost want = ns@.map_values(
        |w: usize|
            Item { class: Class::Valued, num: order@[w as int] as u128, den: 1, tie: 0, val: w },
    );
    let mut items: Vec<Item> = Vec::new();
    let mut i: usize = 0;
    while i < ns.len()
        invariant
            i <= ns@.len(),
            below(ns@, order@.len() as int),
            want == ns@.map_values(
                |w: usize|
                    Item {
                        class: Class::Valued,
                        num: order@[w as int] as u128,
                        den: 1,
                        tie: 0,
                        val: w,
                    },
            ),
            items@ == want.take(i as int),
        decreases ns@.len() - i,
    {
        let w = ns[i];
        items.push(
            Item { class: Class::Valued, num: order[w] as u128, den: 1, tie: 0, val: w },
        );
        assert(items@ =~= want.take(i as int + 1));
        i += 1;
    }
    assert(items@ =~= want);
    let t = sort(&items);
    proof {
        law_sorting_rearranges(want);
        crate::layout::ordering::lemma_vals_rearranged(t@, want);
        assert(want.map_values(|x: Item| x.val) =~= ns@);
        crate::layout::ordering::lemma_below_rearranged(
            t@.map_values(|x: Item| x.val),
            ns@,
            order@.len() as int,
        );
    }
    let mut r: Vec<usize> = Vec::new();
    let mut k: usize = 0;
    while k < t.len()
        invariant
            k <= t@.len(),
            r@ == t@.map_values(|x: Item| x.val).take(k as int),
        decreases t@.len() - k,
    {
        r.push(t[k].val);
        assert(r@ =~= t@.map_values(|x: Item| x.val).take(k as int + 1));
        k += 1;
    }
    assert(r@ =~= t@.map_values(|x: Item| x.val));
    r
}

/// One vertical alignment, from the first layer on: each node tries to
/// join its median neighbours in the layer before.
pub fn vertical_alignment(
    layers: &Vec<Vec<usize>>,
    nbrs: &Vec<Vec<usize>>,
    order: &Vec<usize>,
    barred: &Vec<(usize, usize)>,
) -> (r: (Vec<usize>, Vec<usize>))
    requires
        nbrs@.len() == order@.len(),
        all_below(rows(nbrs@), order@.len() as int),
        all_below(rows(layers@), order@.len() as int),
    ensures
        (Blocks { root: r.0@, align: r.1@ }) == align_layers(
            order@.len(),
            rows(layers@),
            rows(nbrs@),
            order@,
            barred@,
            layers@.len() as int,
        ),
        below(r.0@, order@.len() as int),
        r.0@.len() == order@.len(),
{
    let ghost lv = rows(layers@);
    let ghost nv = rows(nbrs@);
    let n: usize = order.len();
    let mut root: Vec<usize> = Vec::new();
    let mut align: Vec<usize> = Vec::new();
    let mut i: usize = 0;
    while i < n
        invariant
            i <= n,
            root@ == alone(n as nat).root.take(i as int),
            below(root@, n as int),
            root@.len() == i,
            align@ == alone(n as nat).align.take(i as int),
        decreases n - i,
    {
        root.push(i);
        align.push(i);
        assert(root@ =~= alone(n as nat).root.take(i as int + 1));
        assert(align@ =~= alone(n as nat).align.take(i as int + 1));
        i += 1;
    }
    assert(root@ =~= alone(n as nat).root);
    assert(align@ =~= alone(n as nat).align);
    let mut l: usize = 0;
    while l < layers.len()
        invariant
            l <= layers@.len(),
            lv == rows(layers@),
            nv == rows(nbrs@),
            n == order@.len(),
            nbrs@.len() == n,
            all_below(nv, n as int),
            all_below(lv, n as int),
            root@.len() == n,
            below(root@, n as int),
            align@.len() == n,
            (Blocks { root: root@, align: align@ }) == align_layers(
                n as nat,
                lv,
                nv,
                order@,
                barred@,
                l as int,
            ),
        decreases layers@.len() - l,
    {
        let ghost start = Blocks { root: root@, align: align@ };
        let row = &layers[l];
        assert(lv[l as int] == row@);
        assert(below(lv[l as int], n as int));
        let mut last: Option<usize> = None;
        let mut k: usize = 0;
        while k < row.len()
            invariant
                k <= row@.len(),
                nv == rows(nbrs@),
                n == order@.len(),
                nbrs@.len() == n,
                all_below(nv, n as int),
                below(row@, n as int),
                root@.len() == n,
            below(root@, n as int),
                align@.len() == n,
                align_row(start, row@, nv, order@, barred@, k as int) == (
                    Blocks { root: root@, align: align@ },
                    match last {
                        Some(x) => x as int,
                        None => -1,
                    },
                ),
            decreases row@.len() - k,
        {
            let v = row[k];
            let ns = &nbrs[v];
            assert(nv[v as int] == ns@);
            assert(below(nv[v as int], n as int));
            let m: usize = ns.len();
            if m > 0 {
                let ws = by_position_of(ns, order);
                let hi: usize = m / 2;
                let ghost goal = align_medians(
                    Blocks { root: root@, align: align@ },
                    match last {
                        Some(x) => x as int,
                        None => -1,
                    },
                    v,
                    ws@,
                    (m - 1) / 2,
                    hi as int,
                    order@,
                    barred@,
                );
                let mut j: usize = (m - 1) / 2;
                while j <= hi
                    invariant
                        j <= hi + 1,
                        hi < m,
                        m == ws@.len(),
                        n == order@.len(),
                        v < n,
                        below(ws@, n as int),
                        root@.len() == n,
            below(root@, n as int),
                        align@.len() == n,
                        goal == align_medians(
                            Blocks { root: root@, align: align@ },
                            match last {
                                Some(x) => x as int,
                                None => -1,
                            },
                            v,
                            ws@,
                            j as int,
                            hi as int,
                            order@,
                            barred@,
                        ),
                    decreases hi + 1 - j,
                {
                    let w = ws[j];
                    let free = match last {
                        Some(x) => x < order[w],
                        None => true,
                    };
                    let p = if v < w {
                        (v, w)
                    } else {
                        (w, v)
                    };
                    if align[v] == v && free && !holds_pair(barred, p) {
                        let r = root[w];
                        align[w] = v;
                        root[v] = r;
                        align[v] = r;
                        last = Some(order[w]);
                    }
                    j += 1;
                }
            }
            k += 1;
        }
        l += 1;
    }
    (root, align)
}

} // verus!
