//! Blocks of aligned nodes pushed together.

use vstd::prelude::*;

use crate::advance::place::lengths::{bounded, multiple, sum, times};
use crate::advance::route::geometry::{half, most};
use crate::advance::scene::Px;
use crate::peel::indices;
use crate::layout::clusters::{agree, WallSide};
use crate::layout::ordering::{all_below, below, rows};

verus! {

/// Gap between nodes of a layer.
pub const GAP_B: Px = 3200000;

/// Gap between the stand-ins of edges.
pub const EDGE_GAP: Px = 1152000;

/// Room for each subgraph boundary between neighbours.
pub const CLUSTER_PAD: Px = 1152000;

/// Gap between a subgraph's wall and its members.
pub const BORDER_GAP: Px = 256000;

/// What separations are computed from: the number of nodes that are no
/// stand-ins, the breadth of every node, and, where there are subgraphs,
/// their paths and walls.
pub struct Breadths<'a> {
    pub n: usize,
    pub sizes: &'a Vec<Px>,
    pub clustered: bool,
    pub paths: &'a Vec<Vec<usize>>,
    pub sides: &'a Vec<WallSide>,
}

/// How many subgraph boundaries lie between two paths.
pub open spec fn boundaries(a: Seq<usize>, b: Seq<usize>) -> int {
    let c = agree(indices(a), indices(b), 0);
    (a.len() - c) + (b.len() - c)
}

fn cluster_gap(a: &Vec<usize>, b: &Vec<usize>) -> (r: Px)
    ensures
        r == times(boundaries(a@, b@), CLUSTER_PAD as int),
        bounded(r as int),
{
    let ghost x = indices(a@);
    let ghost y = indices(b@);
    let mut k: usize = 0;
    while k < a.len() && k < b.len() && a[k] == b[k]
        invariant
            k <= a@.len(),
            k <= b@.len(),
            x == indices(a@),
            y == indices(b@),
            agree(x, y, 0) == agree(x, y, k as int),
        decreases a@.len() - k,
    {
        k += 1;
    }
    assert(agree(x, y, k as int) == k);
    let p: usize = a.len() - k;
    let q: usize = b.len() - k;
    let one: Px = multiple(p, CLUSTER_PAD);
    let two: Px = multiple(q, CLUSTER_PAD);
    let r: Px = sum(one, two);
    proof {
        assert((p + q) * CLUSTER_PAD == p * CLUSTER_PAD + q * CLUSTER_PAD) by (nonlinear_arith)
            requires
                CLUSTER_PAD == 1152000,
        ;
        assert(p * CLUSTER_PAD >= 0 && q * CLUSTER_PAD >= 0) by (nonlinear_arith)
            requires
                p >= 0,
                q >= 0,
                CLUSTER_PAD == 1152000,
        ;
    }
    r
}

/// Half of the gap that a node keeps.
pub open spec fn own_gap(n: int, v: int) -> int {
    if v < n {
        GAP_B / 2
    } else {
        EDGE_GAP / 2
    }
}

/// How far apart the centres of two neighbours are at least.
pub open spec fn separation(b: Breadths, u: int, v: int) -> int {
    let base = if b.clustered && (b.sides@[u] != WallSide::Inside || b.sides@[v]
        != WallSide::Inside) {
        BORDER_GAP as int
    } else {
        own_gap(b.n as int, u) + own_gap(b.n as int, v)
    };
    let own = b.sizes@[u] as int / 2 + base + b.sizes@[v] as int / 2;
    if b.clustered {
        own + times(boundaries(b.paths@[u]@, b.paths@[v]@), CLUSTER_PAD as int)
    } else {
        own
    }
}

/// Whether sizes are in range, and there is one for each node.
pub open spec fn breadths_fit(b: Breadths) -> bool {
    &&& forall|i: int| 0 <= i < b.sizes@.len() ==> bounded((#[trigger] b.sizes@[i]) as int)
    &&& b.clustered ==> b.paths@.len() == b.sizes@.len() && b.sides@.len() == b.sizes@.len()
}

/// The largest separation there is.
pub const REACH: i128 = 0x100_0000_0000_0000;

/// Whether a separation is in range.
pub open spec fn apart(v: int) -> bool {
    -REACH <= v <= REACH
}

fn separate(b: &Breadths, u: usize, v: usize) -> (r: Px)
    requires
        breadths_fit(*b),
        u < b.sizes@.len(),
        v < b.sizes@.len(),
    ensures
        r == separation(*b, u as int, v as int),
        apart(r as int),
{
    let wall = b.clustered && (b.sides[u] != WallSide::Inside || b.sides[v] != WallSide::Inside);
    let a: Px = if u < b.n {
        GAP_B / 2
    } else {
        EDGE_GAP / 2
    };
    let c: Px = if v < b.n {
        GAP_B / 2
    } else {
        EDGE_GAP / 2
    };
    let base: Px = if wall {
        BORDER_GAP
    } else {
        a + c
    };
    assert(bounded(b.sizes@[u as int] as int) && bounded(b.sizes@[v as int] as int));
    let own: Px = half(b.sizes[u]) + base + half(b.sizes[v]);
    if b.clustered {
        own + cluster_gap(&b.paths[u], &b.paths[v])
    } else {
        own
    }
}

/// A separation between two blocks: the second stays this far behind the
/// first.
pub type Link = (usize, usize, Px);

/// The position of the link between two blocks, from `i` on.
pub open spec fn link_from(l: Seq<Link>, a: usize, b: usize, i: int) -> Option<int>
    decreases l.len() - i,
{
    if i < 0 || i >= l.len() {
        None
    } else if l[i].0 == a && l[i].1 == b {
        Some(i)
    } else {
        link_from(l, a, b, i + 1)
    }
}

/// The links with one more; of two between the same blocks the greater
/// stays.
pub open spec fn linked(l: Seq<Link>, a: usize, b: usize, sep: Px) -> Seq<Link> {
    match link_from(l, a, b, 0) {
        Some(i) => if 0 <= i < l.len() && sep > l[i].2 {
            l.update(i, (a, b, sep))
        } else {
            l
        },
        None => l.push((a, b, sep)),
    }
}

/// The links of the first `k` nodes of a layer.
pub open spec fn row_links(
    l: Seq<Link>,
    b: Breadths,
    root: Seq<usize>,
    row: Seq<usize>,
    k: int,
) -> Seq<Link>
    decreases k,
{
    if k <= 1 {
        l
    } else {
        let u = row[k - 2] as int;
        let v = row[k - 1] as int;
        linked(
            row_links(l, b, root, row, k - 1),
            root[u],
            root[v],
            separation(b, u, v) as Px,
        )
    }
}

/// The links of the first `k` layers.
pub open spec fn links(b: Breadths, root: Seq<usize>, layers: Seq<Seq<usize>>, k: int) -> Seq<Link>
    decreases k,
{
    if k <= 0 {
        Seq::empty()
    } else {
        row_links(
            links(b, root, layers, k - 1),
            b,
            root,
            layers[k - 1],
            layers[k - 1].len() as int,
        )
    }
}

/// Whether links are between the first `m` blocks, and in range.
pub open spec fn links_fit(l: Seq<Link>, m: int) -> bool {
    forall|i: int|
        0 <= i < l.len() ==> (#[trigger] l[i]).0 < m && l[i].1 < m && apart(l[i].2 as int)
}

fn link(l: &mut Vec<Link>, a: usize, b: usize, sep: Px, m: usize)
    requires
        links_fit(old(l)@, m as int),
        a < m,
        b < m,
        apart(sep as int),
    ensures
        final(l)@ == linked(old(l)@, a, b, sep),
        links_fit(final(l)@, m as int),
{
    let ghost before = l@;
    let mut i: usize = 0;
    while i < l.len()
        invariant
            i <= l@.len(),
            l@ == before,
            before == old(l)@,
            links_fit(before, m as int),
            a < m,
            b < m,
            apart(sep as int),
            link_from(before, a, b, 0) == link_from(before, a, b, i as int),
        decreases l@.len() - i,
    {
        if l[i].0 == a && l[i].1 == b {
            if sep > l[i].2 {
                l.set(i, (a, b, sep));
            }
            return;
        }
        i += 1;
    }
    l.push((a, b, sep));
}

fn collect_links(b: &Breadths, root: &Vec<usize>, layers: &Vec<Vec<usize>>) -> (r: Vec<Link>)
    requires
        breadths_fit(*b),
        root@.len() == b.sizes@.len(),
        below(root@, b.sizes@.len() as int),
        all_below(rows(layers@), b.sizes@.len() as int),
    ensures
        r@ == links(*b, root@, rows(layers@), layers@.len() as int),
        links_fit(r@, b.sizes@.len() as int),
{
    let m: usize = b.sizes.len();
    let ghost lv = rows(layers@);
    let mut l: Vec<Link> = Vec::new();
    let mut k: usize = 0;
    while k < layers.len()
        invariant
            k <= layers@.len(),
            lv == rows(layers@),
            m == b.sizes@.len(),
            breadths_fit(*b),
            root@.len() == m,
            below(root@, m as int),
            all_below(lv, m as int),
            l@ == links(*b, root@, lv, k as int),
            links_fit(l@, m as int),
        decreases layers@.len() - k,
    {
        let row = &layers[k];
        let ghost base = l@;
        assert(lv[k as int] == row@);
        assert(below(lv[k as int], m as int));
        let mut i: usize = 1;
        while i < row.len()
            invariant
                1 <= i,
                i <= row@.len() || (row@.len() == 0 && i == 1),
                m == b.sizes@.len(),
                breadths_fit(*b),
                root@.len() == m,
                below(root@, m as int),
                below(row@, m as int),
                l@ == row_links(base, *b, root@, row@, i as int),
                links_fit(l@, m as int),
            decreases row@.len() - i,
        {
            let u: usize = row[i - 1];
            let v: usize = row[i];
            assert(row@[i - 1] < m && row@[i as int] < m);
            assert(root@[u as int] < m && root@[v as int] < m);
            let sep: Px = separate(b, u, v);
            link(&mut l, root[u], root[v], sep, m);
            i += 1;
        }
        assert(row_links(base, *b, root@, row@, i as int) == row_links(
            base,
            *b,
            root@,
            row@,
            row@.len() as int,
        ));
        k += 1;
    }
    l
}

/// The links the other way round.
pub open spec fn flipped(l: Seq<Link>) -> Seq<Link> {
    l.map_values(|x: Link| (x.1, x.0, x.2))
}

fn flip(l: &Vec<Link>) -> (r: Vec<Link>)
    ensures
        r@ == flipped(l@),
{
    let mut r: Vec<Link> = Vec::new();
    let mut i: usize = 0;
    while i < l.len()
        invariant
            i <= l@.len(),
            r@.len() == i,
            forall|k: int| 0 <= k < i ==> #[trigger] r@[k] == flipped(l@)[k],
        decreases l@.len() - i,
    {
        r.push((l[i].1, l[i].0, l[i].2));
        i += 1;
    }
    assert(r@ =~= flipped(l@));
    r
}

/// The blocks that the links among the first `k` lead to `e` from.
pub open spec fn sources(l: Seq<Link>, e: usize, k: int) -> Seq<usize>
    decreases k,
{
    if k <= 0 {
        Seq::empty()
    } else if l[k - 1].1 == e {
        sources(l, e, k - 1).push(l[k - 1].0)
    } else {
        sources(l, e, k - 1)
    }
}

/// How many of the first `k` marks are not set.
pub open spec fn unset(marks: Seq<bool>, k: int) -> nat
    decreases k,
{
    if k <= 0 {
        0
    } else {
        unset(marks, k - 1) + (if marks[k - 1] {
            0nat
        } else {
            1nat
        })
    }
}

/// Setting a mark that is not set leaves one fewer to set.
pub proof fn lemma_set(marks: Seq<bool>, e: int, k: int)
    requires
        0 <= e < marks.len(),
        !marks[e],
        0 <= k <= marks.len(),
    ensures
        unset(marks.update(e, true), k) + (if e < k {
            1nat
        } else {
            0nat
        }) == unset(marks, k),
    decreases k,
{
    if k > 0 {
        lemma_set(marks, e, k - 1);
    }
}

/// The blocks in the order they are finished in: a block is finished after
/// the sources of its links, and again whenever it comes up later.
pub open spec fn finished(l: Seq<Link>, stack: Seq<usize>, seen: Seq<bool>) -> Seq<usize>
    decreases unset(seen, seen.len() as int), stack.len(),
{
    if stack.len() == 0 {
        Seq::empty()
    } else {
        let e = stack.last();
        let rest = stack.drop_last();
        if e >= seen.len() || seen[e as int] {
            seq![e] + finished(l, rest, seen)
        } else {
            proof {
                lemma_set(seen, e as int, seen.len() as int);
            }
            finished(
                l,
                rest.push(e) + sources(l, e, l.len() as int),
                seen.update(e as int, true),
            )
        }
    }
}

/// Finish all blocks on the stack.
fn finish(l: &Vec<Link>, start: Vec<usize>, m: usize) -> (r: Vec<usize>)
    requires
        links_fit(l@, m as int),
        below(start@, m as int),
    ensures
        r@ == finished(l@, start@, Seq::new(m as nat, |i: int| false)),
        below(r@, m as int),
{
    let ghost first = start@;
    let ghost none = Seq::new(m as nat, |i: int| false);
    let mut seen: Vec<bool> = Vec::new();
    while seen.len() < m
        invariant
            seen@.len() <= m,
            forall|i: int| 0 <= i < seen@.len() ==> !(#[trigger] seen@[i]),
        decreases m - seen@.len(),
    {
        seen.push(false);
    }
    assert(seen@ =~= none);
    let mut stack: Vec<usize> = start;
    let mut out: Vec<usize> = Vec::new();
    assert(out@ + finished(l@, stack@, seen@) =~= finished(l@, first, none));
    while stack.len() > 0
        invariant
            links_fit(l@, m as int),
            seen@.len() == m,
            below(stack@, m as int),
            below(out@, m as int),
            out@ + finished(l@, stack@, seen@) == finished(l@, first, none),
        decreases unset(seen@, seen@.len() as int), stack@.len(),
    {
        let ghost top = stack@;
        let ghost marks = seen@;
        let e: usize = match stack.pop() {
            Some(e) => e,
            None => 0,
        };
        assert(top.last() == e && stack@ =~= top.drop_last());
        assert(e < m);
        if seen[e] {
            let ghost done = out@;
            out.push(e);
            proof {
                assert(done + (seq![e] + finished(l@, stack@, seen@)) =~= out@ + finished(
                    l@,
                    stack@,
                    seen@,
                ));
                assert forall|i: int| 0 <= i < out@.len() implies (#[trigger] out@[i]) < m by {
                    if i < done.len() {
                        assert(out@[i] == done[i]);
                    }
                }
            }
        } else {
            proof {
                lemma_set(marks, e as int, marks.len() as int);
            }
            seen.set(e, true);
            stack.push(e);
            let ghost base = stack@;
            let mut k: usize = 0;
            assert(stack@ =~= base + sources(l@, e, 0));
            while k < l.len()
                invariant
                    k <= l@.len(),
                    links_fit(l@, m as int),
                    below(stack@, m as int),
                    stack@ == base + sources(l@, e, k as int),
                decreases l@.len() - k,
            {
                if l[k].1 == e {
                    let p: usize = l[k].0;
                    assert(l@[k as int].0 < m);
                    stack.push(p);
                }
                k += 1;
                assert(stack@ =~= base + sources(l@, e, k as int));
            }
        }
    }
    assert(out@ =~= finished(l@, first, none));
    out
}

/// Machine numbers as numbers.
pub open spec fn numbers(xs: Seq<i128>) -> Seq<int> {
    xs.map_values(|x: i128| x as int)
}

/// How far right block `e` is pushed by the first `k` links.
pub open spec fn pushed(l: Seq<Link>, xs: Seq<int>, e: usize, k: int) -> int
    decreases k,
{
    if k <= 0 {
        0
    } else if l[k - 1].1 == e {
        most(pushed(l, xs, e, k - 1), xs[l[k - 1].0 as int] + l[k - 1].2)
    } else {
        pushed(l, xs, e, k - 1)
    }
}

/// The places after the first `k` blocks of an order were pushed right.
pub open spec fn leftmost(l: Seq<Link>, order: Seq<usize>, xs: Seq<int>, k: int) -> Seq<int>
    decreases k,
{
    if k <= 0 {
        xs
    } else {
        let before = leftmost(l, order, xs, k - 1);
        let e = order[k - 1];
        before.update(e as int, pushed(l, before, e, l.len() as int))
    }
}

/// How far right block `e` may go for the first `k` links.
pub open spec fn allowed(l: Seq<Link>, xs: Seq<int>, e: usize, k: int) -> Option<int>
    decreases k,
{
    if k <= 0 {
        None
    } else if l[k - 1].0 == e {
        let here = xs[l[k - 1].1 as int] - l[k - 1].2;
        match allowed(l, xs, e, k - 1) {
            Some(v) => Some(if here < v {
                here
            } else {
                v
            }),
            None => Some(here),
        }
    } else {
        allowed(l, xs, e, k - 1)
    }
}

/// The places after the first `k` blocks of an order were pulled right.
pub open spec fn rightmost(l: Seq<Link>, order: Seq<usize>, xs: Seq<int>, k: int) -> Seq<int>
    decreases k,
{
    if k <= 0 {
        xs
    } else {
        let before = rightmost(l, order, xs, k - 1);
        let e = order[k - 1];
        match allowed(l, before, e, l.len() as int) {
            Some(v) => before.update(e as int, most(before[e as int], v)),
            None => before,
        }
    }
}

/// Whether places are in range, one for each of `m` blocks.
pub open spec fn places_fit(xs: Seq<Px>, m: int) -> bool {
    xs.len() == m && forall|i: int| 0 <= i < xs.len() ==> bounded((#[trigger] xs[i]) as int)
}

/// Whether places are at most `far` from the middle, one for each of `m`
/// blocks.
pub open spec fn within(xs: Seq<i128>, m: int, far: int) -> bool {
    xs.len() == m && forall|i: int| 0 <= i < xs.len() ==> -far <= (#[trigger] xs[i]) <= far
}

/// How far from the middle pushing and pulling may bring a block.
pub const WIDE: i128 = 0x200_0000_0000_0000_0000_0000_0000_0000;

fn push_block(l: &Vec<Link>, xs: &Vec<i128>, e: usize, Ghost(far): Ghost<int>) -> (r: i128)
    requires
        links_fit(l@, xs@.len() as int),
        within(xs@, xs@.len() as int, far),
        0 <= far <= WIDE,
    ensures
        r == pushed(l@, numbers(xs@), e, l@.len() as int),
        -far - REACH <= r <= far + REACH,
{
    let mut x: i128 = 0;
    let mut k: usize = 0;
    while k < l.len()
        invariant
            k <= l@.len(),
            links_fit(l@, xs@.len() as int),
            within(xs@, xs@.len() as int, far),
            0 <= far <= WIDE,
            x == pushed(l@, numbers(xs@), e, k as int),
            -far - REACH <= x <= far + REACH,
        decreases l@.len() - k,
    {
        if l[k].1 == e {
            let p: usize = l[k].0;
            assert(l@[k as int].0 < xs@.len());
            assert(-far <= xs@[p as int] <= far);
            let here: i128 = xs[p] + l[k].2 as i128;
            if x < here {
                x = here;
            }
        }
        k += 1;
    }
    x
}

fn pull_block(l: &Vec<Link>, xs: &Vec<i128>, e: usize, Ghost(far): Ghost<int>) -> (r: Option<i128>)
    requires
        links_fit(l@, xs@.len() as int),
        within(xs@, xs@.len() as int, far),
        0 <= far <= WIDE,
    ensures
        match allowed(l@, numbers(xs@), e, l@.len() as int) {
            Some(v) => r matches Some(x) && x == v && -far - REACH <= v <= far + REACH,
            None => r is None,
        },
{
    let mut x: Option<i128> = None;
    let mut k: usize = 0;
    while k < l.len()
        invariant
            k <= l@.len(),
            links_fit(l@, xs@.len() as int),
            within(xs@, xs@.len() as int, far),
            0 <= far <= WIDE,
            match allowed(l@, numbers(xs@), e, k as int) {
                Some(v) => x matches Some(y) && y == v && -far - REACH <= v <= far + REACH,
                None => x is None,
            },
        decreases l@.len() - k,
    {
        if l[k].0 == e {
            let s: usize = l[k].1;
            assert(l@[k as int].1 < xs@.len());
            assert(-far <= xs@[s as int] <= far);
            let here: i128 = xs[s] - l[k].2 as i128;
            x = match x {
                Some(v) => if here < v {
                    Some(here)
                } else {
                    Some(v)
                },
                None => Some(here),
            };
        }
        k += 1;
    }
    x
}

/// The blocks, from the last to the first of `m`.
pub open spec fn block_stack(root: Seq<usize>, layers: Seq<Seq<usize>>, m: int) -> Seq<usize>
    decreases m,
{
    if m <= 0 {
        Seq::empty()
    } else if is_block(root, layers, m - 1) {
        block_stack(root, layers, m - 1).push((m - 1) as usize)
    } else {
        block_stack(root, layers, m - 1)
    }
}

/// Whether some node of the layers belongs to block `r`.
pub open spec fn is_block(root: Seq<usize>, layers: Seq<Seq<usize>>, r: int) -> bool {
    exists|i: int, j: int|
        0 <= i < layers.len() && 0 <= j < layers[i].len() && root[(#[trigger] layers[i][j]) as int]
            == r
}

fn mark_blocks(root: &Vec<usize>, layers: &Vec<Vec<usize>>) -> (r: Vec<bool>)
    requires
        below(root@, root@.len() as int),
        all_below(rows(layers@), root@.len() as int),
    ensures
        r@.len() == root@.len(),
        forall|i: int| 0 <= i < r@.len() ==> #[trigger] r@[i] == is_block(root@, rows(layers@), i),
{
    let m: usize = root.len();
    let ghost lv = rows(layers@);
    let mut r: Vec<bool> = Vec::new();
    while r.len() < m
        invariant
            r@.len() <= m,
            forall|i: int| 0 <= i < r@.len() ==> !(#[trigger] r@[i]),
        decreases m - r@.len(),
    {
        r.push(false);
    }
    let mut a: usize = 0;
    while a < layers.len()
        invariant
            a <= layers@.len(),
            m == root@.len(),
            lv == rows(layers@),
            below(root@, m as int),
            all_below(lv, m as int),
            r@.len() == m,
            forall|i: int|
                0 <= i < m ==> #[trigger] r@[i] == is_block(root@, lv.take(a as int), i),
        decreases layers@.len() - a,
    {
        let row = &layers[a];
        assert(lv[a as int] == row@);
        assert(below(lv[a as int], m as int));
        let ghost part = lv.take(a as int);
        let mut j: usize = 0;
        proof {
            assert forall|i: int| 0 <= i < m implies #[trigger] r@[i] == is_block(
                root@,
                part.push(row@.take(0)),
                i,
            ) by {
                lemma_block_same(root@, part, row@, i);
            }
        }
        while j < row.len()
            invariant
                j <= row@.len(),
                m == root@.len(),
                below(root@, m as int),
                below(row@, m as int),
                r@.len() == m,
                forall|i: int|
                    0 <= i < m ==> #[trigger] r@[i] == is_block(
                        root@,
                        part.push(row@.take(j as int)),
                        i,
                    ),
            decreases row@.len() - j,
        {
            let v: usize = row[j];
            assert(row@[j as int] < m);
            let b: usize = root[v];
            assert(root@[v as int] < m);
            let ghost before = r@;
            r.set(b, true);
            proof {
                assert forall|i: int| 0 <= i < m implies #[trigger] r@[i] == is_block(
                    root@,
                    part.push(row@.take(j + 1)),
                    i,
                ) by {
                    lemma_block_step(root@, part, row@, j as int, i);
                    assert(before[i] == is_block(root@, part.push(row@.take(j as int)), i));
                }
            }
            j += 1;
        }
        assert(row@.take(j as int) =~= row@);
        assert(part.push(row@) =~= lv.take(a + 1));
        a += 1;
    }
    assert(lv.take(a as int) =~= lv);
    r
}

proof fn lemma_block_same(root: Seq<usize>, part: Seq<Seq<usize>>, row: Seq<usize>, i: int)
    ensures
        is_block(root, part.push(row.take(0)), i) == is_block(root, part, i),
{
    let more = part.push(row.take(0));
    if is_block(root, part, i) {
        let (a, b) = choose|a: int, b: int|
            0 <= a < part.len() && 0 <= b < part[a].len() && root[(#[trigger] part[a][b]) as int]
                == i;
        assert(more[a][b] == part[a][b]);
    }
    if is_block(root, more, i) {
        let (a, b) = choose|a: int, b: int|
            0 <= a < more.len() && 0 <= b < more[a].len() && root[(#[trigger] more[a][b]) as int]
                == i;
        assert(a < part.len());
        assert(part[a][b] == more[a][b]);
    }
}

proof fn lemma_block_step(root: Seq<usize>, part: Seq<Seq<usize>>, row: Seq<usize>, j: int, i: int)
    requires
        0 <= j < row.len(),
    ensures
        is_block(root, part.push(row.take(j + 1)), i) == (is_block(
            root,
            part.push(row.take(j)),
            i,
        ) || root[row[j] as int] == i),
{
    let a = part.push(row.take(j));
    let b = part.push(row.take(j + 1));
    if is_block(root, a, i) {
        let (x, y) = choose|x: int, y: int|
            0 <= x < a.len() && 0 <= y < a[x].len() && root[(#[trigger] a[x][y]) as int] == i;
        assert(b[x][y] == a[x][y]);
    }
    if root[row[j] as int] == i {
        assert(b[part.len() as int][j] == row[j]);
    }
    if is_block(root, b, i) {
        let (x, y) = choose|x: int, y: int|
            0 <= x < b.len() && 0 <= y < b[x].len() && root[(#[trigger] b[x][y]) as int] == i;
        if x < part.len() || y < j {
            assert(a[x][y] == b[x][y]);
        } else {
            assert(b[x][y] == row[j]);
        }
    }
}

/// The places of all nodes: blocks pushed left, then pulled right.
pub open spec fn compacted(b: Breadths, root: Seq<usize>, layers: Seq<Seq<usize>>) -> Seq<int> {
    let m = root.len();
    let l = links(b, root, layers, layers.len() as int);
    let start = block_stack(root, layers, m as int);
    let none = Seq::new(m, |i: int| false);
    let zeros = Seq::new(m, |i: int| 0int);
    let first = finished(l, start, none);
    let left = leftmost(l, first, zeros, first.len() as int);
    let second = finished(flipped(l), start, none);
    let xs = rightmost(l, second, left, second.len() as int);
    Seq::new(m, |v: int| xs[root[v] as int])
}

/// Push the blocks of an alignment together.
pub fn horizontal_compaction(b: &Breadths, root: &Vec<usize>, layers: &Vec<Vec<usize>>) -> (r: Vec<
    i128,
>)
    requires
        breadths_fit(*b),
        root@.len() == b.sizes@.len(),
        below(root@, root@.len() as int),
        all_below(rows(layers@), root@.len() as int),
    ensures
        numbers(r@) == compacted(*b, root@, rows(layers@)),
        within(r@, root@.len() as int, 2 * WIDE),
{
    let m: usize = root.len();
    let ghost lv = rows(layers@);
    let l = collect_links(b, root, layers);
    let blocks = mark_blocks(root, layers);
    let mut start: Vec<usize> = Vec::new();
    let mut again: Vec<usize> = Vec::new();
    let mut xs: Vec<i128> = Vec::new();
    let mut i: usize = 0;
    while i < m
        invariant
            i <= m,
            m == root@.len(),
            blocks@.len() == m,
            forall|k: int| 0 <= k < m ==> #[trigger] blocks@[k] == is_block(root@, lv, k),
            start@ == block_stack(root@, lv, i as int),
            again@ == start@,
            below(start@, m as int),
            xs@.len() == i,
            forall|k: int| 0 <= k < i ==> (#[trigger] xs@[k]) == 0,
        decreases m - i,
    {
        if blocks[i] {
            start.push(i);
            again.push(i);
        }
        xs.push(0);
        i += 1;
    }
    let ghost zeros = Seq::new(m as nat, |k: int| 0int);
    assert(numbers(xs@) =~= zeros);
    let first = finish(&l, start, m);
    let mut k: usize = 0;
    while k < first.len()
        invariant
            k <= first@.len(),
            links_fit(l@, m as int),
            within(xs@, m as int, k * REACH),
            below(first@, m as int),
            numbers(xs@) == leftmost(l@, first@, zeros, k as int),
        decreases first@.len() - k,
    {
        let e: usize = first[k];
        assert(first@[k as int] < m);
        let ghost before = xs@;
        let x: i128 = push_block(&l, &xs, e, Ghost(k * REACH));
        xs.set(e, x);
        k += 1;
        assert(numbers(xs@) =~= numbers(before).update(e as int, x as int));
    }
    let ghost left = numbers(xs@);
    let ghost base = first@.len() * REACH;
    let back = flip(&l);
    proof {
        assert forall|j: int| 0 <= j < back@.len() implies (#[trigger] back@[j]).0 < m && back@[j].1
            < m && apart(back@[j].2 as int) by {
            assert(l@[j].0 < m);
        }
    }
    let second = finish(&back, again, m);
    let mut q: usize = 0;
    while q < second.len()
        invariant
            q <= second@.len(),
            links_fit(l@, m as int),
            0 <= 2 * base <= WIDE,
            within(xs@, m as int, base + q * REACH),
            below(second@, m as int),
            numbers(xs@) == rightmost(l@, second@, left, q as int),
        decreases second@.len() - q,
    {
        let e: usize = second[q];
        assert(second@[q as int] < m);
        let ghost before = xs@;
        if let Some(v) = pull_block(&l, &xs, e, Ghost(base + q * REACH)) {
            let x: i128 = if xs[e] < v {
                v
            } else {
                xs[e]
            };
            xs.set(e, x);
            assert(numbers(xs@) =~= numbers(before).update(e as int, x as int));
        }
        q += 1;
    }
    let mut out: Vec<i128> = Vec::new();
    let mut v: usize = 0;
    while v < m
        invariant
            v <= m,
            m == root@.len(),
            below(root@, m as int),
            within(xs@, m as int, 2 * WIDE),
            within(out@, v as int, 2 * WIDE),
            forall|j: int| 0 <= j < v ==> #[trigger] out@[j] == xs@[root@[j] as int],
        decreases m - v,
    {
        assert(root@[v as int] < m);
        assert(-2 * WIDE <= xs@[root@[v as int] as int] <= 2 * WIDE);
        out.push(xs[root[v]]);
        v += 1;
    }
    assert(numbers(out@) =~= compacted(*b, root@, lv));
    out
}

} // verus!
