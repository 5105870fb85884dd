//! What pushing blocks together keeps apart.

use vstd::prelude::*;

use crate::layout::compact::{
    allowed, apart, block_stack, breadths_fit, compacted, finished, flipped, is_block, leftmost,
    lemma_set, link_from, linked, links, own_gap, pushed, rightmost, row_links, separation, sources,
    unset, Breadths, Link,
};
use crate::layout::ordering::{all_below, below};

verus! {

/// Whether the blocks of a row come in the order of their ranks.
pub open spec fn increasing(f: Seq<int>, root: Seq<usize>, row: Seq<usize>) -> bool {
    forall|i: int, j: int|
        0 <= i < j < row.len() ==> f[root[(#[trigger] row[i]) as int] as int] < f[root[(
        #[trigger] row[j]) as int] as int]
}

/// Whether all links lead to a block of a higher rank.
spec fn forward(l: Seq<Link>, f: Seq<int>) -> bool {
    forall|x: int|
        0 <= x < l.len() ==> (#[trigger] l[x]).0 < f.len() && l[x].1 < f.len() && f[l[x].0 as int]
            < f[l[x].1 as int]
}

/// Whether `b` has the links of `a`, none of them shorter.
spec fn keeps(a: Seq<Link>, b: Seq<Link>) -> bool {
    a.len() <= b.len() && forall|i: int|
        0 <= i < a.len() ==> b[i].0 == a[i].0 && b[i].1 == a[i].1 && a[i].2 <= (
        #[trigger] b[i]).2
}

/// Whether there is a link of at least the length `s` between two blocks.
spec fn linked_by(l: Seq<Link>, a: usize, b: usize, s: int) -> bool {
    exists|i: int| 0 <= i < l.len() && (#[trigger] l[i]).0 == a && l[i].1 == b && s <= l[i].2
}

proof fn lemma_kept(a: Seq<Link>, b: Seq<Link>, u: usize, v: usize, s: int)
    requires
        keeps(a, b),
        linked_by(a, u, v, s),
    ensures
        linked_by(b, u, v, s),
{
    let i = choose|i: int| 0 <= i < a.len() && (#[trigger] a[i]).0 == u && a[i].1 == v && s <= a[i].2;
    assert(a[i].2 <= b[i].2);
}

proof fn lemma_link_from(l: Seq<Link>, a: usize, b: usize, i: int)
    requires
        0 <= i,
    ensures
        link_from(l, a, b, i) matches Some(k) ==> i <= k < l.len() && l[k].0 == a && l[k].1 == b,
    decreases l.len() - i,
{
    if i < l.len() {
        lemma_link_from(l, a, b, i + 1);
    }
}

proof fn lemma_linked(l: Seq<Link>, a: usize, b: usize, sep: i64, f: Seq<int>)
    requires
        forward(l, f),
        a < f.len(),
        b < f.len(),
        f[a as int] < f[b as int],
    ensures
        forward(linked(l, a, b, sep), f),
        keeps(l, linked(l, a, b, sep)),
        linked_by(linked(l, a, b, sep), a, b, sep as int),
{
    lemma_link_from(l, a, b, 0);
    let m = linked(l, a, b, sep);
    match link_from(l, a, b, 0) {
        Some(i) => {
            assert(m[i].0 == a && m[i].1 == b && sep <= m[i].2);
        },
        None => {
            assert(m[l.len() as int] == (a, b, sep));
        },
    }
    assert forall|x: int| 0 <= x < m.len() implies (#[trigger] m[x]).0 < f.len() && m[x].1 < f.len()
        && f[m[x].0 as int] < f[m[x].1 as int] by {
        if x < l.len() {
            assert(l[x].0 < f.len());
        }
    }
}

/// Whether the blocks of two neighbours in a row are linked.
spec fn joined(l: Seq<Link>, b: Breadths, root: Seq<usize>, row: Seq<usize>, i: int) -> bool {
    linked_by(
        l,
        root[row[i] as int],
        root[row[i + 1] as int],
        separation(b, row[i] as int, row[i + 1] as int),
    )
}

/// Separations of nodes in range are in range.
proof fn lemma_separation(b: Breadths, u: int, v: int)
    requires
        breadths_fit(b),
        0 <= u < b.sizes@.len(),
        0 <= v < b.sizes@.len(),
    ensures
        apart(separation(b, u, v)),
{
    assert(-0x40_0000_0000_0000 <= b.sizes@[u] <= 0x40_0000_0000_0000);
    assert(-0x40_0000_0000_0000 <= b.sizes@[v] <= 0x40_0000_0000_0000);
}

proof fn lemma_row_links(
    l: Seq<Link>,
    b: Breadths,
    root: Seq<usize>,
    row: Seq<usize>,
    k: int,
    f: Seq<int>,
)
    requires
        breadths_fit(b),
        root.len() == f.len(),
        b.sizes@.len() == f.len(),
        below(root, f.len() as int),
        below(row, f.len() as int),
        forward(l, f),
        increasing(f, root, row),
        0 <= k <= row.len(),
    ensures
        forward(row_links(l, b, root, row, k), f),
        keeps(l, row_links(l, b, root, row, k)),
        forall|i: int|
            0 <= i < k - 1 ==> #[trigger] joined(row_links(l, b, root, row, k), b, root, row, i),
    decreases k,
{
    if k > 1 {
        lemma_row_links(l, b, root, row, k - 1, f);
        let before = row_links(l, b, root, row, k - 1);
        let after = row_links(l, b, root, row, k);
        let u = row[k - 2];
        let v = row[k - 1];
        assert(root[u as int] < f.len() && root[v as int] < f.len());
        let sep = separation(b, u as int, v as int);
        lemma_separation(b, u as int, v as int);
        lemma_linked(before, root[u as int], root[v as int], sep as i64, f);
        assert(sep as i64 == sep);
        assert forall|i: int| 0 <= i < k - 1 implies #[trigger] joined(after, b, root, row, i) by {
            if i < k - 2 {
                assert(joined(before, b, root, row, i));
                lemma_kept(
                    before,
                    after,
                    root[row[i] as int],
                    root[row[i + 1] as int],
                    separation(b, row[i] as int, row[i + 1] as int),
                );
            }
        }
    }
}

proof fn lemma_links(
    b: Breadths,
    root: Seq<usize>,
    layers: Seq<Seq<usize>>,
    k: int,
    f: Seq<int>,
)
    requires
        breadths_fit(b),
        root.len() == f.len(),
        b.sizes@.len() == f.len(),
        below(root, f.len() as int),
        all_below(layers, f.len() as int),
        forall|t: int| 0 <= t < layers.len() ==> increasing(f, root, #[trigger] layers[t]),
        0 <= k <= layers.len(),
    ensures
        forward(links(b, root, layers, k), f),
        forall|t: int, i: int|
            0 <= t < k && 0 <= i < layers[t].len() - 1 ==> #[trigger] joined(
                links(b, root, layers, k),
                b,
                root,
                layers[t],
                i,
            ),
    decreases k,
{
    if k > 0 {
        lemma_links(b, root, layers, k - 1, f);
        let before = links(b, root, layers, k - 1);
        let after = links(b, root, layers, k);
        let row = layers[k - 1];
        assert(below(row, f.len() as int));
        lemma_row_links(before, b, root, row, row.len() as int, f);
        assert forall|t: int, i: int|
            0 <= t < k && 0 <= i < layers[t].len() - 1 implies #[trigger] joined(
            after,
            b,
            root,
            layers[t],
            i,
        ) by {
            if t < k - 1 {
                let r = layers[t];
                assert(joined(before, b, root, r, i));
                lemma_kept(
                    before,
                    after,
                    root[r[i] as int],
                    root[r[i + 1] as int],
                    separation(b, r[i] as int, r[i + 1] as int),
                );
            }
        }
    }
}

/// Whether one of the first `k` links leads from `s` to `e`.
spec fn sourced(l: Seq<Link>, e: usize, k: int, s: usize) -> bool {
    exists|x: int| 0 <= x < k && (#[trigger] l[x]).1 == e && l[x].0 == s
}

proof fn lemma_sources(l: Seq<Link>, e: usize, k: int)
    requires
        0 <= k <= l.len(),
    ensures
        forall|i: int|
            0 <= i < sources(l, e, k).len() ==> sourced(l, e, k, #[trigger] sources(l, e, k)[i]),
        forall|x: int|
            0 <= x < k && (#[trigger] l[x]).1 == e ==> sources(l, e, k).contains(l[x].0),
    decreases k,
{
    if k > 0 {
        lemma_sources(l, e, k - 1);
        let before = sources(l, e, k - 1);
        let after = sources(l, e, k);
        assert forall|i: int| 0 <= i < after.len() implies sourced(l, e, k, #[trigger] after[i]) by {
            if i < before.len() {
                assert(after[i] == before[i]);
                assert(sourced(l, e, k - 1, before[i]));
                let x = choose|x: int| 0 <= x < k - 1 && (#[trigger] l[x]).1 == e && l[x].0 == before[i];
                assert(l[x].1 == e);
            } else {
                assert(l[k - 1].1 == e);
            }
        }
        assert forall|x: int| 0 <= x < k && (#[trigger] l[x]).1 == e implies after.contains(l[x].0) by {
            if x < k - 1 {
                assert(before.contains(l[x].0));
                let i = choose|i: int| 0 <= i < before.len() && before[i] == l[x].0;
                assert(after[i] == l[x].0);
            } else {
                assert(after[before.len() as int] == l[x].0);
            }
        }
    }
}

/// Whether a block waits on the stack at `i`: everything above it is of a
/// lower rank, and whatever it needs is done or above it.
spec fn waits(
    l: Seq<Link>,
    f: Seq<int>,
    stack: Seq<usize>,
    done: Set<usize>,
    e: usize,
    i: int,
) -> bool {
    &&& 0 <= i < stack.len()
    &&& stack[i] == e
    &&& forall|j: int| i < j < stack.len() ==> f[(#[trigger] stack[j]) as int] < f[e as int]
    &&& forall|x: int|
        0 <= x < l.len() && (#[trigger] l[x]).1 == e ==> done.contains(l[x].0) || above(
            stack,
            i,
            l[x].0,
        )
}

/// Whether a block is on the stack above position `i`.
spec fn above(stack: Seq<usize>, i: int, e: usize) -> bool {
    exists|j: int| i < j < stack.len() && #[trigger] stack[j] == e
}

/// What holds while blocks are finished.
spec fn in_progress(
    l: Seq<Link>,
    f: Seq<int>,
    stack: Seq<usize>,
    seen: Seq<bool>,
    done: Set<usize>,
) -> bool {
    &&& seen.len() == f.len()
    &&& below(stack, f.len() as int)
    &&& forall|e: usize| #[trigger] done.contains(e) ==> e < seen.len() && seen[e as int]
    &&& forall|x: int|
        0 <= x < l.len() && done.contains((#[trigger] l[x]).1) ==> done.contains(l[x].0)
    &&& forall|e: usize|
        #![trigger seen[e as int]]
        e < seen.len() && seen[e as int] && !done.contains(e) ==> exists|i: int|
            #[trigger] waits(l, f, stack, done, e, i)
}

/// Whether every block comes after all that it needs.
spec fn orderly(l: Seq<Link>, ev: Seq<usize>, done: Set<usize>) -> bool {
    forall|k: int, x: int|
        #![trigger ev[k], l[x]]
        0 <= k < ev.len() && 0 <= x < l.len() && l[x].1 == ev[k] ==> done.contains(l[x].0)
            || ev.take(k).contains(l[x].0)
}

proof fn lemma_finished(
    l: Seq<Link>,
    f: Seq<int>,
    stack: Seq<usize>,
    seen: Seq<bool>,
    done: Set<usize>,
)
    requires
        forward(l, f),
        in_progress(l, f, stack, seen, done),
    ensures
        orderly(l, finished(l, stack, seen), done),
        below(finished(l, stack, seen), f.len() as int),
        forall|i: int| 0 <= i < stack.len() ==> finished(l, stack, seen).contains(#[trigger] stack[i]),
    decreases unset(seen, seen.len() as int), stack.len(),
{
    if stack.len() > 0 {
        let e = stack.last();
        let n = stack.len() - 1;
        let rest = stack.drop_last();
        assert(stack[n] == e);
        assert(e < f.len());
        if seen[e as int] {
            if !done.contains(e) {
                let i = choose|i: int| #[trigger] waits(l, f, stack, done, e, i);
                if i < n {
                    assert(f[stack[n] as int] < f[e as int]);
                }
                assert(i == n);
            }
            lemma_next(l, f, stack, seen, done);
            let more = done.insert(e);
            lemma_finished(l, f, rest, seen, more);
            let tail = finished(l, rest, seen);
            let ev = finished(l, stack, seen);
            assert(ev =~= seq![e] + tail);
            assert forall|k: int, x: int|
                #![trigger ev[k], l[x]]
                0 <= k < ev.len() && 0 <= x < l.len() && l[x].1 == ev[k] implies done.contains(
                l[x].0,
            ) || ev.take(k).contains(l[x].0) by {
                if k > 0 {
                    assert(ev[k] == tail[k - 1]);
                    if more.contains(l[x].0) {
                        if l[x].0 == e {
                            assert(ev.take(k)[0] == e);
                        }
                    } else {
                        assert(tail.take(k - 1).contains(l[x].0));
                        let part = tail.take(k - 1);
                        let j = choose|j: int| 0 <= j < part.len() && part[j] == l[x].0;
                        assert(ev.take(k)[j + 1] == l[x].0);
                    }
                }
            }
            assert forall|i: int| 0 <= i < stack.len() implies ev.contains(#[trigger] stack[i]) by {
                if i < n {
                    assert(rest[i] == stack[i]);
                    assert(tail.contains(rest[i]));
                    let j = choose|j: int| 0 <= j < tail.len() && tail[j] == rest[i];
                    assert(ev[j + 1] == stack[i]);
                } else {
                    assert(ev[0] == e);
                }
            }
            assert forall|i: int| 0 <= i < ev.len() implies (#[trigger] ev[i]) < f.len() by {
                if i > 0 {
                    assert(ev[i] == tail[i - 1]);
                }
            }
        } else {
            lemma_set(seen, e as int, seen.len() as int);
            lemma_opened(l, f, stack, seen, done);
            let wider = rest.push(e) + sources(l, e, l.len() as int);
            let marks = seen.update(e as int, true);
            lemma_finished(l, f, wider, marks, done);
            let ev = finished(l, wider, marks);
            assert(ev == finished(l, stack, seen));
            assert forall|i: int| 0 <= i < stack.len() implies ev.contains(#[trigger] stack[i]) by {
                assert(wider[i] == stack[i]);
                assert(ev.contains(wider[i]));
            }
        }
    }
}

/// A block that is finished leaves the others waiting.
proof fn lemma_next(
    l: Seq<Link>,
    f: Seq<int>,
    stack: Seq<usize>,
    seen: Seq<bool>,
    done: Set<usize>,
)
    requires
        forward(l, f),
        in_progress(l, f, stack, seen, done),
        stack.len() > 0,
        seen[stack.last() as int],
        forall|x: int|
            0 <= x < l.len() && (#[trigger] l[x]).1 == stack.last() && !done.contains(stack.last())
                ==> done.contains(l[x].0) || above(stack, stack.len() - 1, l[x].0),
    ensures
        in_progress(l, f, stack.drop_last(), seen, done.insert(stack.last())),
        forall|x: int|
            0 <= x < l.len() && (#[trigger] l[x]).1 == stack.last() ==> done.contains(l[x].0),
{
    let e = stack.last();
    let n = stack.len() - 1;
    let rest = stack.drop_last();
    let more = done.insert(e);
    assert(stack[n] == e);
    assert forall|x: int| 0 <= x < l.len() && (#[trigger] l[x]).1 == e implies done.contains(
        l[x].0,
    ) by {
        if !done.contains(e) {
            assert(!above(stack, n, l[x].0));
        }
    }
    assert forall|i: int| 0 <= i < rest.len() implies (#[trigger] rest[i]) < f.len() by {
        assert(rest[i] == stack[i]);
    }
    assert forall|u: usize|
        #![trigger seen[u as int]]
        u < seen.len() && seen[u as int] && !more.contains(u) implies exists|i: int| #[trigger]
        waits(l, f, rest, more, u, i) by {
        let i = choose|i: int| #[trigger] waits(l, f, stack, done, u, i);
        assert(i < n);
        assert forall|j: int| i < j < rest.len() implies f[(#[trigger] rest[j]) as int]
            < f[u as int] by {
            assert(rest[j] == stack[j]);
        }
        assert forall|x: int| 0 <= x < l.len() && (#[trigger] l[x]).1 == u implies more.contains(
            l[x].0,
        ) || above(rest, i, l[x].0) by {
            if !done.contains(l[x].0) {
                let j = choose|j: int| i < j < stack.len() && #[trigger] stack[j] == l[x].0;
                if j < n {
                    assert(rest[j] == l[x].0);
                }
            }
        }
        assert(waits(l, f, rest, more, u, i));
    }
}

/// A block that is opened waits for what it needs.
proof fn lemma_opened(
    l: Seq<Link>,
    f: Seq<int>,
    stack: Seq<usize>,
    seen: Seq<bool>,
    done: Set<usize>,
)
    requires
        forward(l, f),
        in_progress(l, f, stack, seen, done),
        stack.len() > 0,
        !seen[stack.last() as int],
    ensures
        in_progress(
            l,
            f,
            stack.drop_last().push(stack.last()) + sources(l, stack.last(), l.len() as int),
            seen.update(stack.last() as int, true),
            done,
        ),
{
    let e = stack.last();
    let n = stack.len() - 1;
    let src = sources(l, e, l.len() as int);
    let wider = stack.drop_last().push(e) + src;
    let marks = seen.update(e as int, true);
    lemma_sources(l, e, l.len() as int);
    assert(stack[n] == e);
    assert forall|i: int| 0 <= i < wider.len() implies (#[trigger] wider[i]) < f.len() && (i
        < stack.len() ==> wider[i] == stack[i]) && (i > n ==> f[wider[i] as int] < f[e as int]) by {
        if i > n {
            assert(wider[i] == src[i - n - 1]);
            assert(sourced(l, e, l.len() as int, src[i - n - 1]));
            let x = choose|x: int|
                0 <= x < l.len() && (#[trigger] l[x]).1 == e && l[x].0 == src[i - n - 1];
            assert(l[x].0 < f.len());
        } else {
            assert(wider[i] == stack[i]);
        }
    }
    assert forall|u: usize|
        #![trigger marks[u as int]]
        u < marks.len() && marks[u as int] && !done.contains(u) implies exists|i: int| #[trigger]
        waits(l, f, wider, done, u, i) by {
        if u == e {
            assert forall|x: int| 0 <= x < l.len() && (#[trigger] l[x]).1 == e implies above(
                wider,
                n,
                l[x].0,
            ) by {
                assert(src.contains(l[x].0));
                let j = choose|j: int| 0 <= j < src.len() && src[j] == l[x].0;
                assert(wider[n + 1 + j] == l[x].0);
            }
            assert(wider[n] == e);
            assert(waits(l, f, wider, done, e, n));
        } else {
            assert(seen[u as int]);
            let i = choose|i: int| #[trigger] waits(l, f, stack, done, u, i);
            assert(i < n);
            assert(f[stack[n] as int] < f[u as int]);
            assert forall|j: int| i < j < wider.len() implies f[(#[trigger] wider[j]) as int]
                < f[u as int] by {
                if j <= n {
                    assert(wider[j] == stack[j]);
                }
            }
            assert forall|x: int| 0 <= x < l.len() && (#[trigger] l[x]).1 == u implies done.contains(
                l[x].0,
            ) || above(wider, i, l[x].0) by {
                if !done.contains(l[x].0) {
                    let j = choose|j: int| i < j < stack.len() && #[trigger] stack[j] == l[x].0;
                    assert(wider[j] == l[x].0);
                }
            }
            assert(wider[i] == stack[i]);
            assert(waits(l, f, wider, done, u, i));
        }
    }
}

proof fn lemma_pushed_same(l: Seq<Link>, xs: Seq<int>, e: int, v: int, d: usize, k: int)
    requires
        0 <= k <= l.len(),
        0 <= e < xs.len(),
        forall|x: int|
            0 <= x < k && (#[trigger] l[x]).1 == d ==> l[x].0 < xs.len() && l[x].0 != e,
    ensures
        pushed(l, xs.update(e, v), d, k) == pushed(l, xs, d, k),
    decreases k,
{
    if k > 0 {
        lemma_pushed_same(l, xs, e, v, d, k - 1);
        if l[k - 1].1 == d {
            assert(l[k - 1].0 != e);
        }
    }
}

proof fn lemma_pushed(l: Seq<Link>, xs: Seq<int>, e: usize, k: int, x: int)
    requires
        0 <= x < k <= l.len(),
        l[x].1 == e,
    ensures
        xs[l[x].0 as int] + l[x].2 <= pushed(l, xs, e, k),
    decreases k,
{
    if x < k - 1 {
        lemma_pushed(l, xs, e, k - 1, x);
    }
}

/// Whether a block stands as far right as it is pushed.
spec fn settled(l: Seq<Link>, xs: Seq<int>, e: usize) -> bool {
    xs[e as int] == pushed(l, xs, e, l.len() as int)
}

proof fn lemma_leftmost(l: Seq<Link>, f: Seq<int>, order: Seq<usize>, start: Seq<int>, k: int)
    requires
        forward(l, f),
        orderly(l, order, Set::empty()),
        below(order, f.len() as int),
        start.len() == f.len(),
        0 <= k <= order.len(),
    ensures
        leftmost(l, order, start, k).len() == f.len(),
        forall|q: int| 0 <= q < k ==> settled(l, leftmost(l, order, start, k), #[trigger] order[q]),
    decreases k,
{
    if k > 0 {
        lemma_leftmost(l, f, order, start, k - 1);
        let xs = leftmost(l, order, start, k - 1);
        let ys = leftmost(l, order, start, k);
        let e = order[k - 1];
        let v = pushed(l, xs, e, l.len() as int);
        assert(e < f.len());
        assert(ys == xs.update(e as int, v));
        if exists|q: int| 0 <= q < k - 1 && order[q] == e {
            let q = choose|q: int| 0 <= q < k - 1 && order[q] == e;
            assert(settled(l, xs, order[q]));
            assert(ys =~= xs);
            assert forall|q: int| 0 <= q < k implies settled(l, ys, #[trigger] order[q]) by {}
        } else {
            assert forall|q: int| 0 <= q < k implies settled(l, ys, #[trigger] order[q]) by {
                let d = order[q];
                assert forall|x: int| 0 <= x < l.len() && (#[trigger] l[x]).1 == d implies l[x].0
                    < xs.len() && l[x].0 != e by {
                    if q < k - 1 {
                        assert(order.take(q).contains(l[x].0));
                        let part = order.take(q);
                        let j = choose|j: int| 0 <= j < part.len() && part[j] == l[x].0;
                        assert(order[j] == l[x].0);
                    } else {
                        assert(f[l[x].0 as int] < f[l[x].1 as int]);
                    }
                }
                lemma_pushed_same(l, xs, e as int, v, d, l.len() as int);
            }
        }
    }
}

/// Whether all links are kept.
spec fn satisfied(l: Seq<Link>, xs: Seq<int>) -> bool {
    forall|x: int|
        0 <= x < l.len() ==> xs[(#[trigger] l[x]).0 as int] + l[x].2 <= xs[l[x].1 as int]
}

proof fn lemma_allowed(l: Seq<Link>, xs: Seq<int>, e: usize, k: int)
    requires
        0 <= k <= l.len(),
    ensures
        forall|x: int|
            0 <= x < k && (#[trigger] l[x]).0 == e ==> allowed(l, xs, e, k) is Some && allowed(
                l,
                xs,
                e,
                k,
            )->Some_0 <= xs[l[x].1 as int] - l[x].2,
    decreases k,
{
    if k > 0 {
        lemma_allowed(l, xs, e, k - 1);
    }
}

proof fn lemma_rightmost(l: Seq<Link>, f: Seq<int>, order: Seq<usize>, start: Seq<int>, k: int)
    requires
        forward(l, f),
        satisfied(l, start),
        below(order, f.len() as int),
        start.len() == f.len(),
        0 <= k <= order.len(),
    ensures
        rightmost(l, order, start, k).len() == f.len(),
        satisfied(l, rightmost(l, order, start, k)),
    decreases k,
{
    if k > 0 {
        lemma_rightmost(l, f, order, start, k - 1);
        let xs = rightmost(l, order, start, k - 1);
        let ys = rightmost(l, order, start, k);
        let e = order[k - 1];
        assert(e < f.len());
        lemma_allowed(l, xs, e, l.len() as int);
        assert forall|x: int| 0 <= x < l.len() implies ys[(#[trigger] l[x]).0 as int] + l[x].2
            <= ys[l[x].1 as int] by {
            assert(xs[l[x].0 as int] + l[x].2 <= xs[l[x].1 as int]);
            assert(f[l[x].0 as int] < f[l[x].1 as int]);
        }
    }
}

proof fn lemma_block_stack(root: Seq<usize>, layers: Seq<Seq<usize>>, m: int)
    requires
        0 <= m <= usize::MAX,
    ensures
        below(block_stack(root, layers, m), m),
        forall|r: int|
            0 <= r < m && #[trigger] is_block(root, layers, r) ==> block_stack(
                root,
                layers,
                m,
            ).contains(r as usize),
    decreases m,
{
    if m > 0 {
        lemma_block_stack(root, layers, m - 1);
        let before = block_stack(root, layers, m - 1);
        let after = block_stack(root, layers, m);
        assert forall|i: int| 0 <= i < after.len() implies (#[trigger] after[i]) < m by {
            if i < before.len() {
                assert(after[i] == before[i]);
            }
        }
        assert forall|r: int| 0 <= r < m && #[trigger] is_block(root, layers, r) implies after.contains(
            r as usize,
        ) by {
            if r < m - 1 {
                assert(before.contains(r as usize));
                let i = choose|i: int| 0 <= i < before.len() && before[i] == r as usize;
                assert(after[i] == r as usize);
            } else {
                assert(after[before.len() as int] == r as usize);
            }
        }
    }
}

proof fn lemma_block_links(
    b: Breadths,
    root: Seq<usize>,
    layers: Seq<Seq<usize>>,
    f: Seq<int>,
    order: Seq<usize>,
    xs: Seq<int>,
)
    requires
        breadths_fit(b),
        root.len() == f.len(),
        f.len() <= usize::MAX,
        b.sizes@.len() == f.len(),
        below(root, f.len() as int),
        all_below(layers, f.len() as int),
        forall|t: int| 0 <= t < layers.len() ==> increasing(f, root, #[trigger] layers[t]),
        forall|r: int|
            0 <= r < f.len() && #[trigger] is_block(root, layers, r) ==> order.contains(r as usize),
        forall|q: int|
            0 <= q < order.len() ==> settled(
                links(b, root, layers, layers.len() as int),
                xs,
                #[trigger] order[q],
            ),
    ensures
        satisfied(links(b, root, layers, layers.len() as int), xs),
{
    let l = links(b, root, layers, layers.len() as int);
    assert forall|x: int| 0 <= x < l.len() implies xs[(#[trigger] l[x]).0 as int] + l[x].2
        <= xs[l[x].1 as int] by {
        lemma_link_ends(b, root, layers, layers.len() as int, x);
        let r = l[x].1 as int;
        assert(is_block(root, layers, r));
        assert(r < f.len()) by {
            lemma_links(b, root, layers, layers.len() as int, f);
        }
        assert(order.contains(r as usize));
        let q = choose|q: int| 0 <= q < order.len() && order[q] == r as usize;
        assert(settled(l, xs, order[q]));
        lemma_pushed(l, xs, l[x].1, l.len() as int, x);
    }
}

/// Links lead to blocks of the layers.
proof fn lemma_link_ends(b: Breadths, root: Seq<usize>, layers: Seq<Seq<usize>>, k: int, x: int)
    requires
        0 <= k <= layers.len(),
        0 <= x < links(b, root, layers, k).len(),
    ensures
        is_block(root, layers, links(b, root, layers, k)[x].1 as int),
    decreases k,
{
    if k > 0 {
        let before = links(b, root, layers, k - 1);
        let row = layers[k - 1];
        assert forall|y: int| 0 <= y < before.len() implies is_block(
            root,
            layers,
            (#[trigger] before[y]).1 as int,
        ) by {
            lemma_link_ends(b, root, layers, k - 1, y);
        }
        lemma_row_ends(b, root, layers, before, k - 1, row.len() as int);
    }
}

proof fn lemma_row_ends(
    b: Breadths,
    root: Seq<usize>,
    layers: Seq<Seq<usize>>,
    l: Seq<Link>,
    t: int,
    k: int,
)
    requires
        0 <= t < layers.len(),
        0 <= k <= layers[t].len(),
        forall|y: int|
            0 <= y < l.len() ==> is_block(root, layers, (#[trigger] l[y]).1 as int),
    ensures
        forall|y: int|
            0 <= y < row_links(l, b, root, layers[t], k).len() ==> is_block(
                root,
                layers,
                (#[trigger] row_links(l, b, root, layers[t], k)[y]).1 as int,
            ),
    decreases k,
{
    if k > 1 {
        lemma_row_ends(b, root, layers, l, t, k - 1);
        let before = row_links(l, b, root, layers[t], k - 1);
        let after = row_links(l, b, root, layers[t], k);
        let v = layers[t][k - 1];
        assert(is_block(root, layers, root[v as int] as int)) by {
            assert(root[layers[t][k - 1] as int] == root[v as int]);
        }
        lemma_link_from(before, root[layers[t][k - 2] as int], root[v as int], 0);
        assert forall|y: int| 0 <= y < after.len() implies is_block(
            root,
            layers,
            (#[trigger] after[y]).1 as int,
        ) by {
            if y < before.len() {
                assert(is_block(root, layers, before[y].1 as int));
            }
        }
    }
}

/// Whether two neighbours in a row are far enough apart.
pub open spec fn stepped(b: Breadths, xs: Seq<int>, row: Seq<usize>, i: int) -> bool {
    xs[row[i] as int] + separation(b, row[i] as int, row[i + 1] as int) <= xs[row[i + 1] as int]
}

/// Compaction keeps the neighbours of every row apart, as long as blocks can
/// be ranked so that every row goes through higher and higher ones.
pub proof fn law_compaction_keeps_neighbours_apart(
    b: Breadths,
    root: Seq<usize>,
    layers: Seq<Seq<usize>>,
    f: Seq<int>,
    t: int,
    i: int,
)
    requires
        breadths_fit(b),
        root.len() == f.len(),
        f.len() <= usize::MAX,
        b.sizes@.len() == f.len(),
        below(root, f.len() as int),
        all_below(layers, f.len() as int),
        forall|t: int| 0 <= t < layers.len() ==> increasing(f, root, #[trigger] layers[t]),
        0 <= t < layers.len(),
        0 <= i < layers[t].len() - 1,
    ensures
        stepped(b, compacted(b, root, layers), layers[t], i),
{
    let m = root.len();
    let l = links(b, root, layers, layers.len() as int);
    let start = block_stack(root, layers, m as int);
    let none = Seq::new(m, |i: int| false);
    let zeros = Seq::new(m, |i: int| 0int);
    let first = finished(l, start, none);
    let left = leftmost(l, first, zeros, first.len() as int);
    let second = finished(flipped(l), start, none);
    let xs = rightmost(l, second, left, second.len() as int);
    lemma_links(b, root, layers, layers.len() as int, f);
    lemma_block_stack(root, layers, m as int);
    assert(in_progress(l, f, start, none, Set::empty()));
    lemma_finished(l, f, start, none, Set::empty());
    lemma_leftmost(l, f, first, zeros, first.len() as int);
    assert forall|r: int| 0 <= r < f.len() && #[trigger] is_block(root, layers, r) implies first.contains(
        r as usize,
    ) by {
        assert(start.contains(r as usize));
        let j = choose|j: int| 0 <= j < start.len() && start[j] == r as usize;
        assert(first.contains(start[j]));
    }
    lemma_block_links(b, root, layers, f, first, left);
    let back = flipped(l);
    let g = f.map_values(|x: int| -x);
    assert forall|x: int| 0 <= x < back.len() implies (#[trigger] back[x]).0 < g.len() && back[x].1
        < g.len() && g[back[x].0 as int] < g[back[x].1 as int] by {
        assert(l[x].0 < f.len());
    }
    assert(in_progress(back, g, start, none, Set::empty()));
    lemma_finished(back, g, start, none, Set::empty());
    lemma_rightmost(l, f, second, left, second.len() as int);
    let row = layers[t];
    assert(joined(l, b, root, row, i));
    let u = root[row[i] as int];
    let v = root[row[i + 1] as int];
    let s = separation(b, row[i] as int, row[i + 1] as int);
    let x = choose|x: int| 0 <= x < l.len() && (#[trigger] l[x]).0 == u && l[x].1 == v && s <= l[x].2;
    assert(xs[l[x].0 as int] + l[x].2 <= xs[l[x].1 as int]);
    assert(below(row, f.len() as int));
    assert(row[i] < f.len() && row[i + 1] < f.len());
}

/// How far apart two nodes of a layer are at least.
pub open spec fn clear(b: Breadths, u: int, v: int) -> int {
    b.sizes@[u] as int / 2 + own_gap(b.n as int, u) + b.sizes@[v] as int / 2 + own_gap(
        b.n as int,
        v,
    )
}

/// Whether the nodes of a row are apart from each other, in their order.
pub open spec fn spaced(b: Breadths, xs: Seq<int>, row: Seq<usize>) -> bool {
    forall|i: int, j: int|
        0 <= i < j < row.len() ==> xs[(#[trigger] row[i]) as int] + clear(
            b,
            row[i] as int,
            row[j] as int,
        ) <= xs[(#[trigger] row[j]) as int]
}

/// Nodes that are apart from their neighbours are apart from all nodes of
/// their row.
pub proof fn lemma_spaced(b: Breadths, xs: Seq<int>, row: Seq<usize>)
    requires
        !b.clustered,
        below(row, b.sizes@.len() as int),
        forall|v: int| 0 <= v < b.sizes@.len() ==> 0 <= #[trigger] b.sizes@[v],
        forall|i: int| 0 <= i < row.len() - 1 ==> #[trigger] stepped(b, xs, row, i),
    ensures
        spaced(b, xs, row),
{
    assert forall|i: int, j: int| 0 <= i < j < row.len() implies xs[(#[trigger] row[i]) as int]
        + clear(b, row[i] as int, row[j] as int) <= xs[(#[trigger] row[j]) as int] by {
        lemma_spaced_pair(b, xs, row, i, j);
    }
}

proof fn lemma_spaced_pair(b: Breadths, xs: Seq<int>, row: Seq<usize>, i: int, j: int)
    requires
        !b.clustered,
        below(row, b.sizes@.len() as int),
        forall|v: int| 0 <= v < b.sizes@.len() ==> 0 <= #[trigger] b.sizes@[v],
        forall|i: int| 0 <= i < row.len() - 1 ==> #[trigger] stepped(b, xs, row, i),
        0 <= i < j < row.len(),
    ensures
        xs[row[i] as int] + clear(b, row[i] as int, row[j] as int) <= xs[row[j] as int],
    decreases j - i,
{
    assert(stepped(b, xs, row, j - 1));
    assert(row[j - 1] < b.sizes@.len());
    assert(0 <= b.sizes@[row[j - 1] as int]);
    if i < j - 1 {
        lemma_spaced_pair(b, xs, row, i, j - 1);
    }
}

} // verus!
