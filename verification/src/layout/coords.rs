//! Where nodes stand within their layers: four alignments, blended.

use vstd::prelude::*;

use crate::advance::place::lengths::{bounded, quotient};
use crate::advance::route::geometry::{half, least, most};
use crate::advance::scene::Px;
use crate::layout::align::{align_layers, conflicts, type1_conflicts, vertical_alignment};
use crate::layout::compact::{
    breadths_fit, compacted, horizontal_compaction, numbers, places_fit, within, Breadths, WIDE,
};
use crate::layout::minimise::{positions, positions_of};
use crate::layout::ordering::{all_below, below, rows, Layers};

verus! {

/// Those of the first `k` neighbours of a node of layer `l` that are one
/// layer above, or one layer below.
pub open spec fn beside(ns: Seq<usize>, layer: Seq<usize>, l: int, up: bool, k: int) -> Seq<usize>
    decreases k,
{
    if k <= 0 {
        Seq::empty()
    } else {
        let rest = beside(ns, layer, l, up, k - 1);
        let there = layer[ns[k - 1] as int];
        if there == (if up {
            l - 1
        } else {
            l + 1
        }) {
            rest.push(ns[k - 1])
        } else {
            rest
        }
    }
}

/// The neighbours of every node in the layer above, or in the one below.
pub open spec fn adjacent(lists: Seq<Seq<usize>>, layer: Seq<usize>, up: bool) -> Seq<Seq<usize>> {
    Seq::new(
        lists.len(),
        |v: int| beside(lists[v], layer, layer[v] as int, up, lists[v].len() as int),
    )
}

fn adjacent_of(lists: &Vec<Vec<usize>>, layer: &Vec<usize>, up: bool) -> (r: Vec<Vec<usize>>)
    requires
        lists@.len() == layer@.len(),
        all_below(rows(lists@), layer@.len() as int),
    ensures
        rows(r@) == adjacent(rows(lists@), layer@, up),
        all_below(rows(r@), layer@.len() as int),
{
    let ghost m = layer@.len() as int;
    let ghost lv = rows(lists@);
    let mut r: Vec<Vec<usize>> = Vec::new();
    let mut v: usize = 0;
    while v < lists.len()
        invariant
            v <= lists@.len(),
            m == layer@.len(),
            lists@.len() == m,
            lv == rows(lists@),
            all_below(lv, m),
            r@.len() == v,
            forall|i: int| 0 <= i < v ==> (#[trigger] r@[i])@ == adjacent(lv, layer@, up)[i],
            forall|i: int| 0 <= i < v ==> below((#[trigger] r@[i])@, m),
        decreases lists@.len() - v,
    {
        let ns = &lists[v];
        assert(lv[v as int] == ns@);
        assert(below(lv[v as int], m));
        let l: usize = layer[v];
        let mut row: Vec<usize> = Vec::new();
        let mut k: usize = 0;
        while k < ns.len()
            invariant
                k <= ns@.len(),
                m == layer@.len(),
                below(ns@, m),
                below(row@, m),
                row@ == beside(ns@, layer@, l as int, up, k as int),
            decreases ns@.len() - k,
        {
            let w: usize = ns[k];
            assert(ns@[k as int] < m);
            let there: usize = layer[w];
            let next = if up {
                l > 0 && there == l - 1
            } else {
                there > 0 && there - 1 == l
            };
            if next {
                row.push(w);
            }
            k += 1;
        }
        r.push(row);
        v += 1;
    }
    assert(rows(r@) =~= adjacent(lv, layer@, up));
    assert forall|i: int| 0 <= i < rows(r@).len() implies below(#[trigger] rows(r@)[i], m) by {
        assert(below(r@[i]@, m));
    }
    r
}

/// A layer read from the left, or from the right.
pub open spec fn row_from(row: Seq<usize>, right: bool) -> Seq<usize> {
    if right {
        row.reverse()
    } else {
        row
    }
}

/// The layers read from the top or from the bottom, each from the left or
/// from the right.
pub open spec fn layers_from(layers: Seq<Seq<usize>>, bottom: bool, right: bool) -> Seq<Seq<usize>> {
    Seq::new(
        layers.len(),
        |i: int|
            row_from(
                layers[if bottom {
                    layers.len() - 1 - i
                } else {
                    i
                }],
                right,
            ),
    )
}

fn turn_row(row: &Vec<usize>, right: bool, m: usize) -> (r: Vec<usize>)
    requires
        below(row@, m as int),
    ensures
        r@ == row_from(row@, right),
        below(r@, m as int),
{
    let n: usize = row.len();
    let mut r: Vec<usize> = Vec::new();
    let mut i: usize = 0;
    while i < n
        invariant
            i <= n,
            n == row@.len(),
            below(row@, m as int),
            below(r@, m as int),
            r@.len() == i,
            forall|k: int| 0 <= k < i ==> #[trigger] r@[k] == row_from(row@, right)[k],
        decreases n - i,
    {
        let j: usize = if right {
            n - 1 - i
        } else {
            i
        };
        assert(row@[j as int] < m);
        r.push(row[j]);
        i += 1;
    }
    assert(r@ =~= row_from(row@, right));
    r
}

fn turn_layers(layers: &Vec<Vec<usize>>, bottom: bool, right: bool, m: usize) -> (r: Vec<
    Vec<usize>,
>)
    requires
        all_below(rows(layers@), m as int),
    ensures
        rows(r@) == layers_from(rows(layers@), bottom, right),
        all_below(rows(r@), m as int),
{
    let n: usize = layers.len();
    let ghost lv = rows(layers@);
    let mut r: Vec<Vec<usize>> = Vec::new();
    let mut i: usize = 0;
    while i < n
        invariant
            i <= n,
            n == layers@.len(),
            lv == rows(layers@),
            all_below(lv, m as int),
            r@.len() == i,
            forall|k: int| 0 <= k < i ==> (#[trigger] r@[k])@ == layers_from(lv, bottom, right)[k],
            forall|k: int| 0 <= k < i ==> below((#[trigger] r@[k])@, m as int),
        decreases n - i,
    {
        let j: usize = if bottom {
            n - 1 - i
        } else {
            i
        };
        assert(below(lv[j as int], m as int));
        let row = turn_row(&layers[j], right, m);
        r.push(row);
        i += 1;
    }
    assert(rows(r@) =~= layers_from(lv, bottom, right));
    assert forall|k: int| 0 <= k < rows(r@).len() implies below(#[trigger] rows(r@)[k], m as int) by {
        assert(below(r@[k]@, m as int));
    }
    r
}

/// Places, mirrored where they were found from the right.
pub open spec fn mirrored(xs: Seq<int>, right: bool) -> Seq<int> {
    if right {
        xs.map_values(|x: int| -x)
    } else {
        xs
    }
}

/// One of the four assignments: from the top or the bottom, from the left
/// or the right.
#[verifier::opaque]
pub open spec fn candidate(
    b: Breadths,
    layers: Seq<Seq<usize>>,
    nbrs: Seq<Seq<usize>>,
    barred: Seq<(usize, usize)>,
    bottom: bool,
    right: bool,
) -> Seq<int> {
    let al = layers_from(layers, bottom, right);
    let m = b.sizes@.len();
    let blocks = align_layers(m, al, nbrs, positions(al, m), barred, al.len() as int);
    mirrored(compacted(b, blocks.root, al), right)
}

fn assign(
    b: &Breadths,
    layers: &Vec<Vec<usize>>,
    nbrs: &Vec<Vec<usize>>,
    barred: &Vec<(usize, usize)>,
    bottom: bool,
    right: bool,
) -> (r: Vec<i128>)
    requires
        breadths_fit(*b),
        nbrs@.len() == b.sizes@.len(),
        all_below(rows(nbrs@), b.sizes@.len() as int),
        all_below(rows(layers@), b.sizes@.len() as int),
    ensures
        numbers(r@) == candidate(*b, rows(layers@), rows(nbrs@), barred@, bottom, right),
        within(r@, b.sizes@.len() as int, 2 * WIDE),
{
    reveal(candidate);
    let m: usize = b.sizes.len();
    let al = turn_layers(layers, bottom, right, m);
    let order = positions_of(&al, m);
    let (root, _) = vertical_alignment(&al, nbrs, &order, barred);
    let xs = horizontal_compaction(b, &root, &al);
    if !right {
        return xs;
    }
    let mut r: Vec<i128> = Vec::new();
    let mut i: usize = 0;
    while i < xs.len()
        invariant
            i <= xs@.len(),
            within(xs@, xs@.len() as int, 2 * WIDE),
            within(r@, i as int, 2 * WIDE),
            forall|k: int| 0 <= k < i ==> (#[trigger] r@[k]) == -xs@[k],
        decreases xs@.len() - i,
    {
        assert(-2 * WIDE <= xs@[i as int] <= 2 * WIDE);
        r.push(-xs[i]);
        i += 1;
    }
    assert(numbers(r@) =~= mirrored(numbers(xs@), right));
    r
}

/// How far left the first `k` nodes reach.
pub open spec fn low(xs: Seq<int>, sizes: Seq<Px>, k: int) -> int
    decreases k,
{
    let here = xs[k - 1] - sizes[k - 1] as int / 2;
    if k <= 1 {
        here
    } else {
        least(low(xs, sizes, k - 1), here)
    }
}

/// How far right the first `k` nodes reach.
pub open spec fn high(xs: Seq<int>, sizes: Seq<Px>, k: int) -> int
    decreases k,
{
    let here = xs[k - 1] + sizes[k - 1] as int / 2;
    if k <= 1 {
        here
    } else {
        most(high(xs, sizes, k - 1), here)
    }
}

/// How far the first `n` nodes reach to both sides.
pub fn extent(xs: &Vec<i128>, sizes: &Vec<Px>, n: usize, Ghost(far): Ghost<int>) -> (r: (i128, i128))
    requires
        within(xs@, sizes@.len() as int, far),
        0 <= far <= 16 * WIDE,
        places_fit(sizes@, sizes@.len() as int),
        0 < n <= sizes@.len(),
    ensures
        r.0 == low(numbers(xs@), sizes@, n as int),
        r.1 == high(numbers(xs@), sizes@, n as int),
        -far - WIDE <= r.0 <= far + WIDE,
        -far - WIDE <= r.1 <= far + WIDE,
{
    let ghost v = numbers(xs@);
    assert(bounded(sizes@[0] as int) && v[0] == xs@[0]);
    let mut lo: i128 = xs[0] - half(sizes[0]) as i128;
    let mut hi: i128 = xs[0] + half(sizes[0]) as i128;
    let mut k: usize = 1;
    while k < n
        invariant
            1 <= k <= n,
            n <= sizes@.len(),
            v == numbers(xs@),
            within(xs@, sizes@.len() as int, far),
            0 <= far <= 16 * WIDE,
            places_fit(sizes@, sizes@.len() as int),
            lo == low(v, sizes@, k as int),
            hi == high(v, sizes@, k as int),
            -far - WIDE <= lo <= far + WIDE,
            -far - WIDE <= hi <= far + WIDE,
        decreases n - k,
    {
        assert(bounded(sizes@[k as int] as int) && v[k as int] == xs@[k as int]);
        let by: i128 = half(sizes[k]) as i128;
        let left: i128 = xs[k] - by;
        let right: i128 = xs[k] + by;
        if left < lo {
            lo = left;
        }
        if hi < right {
            hi = right;
        }
        k += 1;
    }
    (lo, hi)
}

/// How wide an assignment is.
pub open spec fn wide(xs: Seq<int>, sizes: Seq<Px>, n: int) -> int {
    high(xs, sizes, n) - low(xs, sizes, n)
}

/// The first of the narrowest among the first `k` assignments.
pub open spec fn narrowest(cands: Seq<Seq<int>>, sizes: Seq<Px>, n: int, k: int) -> int
    decreases k,
{
    if k <= 1 {
        0
    } else {
        let best = narrowest(cands, sizes, n, k - 1);
        if wide(cands[k - 1], sizes, n) < wide(cands[best], sizes, n) {
            k - 1
        } else {
            best
        }
    }
}

/// Places, all moved by the same length.
pub open spec fn moved(xs: Seq<int>, by: int) -> Seq<int> {
    xs.map_values(|x: int| x + by)
}

/// Move all places.
fn shift(xs: &Vec<i128>, by: i128, Ghost(far): Ghost<int>) -> (r: Vec<i128>)
    requires
        within(xs@, xs@.len() as int, far),
        0 <= far <= 16 * WIDE,
        -16 * WIDE <= by <= 16 * WIDE,
    ensures
        numbers(r@) == moved(numbers(xs@), by as int),
        within(r@, xs@.len() as int, far + (if by < 0 {
            -by
        } else {
            by as int
        })),
{
    let ghost more = far + (if by < 0 {
        -by
    } else {
        by as int
    });
    let mut r: Vec<i128> = Vec::new();
    let mut i: usize = 0;
    while i < xs.len()
        invariant
            i <= xs@.len(),
            within(xs@, xs@.len() as int, far),
            0 <= far <= 16 * WIDE,
            -16 * WIDE <= by <= 16 * WIDE,
            more == far + (if by < 0 {
                -by
            } else {
                by as int
            }),
            within(r@, i as int, more),
            forall|k: int| 0 <= k < i ==> (#[trigger] r@[k]) == xs@[k] + by,
        decreases xs@.len() - i,
    {
        assert(-far <= xs@[i as int] <= far);
        r.push(xs[i] + by);
        i += 1;
    }
    assert(numbers(r@) =~= moved(numbers(xs@), by as int));
    r
}

/// Assignment `i`, moved so that it shares an edge with assignment `a`: the
/// left one where it was found from the left, else the right one.
pub open spec fn aligned(
    cands: Seq<Seq<int>>,
    sizes: Seq<Px>,
    n: int,
    a: int,
    i: int,
) -> Seq<int> {
    if i == a {
        cands[i]
    } else if i % 2 == 0 {
        moved(cands[i], low(cands[a], sizes, n) - low(cands[i], sizes, n))
    } else {
        moved(cands[i], high(cands[a], sizes, n) - high(cands[i], sizes, n))
    }
}

/// The candidates as sequences.
pub open spec fn places(v: Seq<Vec<i128>>) -> Seq<Seq<int>> {
    v.map_values(|x: Vec<i128>| numbers(x@))
}

/// Whether all candidates are in range, with a place for each of `m` nodes.
pub open spec fn all_within(v: Seq<Vec<i128>>, m: int, far: int) -> bool {
    forall|i: int| 0 <= i < v.len() ==> within((#[trigger] v[i])@, m, far)
}

/// Move the candidates to where the narrowest of them is.
fn align_candidates(cands: &Vec<Vec<i128>>, sizes: &Vec<Px>, n: usize) -> (r: Vec<Vec<i128>>)
    requires
        cands@.len() > 0,
        all_within(cands@, sizes@.len() as int, 2 * WIDE),
        places_fit(sizes@, sizes@.len() as int),
        0 < n <= sizes@.len(),
    ensures
        r@.len() == cands@.len(),
        all_within(r@, sizes@.len() as int, 8 * WIDE),
        ({
            let c = places(cands@);
            let a = narrowest(c, sizes@, n as int, c.len() as int);
            forall|i: int|
                0 <= i < r@.len() ==> numbers((#[trigger] r@[i])@) == aligned(c, sizes@, n as int, a, i)
        }),
{
    let ghost c = places(cands@);
    let ghost m = sizes@.len() as int;
    assert(c[0] == numbers(cands@[0]@));
    let mut anchor: usize = 0;
    let (mut amin, mut amax): (i128, i128) = extent(&cands[0], sizes, n, Ghost(2 * WIDE));
    let mut k: usize = 1;
    while k < cands.len()
        invariant
            1 <= k <= cands@.len(),
            c == places(cands@),
            m == sizes@.len(),
            all_within(cands@, m, 2 * WIDE),
            places_fit(sizes@, m),
            0 < n <= m,
            anchor < cands@.len(),
            anchor == narrowest(c, sizes@, n as int, k as int),
            amin == low(c[anchor as int], sizes@, n as int),
            amax == high(c[anchor as int], sizes@, n as int),
            -3 * WIDE <= amin <= 3 * WIDE,
            -3 * WIDE <= amax <= 3 * WIDE,
        decreases cands@.len() - k,
    {
        assert(c[k as int] == numbers(cands@[k as int]@));
        let (lo, hi): (i128, i128) = extent(&cands[k], sizes, n, Ghost(2 * WIDE));
        if hi - lo < amax - amin {
            anchor = k;
            amin = lo;
            amax = hi;
        }
        k += 1;
    }
    let mut r: Vec<Vec<i128>> = Vec::new();
    let mut i: usize = 0;
    while i < cands.len()
        invariant
            i <= cands@.len(),
            c == places(cands@),
            m == sizes@.len(),
            all_within(cands@, m, 2 * WIDE),
            places_fit(sizes@, m),
            0 < n <= m,
            anchor < cands@.len(),
            amin == low(c[anchor as int], sizes@, n as int),
            amax == high(c[anchor as int], sizes@, n as int),
            -3 * WIDE <= amin <= 3 * WIDE,
            -3 * WIDE <= amax <= 3 * WIDE,
            r@.len() == i,
            all_within(r@, m, 8 * WIDE),
            forall|j: int|
                0 <= j < i ==> numbers((#[trigger] r@[j])@) == aligned(
                    c,
                    sizes@,
                    n as int,
                    anchor as int,
                    j,
                ),
        decreases cands@.len() - i,
    {
        assert(c[i as int] == numbers(cands@[i as int]@));
        let (lo, hi): (i128, i128) = extent(&cands[i], sizes, n, Ghost(2 * WIDE));
        let by: i128 = if i == anchor {
            0
        } else if i % 2 == 0 {
            amin - lo
        } else {
            amax - hi
        };
        let xs = shift(&cands[i], by, Ghost(2 * WIDE));
        assert(i == anchor ==> numbers(xs@) =~= c[i as int]);
        assert(within(xs@, m, 8 * WIDE));
        r.push(xs);
        i += 1;
    }
    r
}

/// Halfway between the two middle ones of four places.
pub open spec fn middle(a: int, b: int, c: int, d: int) -> int {
    (a + b + c + d - least(least(a, b), least(c, d)) - most(most(a, b), most(c, d))) / 2
}

fn middle_of(a: i128, b: i128, c: i128, d: i128) -> (r: i128)
    requires
        -8 * WIDE <= a <= 8 * WIDE,
        -8 * WIDE <= b <= 8 * WIDE,
        -8 * WIDE <= c <= 8 * WIDE,
        -8 * WIDE <= d <= 8 * WIDE,
    ensures
        r == middle(a as int, b as int, c as int, d as int),
        -16 * WIDE <= r <= 16 * WIDE,
{
    let (p, q): (i128, i128) = if a < b {
        (a, b)
    } else {
        (b, a)
    };
    let (s, t): (i128, i128) = if c < d {
        (c, d)
    } else {
        (d, c)
    };
    let lo: i128 = if p < s {
        p
    } else {
        s
    };
    let hi: i128 = if q < t {
        t
    } else {
        q
    };
    quotient(a + b + c + d - lo - hi, 2)
}

/// The four assignments of a layered graph.
pub open spec fn candidates(g: Layers, layers: Seq<Seq<usize>>, b: Breadths) -> Seq<Seq<int>> {
    let up = adjacent(rows(g.preds@), g.layer@, true);
    let down = adjacent(rows(g.succs@), g.layer@, false);
    let barred = conflicts(
        layers,
        up,
        positions(layers, g.layer@.len()),
        b.n as int,
        layers.len() as int,
    );
    seq![
        candidate(b, layers, up, barred, false, false),
        candidate(b, layers, up, barred, false, true),
        candidate(b, layers, down, barred, true, false),
        candidate(b, layers, down, barred, true, true),
    ]
}

/// Each node halfway between the two middle ones of its four places.
pub open spec fn blended(a: Seq<int>, b: Seq<int>, c: Seq<int>, d: Seq<int>) -> Seq<int> {
    Seq::new(a.len(), |v: int| middle(a[v], b[v], c[v], d[v]))
}

fn blend(a: &Vec<i128>, b: &Vec<i128>, c: &Vec<i128>, d: &Vec<i128>) -> (r: Vec<i128>)
    requires
        within(a@, a@.len() as int, 8 * WIDE),
        within(b@, a@.len() as int, 8 * WIDE),
        within(c@, a@.len() as int, 8 * WIDE),
        within(d@, a@.len() as int, 8 * WIDE),
    ensures
        numbers(r@) == blended(numbers(a@), numbers(b@), numbers(c@), numbers(d@)),
        within(r@, a@.len() as int, 16 * WIDE),
{
    let mut r: Vec<i128> = Vec::new();
    let mut v: usize = 0;
    while v < a.len()
        invariant
            v <= a@.len(),
            within(a@, a@.len() as int, 8 * WIDE),
            within(b@, a@.len() as int, 8 * WIDE),
            within(c@, a@.len() as int, 8 * WIDE),
            within(d@, a@.len() as int, 8 * WIDE),
            within(r@, v as int, 16 * WIDE),
            forall|i: int|
                0 <= i < v ==> (#[trigger] r@[i]) == middle(
                    a@[i] as int,
                    b@[i] as int,
                    c@[i] as int,
                    d@[i] as int,
                ),
        decreases a@.len() - v,
    {
        r.push(middle_of(a[v], b[v], c[v], d[v]));
        v += 1;
    }
    assert(numbers(r@) =~= blended(numbers(a@), numbers(b@), numbers(c@), numbers(d@)));
    r
}

/// The place of every node within its layer.
pub open spec fn coordinates(g: Layers, layers: Seq<Seq<usize>>, b: Breadths) -> Seq<int> {
    let c = candidates(g, layers, b);
    let a = narrowest(c, b.sizes@, b.n as int, 4);
    blended(
        aligned(c, b.sizes@, b.n as int, a, 0),
        aligned(c, b.sizes@, b.n as int, a, 1),
        aligned(c, b.sizes@, b.n as int, a, 2),
        aligned(c, b.sizes@, b.n as int, a, 3),
    )
}

/// Find the four assignments.
fn assign_all(g: &Layers, layers: &Vec<Vec<usize>>, b: &Breadths) -> (r: Vec<Vec<i128>>)
    requires
        breadths_fit(*b),
        g.layer@.len() == b.sizes@.len(),
        g.preds@.len() == b.sizes@.len(),
        g.succs@.len() == b.sizes@.len(),
        all_below(rows(g.preds@), b.sizes@.len() as int),
        all_below(rows(g.succs@), b.sizes@.len() as int),
        all_below(rows(layers@), b.sizes@.len() as int),
    ensures
        places(r@) == candidates(*g, rows(layers@), *b),
        r@.len() == 4,
        all_within(r@, b.sizes@.len() as int, 2 * WIDE),
{
    let m: usize = b.sizes.len();
    let up = adjacent_of(&g.preds, &g.layer, true);
    let down = adjacent_of(&g.succs, &g.layer, false);
    assert(rows(up@).len() == up@.len() && rows(down@).len() == down@.len());
    let order = positions_of(layers, m);
    let barred = type1_conflicts(b.n, layers, &up, &order);
    let one = assign(b, layers, &up, &barred, false, false);
    let two = assign(b, layers, &up, &barred, false, true);
    let three = assign(b, layers, &down, &barred, true, false);
    let four = assign(b, layers, &down, &barred, true, true);
    let r = vec![one, two, three, four];
    assert(places(r@) =~= candidates(*g, rows(layers@), *b));
    r
}

/// Place all nodes within their layers.
pub fn coordinates_bk(g: &Layers, layers: &Vec<Vec<usize>>, b: &Breadths) -> (r: Vec<i128>)
    requires
        breadths_fit(*b),
        g.layer@.len() == b.sizes@.len(),
        g.preds@.len() == b.sizes@.len(),
        g.succs@.len() == b.sizes@.len(),
        all_below(rows(g.preds@), b.sizes@.len() as int),
        all_below(rows(g.succs@), b.sizes@.len() as int),
        all_below(rows(layers@), b.sizes@.len() as int),
        0 < b.n <= b.sizes@.len(),
    ensures
        numbers(r@) == coordinates(*g, rows(layers@), *b),
        within(r@, b.sizes@.len() as int, 16 * WIDE),
{
    let cands = assign_all(g, layers, b);
    let q = align_candidates(&cands, b.sizes, b.n);
    let ghost m = b.sizes@.len() as int;
    assert(within(q@[0]@, m, 8 * WIDE) && within(q@[1]@, m, 8 * WIDE));
    assert(within(q@[2]@, m, 8 * WIDE) && within(q@[3]@, m, 8 * WIDE));
    blend(&q[0], &q[1], &q[2], &q[3])
}

} // verus!
