//! Ordering the nodes within their layers so that few edges cross.

use vstd::prelude::*;

use crate::layout::clusters::WallSide;
use crate::layout::sorting::{
    law_sorting_orders, law_sorting_rearranges, proper, sort, sorted, Class, Item,
};

verus! {

/// Lists of node numbers.
pub open spec fn rows(s: Seq<Vec<usize>>) -> Seq<Seq<usize>> {
    s.map_values(|v: Vec<usize>| v@)
}

/// An item sorted by a whole number.
pub open spec fn number_item(p: usize) -> Item {
    Item { class: Class::Valued, num: p as u128, den: 1, tie: 0, val: p }
}

pub open spec fn number_items(s: Seq<usize>) -> Seq<Item> {
    s.map_values(|p: usize| number_item(p))
}

/// Numbers in ascending order.
pub open spec fn ascending(s: Seq<usize>) -> Seq<usize> {
    sorted(number_items(s)).map_values(|x: Item| x.val)
}

/// The weighted median of ascending numbers, as a fraction. Between the two
/// middle numbers of an even count it leans towards the denser side.
pub open spec fn median(p: Seq<usize>) -> (int, int) {
    let m = p.len() as int;
    let mid = m / 2;
    if m == 1 {
        (p[0] as int, 1)
    } else if m == 2 {
        (p[0] + p[1], 2)
    } else if m % 2 == 1 {
        (p[mid] as int, 1)
    } else {
        let left = p[mid - 1] - p[0];
        let right = p[m - 1] - p[mid];
        if left + right == 0 {
            (p[mid - 1] + p[mid], 2)
        } else {
            (p[mid - 1] * right + p[mid] * left, left + right)
        }
    }
}

/// The positions of nodes.
pub open spec fn places(nodes: Seq<usize>, pos: Seq<usize>) -> Seq<usize> {
    nodes.map_values(|u: usize| pos[u as int])
}

/// What a node is sorted by: the median position of its neighbours, or its
/// own position where it has none; then its number.
pub open spec fn node_item(v: usize, nbrs: Seq<Seq<usize>>, pos: Seq<usize>) -> Item {
    let ns = nbrs[v as int];
    let (num, den) = if ns.len() == 0 {
        (pos[v as int] as int, 1int)
    } else {
        median(ascending(places(ns, pos)))
    };
    Item { class: Class::Valued, num: num as u128, den: den as u64, tie: v, val: v }
}

/// A layer in the order of its nodes' medians.
pub open spec fn reordered(layer: Seq<usize>, nbrs: Seq<Seq<usize>>, pos: Seq<usize>) -> Seq<usize> {
    sorted(layer.map_values(|v: usize| node_item(v, nbrs, pos))).map_values(|x: Item| x.val)
}

/// The positions after the first `k` nodes of a layer were numbered.
pub open spec fn numbered(pos: Seq<usize>, layer: Seq<usize>, k: int) -> Seq<usize>
    decreases k,
{
    if k <= 0 {
        pos
    } else {
        numbered(pos, layer, k - 1).update(layer[k - 1] as int, (k - 1) as usize)
    }
}

/// Whether all numbers are below `n`.
pub open spec fn below(s: Seq<usize>, n: int) -> bool {
    forall|i: int| 0 <= i < s.len() ==> (#[trigger] s[i]) < n
}

/// Whether all numbers of all lists are below `n`.
pub open spec fn all_below(s: Seq<Seq<usize>>, n: int) -> bool {
    forall|i: int| 0 <= i < s.len() ==> below(#[trigger] s[i], n)
}

pub proof fn lemma_numbered_len(pos: Seq<usize>, layer: Seq<usize>, k: int)
    requires
        below(layer, pos.len() as int),
        k <= layer.len(),
    ensures
        numbered(pos, layer, k).len() == pos.len(),
    decreases k,
{
    if k > 0 {
        lemma_numbered_len(pos, layer, k - 1);
    }
}

/// Number the nodes of a layer from left to right.
pub fn number_layer(pos: &mut Vec<usize>, layer: &Vec<usize>)
    requires
        below(layer@, old(pos)@.len() as int),
    ensures
        final(pos)@ == numbered(old(pos)@, layer@, layer@.len() as int),
        final(pos)@.len() == old(pos)@.len(),
{
    let ghost start = pos@;
    let mut i: usize = 0;
    while i < layer.len()
        invariant
            i <= layer@.len(),
            pos@.len() == start.len(),
            below(layer@, start.len() as int),
            pos@ == numbered(start, layer@, i as int),
        decreases layer@.len() - i,
    {
        let v = layer[i];
        pos.set(v, i);
        i += 1;
    }
}

fn ascending_of(s: &Vec<usize>) -> (r: Vec<usize>)
    ensures
        r@ == ascending(s@),
        r@.len() == s@.len(),
        forall|i: int, j: int| 0 <= i < j < r@.len() ==> r@[i] <= r@[j],
{
    let mut items: Vec<Item> = Vec::new();
    let mut i: usize = 0;
    while i < s.len()
        invariant
            i <= s@.len(),
            items@ == number_items(s@).take(i as int),
        decreases s@.len() - i,
    {
        items.push(Item { class: Class::Valued, num: s[i] as u128, den: 1, tie: 0, val: s[i] });
        assert(items@ =~= number_items(s@).take(i as int + 1));
        i += 1;
    }
    assert(items@ =~= number_items(s@));
    let t = sort(&items);
    proof {
        law_sorting_orders(items@);
        law_sorting_rearranges(items@);
        lemma_sorted_items(items@);
    }
    let mut r: Vec<usize> = Vec::new();
    let mut k: usize = 0;
    while k < t.len()
        invariant
            k <= t@.len(),
            r@ == t@.map_values(|x: Item| x.val).take(k as int),
        decreases t@.len() - k,
    {
        r.push(t[k].val);
        assert(r@ =~= t@.map_values(|x: Item| x.val).take(k as int + 1));
        k += 1;
    }
    assert(r@ =~= t@.map_values(|x: Item| x.val));
    assert forall|i: int, j: int| 0 <= i < j < r@.len() implies r@[i] <= r@[j] by {
        assert(!crate::layout::sorting::before(t@[j], t@[i]));
        assert(t@[i] == number_item(t@[i].val) && t@[j] == number_item(t@[j].val));
    }
    r
}

/// Sorting number items gives number items.
proof fn lemma_sorted_items(s: Seq<Item>)
    requires
        forall|i: int| 0 <= i < s.len() ==> #[trigger] s[i] == number_item(s[i].val),
    ensures
        forall|i: int|
            0 <= i < sorted(s).len() ==> #[trigger] sorted(s)[i] == number_item(sorted(s)[i].val),
{
    broadcast use vstd::seq_lib::group_to_multiset_ensures;

    law_sorting_rearranges(s);
    assert forall|i: int| 0 <= i < sorted(s).len() implies #[trigger] sorted(s)[i] == number_item(
        sorted(s)[i].val,
    ) by {
        assert(sorted(s).to_multiset().count(sorted(s)[i]) > 0);
        assert(s.contains(sorted(s)[i]));
        let j = choose|j: int| 0 <= j < s.len() && s[j] == sorted(s)[i];
        assert(s[j] == number_item(s[j].val));
    }
}

proof fn lemma_blend(a: int, b: int, left: int, right: int)
    requires
        0 <= a <= 0xffff_ffff_ffff_ffff,
        0 <= b <= 0xffff_ffff_ffff_ffff,
        0 <= left,
        0 <= right,
        left + right <= 0xffff_ffff_ffff_ffff,
    ensures
        0 <= a * right <= 0xffff_ffff_ffff_ffff * 0xffff_ffff_ffff_ffff,
        0 <= b * left <= 0xffff_ffff_ffff_ffff * 0xffff_ffff_ffff_ffff,
        0 <= a * right + b * left <= 0xffff_ffff_ffff_ffff * 0xffff_ffff_ffff_ffff,
{
    let m: int = 0xffff_ffff_ffff_ffff;
    assert(0 <= a * right <= m * right) by (nonlinear_arith)
        requires
            0 <= a <= m,
            0 <= right,
    ;
    assert(0 <= b * left <= m * left) by (nonlinear_arith)
        requires
            0 <= b <= m,
            0 <= left,
    ;
    assert(m * right + m * left <= m * m) by (nonlinear_arith)
        requires
            left + right <= m,
            0 <= m,
    ;
    assert(0 <= m * left && 0 <= m * right) by (nonlinear_arith)
        requires
            0 <= left,
            0 <= right,
            0 <= m,
    ;
}

fn median_of(p: &Vec<usize>) -> (r: (u128, u64))
    requires
        p@.len() > 0,
        forall|i: int, j: int| 0 <= i < j < p@.len() ==> p@[i] <= p@[j],
    ensures
        (r.0 as int, r.1 as int) == median(p@),
        r.1 > 0,
{
    let m: usize = p.len();
    let mid: usize = m / 2;
    if m == 1 {
        return (p[0] as u128, 1);
    }
    if m == 2 {
        return (p[0] as u128 + p[1] as u128, 2);
    }
    if m % 2 == 1 {
        return (p[mid] as u128, 1);
    }
    assert(p@[0] <= p@[mid - 1]);
    assert(p@[mid - 1] <= p@[mid as int]);
    assert(p@[mid as int] <= p@[m - 1]);
    let left: usize = p[mid - 1] - p[0];
    let right: usize = p[m - 1] - p[mid];
    if left == 0 && right == 0 {
        return (p[mid - 1] as u128 + p[mid] as u128, 2);
    }
    proof {
        lemma_blend(
            p@[mid - 1] as int,
            p@[mid as int] as int,
            left as int,
            right as int,
        );
    }
    let num: u128 = p[mid - 1] as u128 * right as u128 + p[mid] as u128 * left as u128;
    (num, left as u64 + right as u64)
}

fn node_item_of(v: usize, nbrs: &Vec<Vec<usize>>, pos: &Vec<usize>) -> (r: Item)
    requires
        v < pos@.len(),
        nbrs@.len() == pos@.len(),
        all_below(rows(nbrs@), pos@.len() as int),
    ensures
        r == node_item(v, rows(nbrs@), pos@),
        r.den > 0,
        r.val == v,
{
    let ns = &nbrs[v];
    assert(rows(nbrs@)[v as int] == ns@);
    if ns.len() == 0 {
        return Item { class: Class::Valued, num: pos[v] as u128, den: 1, tie: v, val: v };
    }
    let mut p: Vec<usize> = Vec::new();
    let mut i: usize = 0;
    while i < ns.len()
        invariant
            i <= ns@.len(),
            below(ns@, pos@.len() as int),
            p@ == places(ns@, pos@).take(i as int),
        decreases ns@.len() - i,
    {
        p.push(pos[ns[i]]);
        assert(p@ =~= places(ns@, pos@).take(i as int + 1));
        i += 1;
    }
    assert(p@ =~= places(ns@, pos@));
    let a = ascending_of(&p);
    let (num, den) = median_of(&a);
    Item { class: Class::Valued, num, den, tie: v, val: v }
}

pub proof fn lemma_reordered(layer: Seq<usize>, nbrs: Seq<Seq<usize>>, pos: Seq<usize>)
    ensures
        reordered(layer, nbrs, pos).len() == layer.len(),
        reordered(layer, nbrs, pos).to_multiset() == layer.to_multiset(),
{
    let items = layer.map_values(|v: usize| node_item(v, nbrs, pos));
    law_sorting_rearranges(items);
    lemma_vals_rearranged(sorted(items), items);
    assert(items.map_values(|x: Item| x.val) =~= layer);
}

/// Rearranged items have rearranged values.
pub proof fn lemma_vals_rearranged(a: Seq<Item>, b: Seq<Item>)
    requires
        a.to_multiset() == b.to_multiset(),
    ensures
        a.map_values(|x: Item| x.val).to_multiset() == b.map_values(
            |x: Item| x.val,
        ).to_multiset(),
        a.len() == b.len(),
    decreases a.len(),
{
    broadcast use vstd::seq_lib::group_to_multiset_ensures;

    let f = |x: Item| x.val;
    if a.len() == 0 {
        assert(a.to_multiset() =~= vstd::multiset::Multiset::empty());
        if b.len() > 0 {
            assert(b.to_multiset().count(b[0]) > 0);
        }
        assert(a.map_values(f) =~= b.map_values(f));
    } else {
        let x = a.last();
        let h = a.drop_last();
        assert(a =~= h.push(x));
        assert(a.to_multiset().count(x) > 0) by {
            assert(a.contains(a[a.len() - 1]));
        }
        assert(b.contains(x));
        let i = b.index_of(x);
        let c = b.remove(i);
        assert(b =~= c.insert(i, x));
        vstd::seq_lib::to_multiset_remove(b, i);
        assert(h.to_multiset() =~= c.to_multiset()) by {
            assert(a.to_multiset() =~= h.to_multiset().insert(x));
        }
        lemma_vals_rearranged(h, c);
        assert(a.map_values(f) =~= h.map_values(f).push(f(x)));
        assert(b.map_values(f) =~= c.map_values(f).insert(i, f(x)));
        vstd::seq_lib::to_multiset_insert(c.map_values(f), i, f(x));
        assert(a.map_values(f).to_multiset() =~= b.map_values(f).to_multiset());
    }
}

/// Sort a layer by the medians of its nodes, and number it anew.
pub fn reorder(layer: &mut Vec<usize>, nbrs: &Vec<Vec<usize>>, pos: &mut Vec<usize>)
    requires
        below(old(layer)@, old(pos)@.len() as int),
        nbrs@.len() == old(pos)@.len(),
        all_below(rows(nbrs@), old(pos)@.len() as int),
    ensures
        final(layer)@ == reordered(old(layer)@, rows(nbrs@), old(pos)@),
        final(pos)@ == numbered(old(pos)@, final(layer)@, final(layer)@.len() as int),
        final(pos)@.len() == old(pos)@.len(),
        below(final(layer)@, old(pos)@.len() as int),
{
    let ghost start = layer@;
    let ghost p0 = pos@;
    let ghost items0 = start.map_values(|v: usize| node_item(v, rows(nbrs@), p0));
    let mut items: Vec<Item> = Vec::new();
    let mut i: usize = 0;
    while i < layer.len()
        invariant
            i <= layer@.len(),
            layer@ == start,
            pos@ == p0,
            below(start, p0.len() as int),
            nbrs@.len() == p0.len(),
            all_below(rows(nbrs@), p0.len() as int),
            items0 == start.map_values(|v: usize| node_item(v, rows(nbrs@), p0)),
            items@ == items0.take(i as int),
            proper(items@),
        decreases layer@.len() - i,
    {
        let ghost before = items@;
        items.push(node_item_of(layer[i], nbrs, pos));
        assert(items@ =~= items0.take(i as int + 1));
        assert forall|j: int| 0 <= j < items@.len() implies (#[trigger] items@[j]).den > 0 by {
            if j < before.len() {
                assert(items@[j] == before[j]);
            }
        }
        i += 1;
    }
    assert(items@ =~= items0);
    let t = sort(&items);
    let mut out: Vec<usize> = Vec::new();
    let mut k: usize = 0;
    while k < t.len()
        invariant
            k <= t@.len(),
            out@ == t@.map_values(|x: Item| x.val).take(k as int),
        decreases t@.len() - k,
    {
        out.push(t[k].val);
        assert(out@ =~= t@.map_values(|x: Item| x.val).take(k as int + 1));
        k += 1;
    }
    assert(out@ =~= t@.map_values(|x: Item| x.val));
    proof {
        lemma_reordered(start, rows(nbrs@), p0);
        lemma_below_rearranged(out@, start, p0.len() as int);
    }
    *layer = out;
    number_layer(pos, layer);
}

pub proof fn lemma_below_rearranged(a: Seq<usize>, b: Seq<usize>, n: int)
    requires
        a.to_multiset() == b.to_multiset(),
        below(b, n),
    ensures
        below(a, n),
{
    broadcast use vstd::seq_lib::group_to_multiset_ensures;

    assert forall|i: int| 0 <= i < a.len() implies (#[trigger] a[i]) < n by {
        assert(a.to_multiset().count(a[i]) > 0);
        assert(b.contains(a[i]));
        let j = choose|j: int| 0 <= j < b.len() && b[j] == a[i];
        assert(b[j] < n);
    }
}

/// A count that stops at the largest number there is.
pub open spec fn cap(n: int) -> u128 {
    if n > u128::MAX {
        u128::MAX
    } else {
        n as u128
    }
}

/// How many of the first `k` nodes of `b` stand left of position `p`.
pub open spec fn left_of(p: usize, b: Seq<usize>, pos: Seq<usize>, k: int) -> nat
    decreases k,
{
    if k <= 0 {
        0
    } else {
        left_of(p, b, pos, k - 1) + if p > pos[b[k - 1] as int] {
            1nat
        } else {
            0nat
        }
    }
}

/// How many edges to `b` cross the edges to the first `k` nodes of `a` when
/// the node of `a` stands just left of that of `b`.
pub open spec fn local_crossings(a: Seq<usize>, b: Seq<usize>, pos: Seq<usize>, k: int) -> nat
    decreases k,
{
    if k <= 0 {
        0
    } else {
        local_crossings(a, b, pos, k - 1) + left_of(
            pos[a[k - 1] as int],
            b,
            pos,
            b.len() as int,
        )
    }
}

fn add_capped(a: u128, b: u128, Ghost(x): Ghost<int>, Ghost(y): Ghost<int>) -> (r: u128)
    requires
        a == cap(x),
        b == cap(y),
        0 <= x,
        0 <= y,
    ensures
        r == cap(x + y),
{
    a.saturating_add(b)
}

fn local_crossings_of(a: &Vec<usize>, b: &Vec<usize>, pos: &Vec<usize>) -> (r: u128)
    requires
        below(a@, pos@.len() as int),
        below(b@, pos@.len() as int),
    ensures
        r == cap(local_crossings(a@, b@, pos@, a@.len() as int) as int),
{
    let mut total: u128 = 0;
    let mut i: usize = 0;
    while i < a.len()
        invariant
            i <= a@.len(),
            below(a@, pos@.len() as int),
            below(b@, pos@.len() as int),
            total == cap(local_crossings(a@, b@, pos@, i as int) as int),
        decreases a@.len() - i,
    {
        let p = pos[a[i]];
        let mut c: u128 = 0;
        let mut j: usize = 0;
        while j < b.len()
            invariant
                j <= b@.len(),
                below(b@, pos@.len() as int),
                c == left_of(p, b@, pos@, j as int),
                c <= j,
            decreases b@.len() - j,
        {
            if p > pos[b[j]] {
                c = c + 1;
            }
            j += 1;
        }
        total = add_capped(
            total,
            c,
            Ghost(local_crossings(a@, b@, pos@, i as int) as int),
            Ghost(left_of(p, b@, pos@, b@.len() as int) as int),
        );
        i += 1;
    }
    total
}

/// What the ordering works with besides the order itself.
#[verifier::ext_equal]
pub struct Scene {
    pub preds: Seq<Seq<usize>>,
    pub succs: Seq<Seq<usize>>,
    pub layer: Seq<usize>,
    /// Whether there are subgraphs to keep together.
    pub clustered: bool,
    /// The subgraph path of every node.
    pub paths: Seq<Seq<usize>>,
    /// The wall side of every node.
    pub sides: Seq<WallSide>,
}

/// An order of the nodes within their layers, and the position of each.
#[verifier::ext_equal]
pub struct Order {
    pub layers: Seq<Seq<usize>>,
    pub pos: Seq<usize>,
}

/// Whether two neighbours may change places: both inside the same subgraph,
/// and none of them a wall.
pub open spec fn may_swap(g: Scene, v: usize, w: usize) -> bool {
    !g.clustered || (g.sides[v as int] == WallSide::Inside && g.sides[w as int] == WallSide::Inside
        && g.paths[v as int] == g.paths[w as int])
}

/// The crossings between the edges of `v` and `w` when `v` stands just left
/// of `w`.
pub open spec fn pair_crossings(g: Scene, pos: Seq<usize>, v: usize, w: usize) -> u128 {
    cap(
        (local_crossings(
            g.preds[v as int],
            g.preds[w as int],
            pos,
            g.preds[v as int].len() as int,
        ) + local_crossings(
            g.succs[v as int],
            g.succs[w as int],
            pos,
            g.succs[v as int].len() as int,
        )) as int,
    )
}

/// The order after node `i` of layer `l` and its right neighbour changed
/// places where that saves crossings, and whether they did.
pub open spec fn try_swap(g: Scene, o: Order, l: int, i: int) -> (Order, bool) {
    let v = o.layers[l][i];
    let w = o.layers[l][i + 1];
    if may_swap(g, v, w) && pair_crossings(g, o.pos, w, v) < pair_crossings(g, o.pos, v, w) {
        (
            Order {
                layers: o.layers.update(l, o.layers[l].update(i, w).update(i + 1, v)),
                pos: o.pos.update(v as int, (i + 1) as usize).update(w as int, i as usize),
            },
            true,
        )
    } else {
        (o, false)
    }
}

/// Layer `l` from node `i` on.
pub open spec fn sweep_layer(g: Scene, o: Order, l: int, i: int, changed: bool) -> (Order, bool)
    decreases o.layers[l].len() - i,
{
    if 0 <= l < o.layers.len() && 0 <= i && i + 1 < o.layers[l].len() {
        let (p, c) = try_swap(g, o, l, i);
        sweep_layer(g, p, l, i + 1, changed || c)
    } else {
        (o, changed)
    }
}

/// The layers from `l` on, up to `n`.
pub open spec fn sweep(g: Scene, o: Order, l: int, n: int, changed: bool) -> (Order, bool)
    decreases n - l,
{
    if l >= n {
        (o, changed)
    } else {
        let (p, c) = sweep_layer(g, o, l, 0, changed);
        sweep(g, p, l + 1, n, c)
    }
}

/// The order after sweeping until nothing changes, `rounds` times at most.
pub open spec fn transposed(g: Scene, o: Order, rounds: nat) -> Order
    decreases rounds,
{
    if rounds == 0 {
        o
    } else {
        let (p, changed) = sweep(g, o, 0, o.layers.len() as int, false);
        if changed {
            transposed(g, p, (rounds - 1) as nat)
        } else {
            p
        }
    }
}

/// Whether the lists belong to `n` nodes and name none but them.
pub open spec fn fits(g: Scene, n: int) -> bool {
    &&& g.preds.len() == n
    &&& g.succs.len() == n
    &&& g.layer.len() == n
    &&& all_below(g.preds, n)
    &&& all_below(g.succs, n)
    &&& g.clustered ==> g.paths.len() == n && g.sides.len() == n
}

/// Whether an order names none but `n` nodes.
pub open spec fn order_fits(o: Order, n: int) -> bool {
    o.pos.len() == n && all_below(o.layers, n)
}

/// Everything the ordering works with, in machine numbers.
#[derive(Debug)]
pub struct Layers {
    pub preds: Vec<Vec<usize>>,
    pub succs: Vec<Vec<usize>>,
    pub layer: Vec<usize>,
    pub clustered: bool,
    pub paths: Vec<Vec<usize>>,
    pub sides: Vec<WallSide>,
}

impl View for Layers {
    type V = Scene;

    open spec fn view(&self) -> Scene {
        Scene {
            preds: rows(self.preds@),
            succs: rows(self.succs@),
            layer: self.layer@,
            clustered: self.clustered,
            paths: rows(self.paths@),
            sides: self.sides@,
        }
    }
}

/// An [`Order`] in machine numbers.
#[derive(Debug)]
pub struct Arranged {
    pub layers: Vec<Vec<usize>>,
    pub pos: Vec<usize>,
}

impl View for Arranged {
    type V = Order;

    open spec fn view(&self) -> Order {
        Order { layers: rows(self.layers@), pos: self.pos@ }
    }
}

fn same_list(a: &Vec<usize>, b: &Vec<usize>) -> (r: bool)
    ensures
        r == (a@ == b@),
{
    if a.len() != b.len() {
        return false;
    }
    let mut i: usize = 0;
    while i < a.len()
        invariant
            i <= a@.len(),
            a@.len() == b@.len(),
            forall|j: int| 0 <= j < i ==> a@[j] == b@[j],
        decreases a@.len() - i,
    {
        if a[i] != b[i] {
            assert(a@[i as int] != b@[i as int]);
            return false;
        }
        i += 1;
    }
    assert(a@ =~= b@);
    true
}

impl Layers {
    fn may_swap(&self, v: usize, w: usize, Ghost(n): Ghost<int>) -> (r: bool)
        requires
            fits(self@, n),
            v < n,
            w < n,
        ensures
            r == may_swap(self@, v, w),
    {
        !self.clustered || (self.sides[v] == WallSide::Inside && self.sides[w] == WallSide::Inside
            && same_list(&self.paths[v], &self.paths[w]))
    }

    fn pair_crossings(&self, pos: &Vec<usize>, v: usize, w: usize) -> (r: u128)
        requires
            fits(self@, pos@.len() as int),
            v < pos@.len(),
            w < pos@.len(),
        ensures
            r == pair_crossings(self@, pos@, v, w),
    {
        assert(rows(self.preds@)[v as int] == self.preds@[v as int]@);
        assert(rows(self.preds@)[w as int] == self.preds@[w as int]@);
        assert(rows(self.succs@)[v as int] == self.succs@[v as int]@);
        assert(rows(self.succs@)[w as int] == self.succs@[w as int]@);
        let a = local_crossings_of(&self.preds[v], &self.preds[w], pos);
        let b = local_crossings_of(&self.succs[v], &self.succs[w], pos);
        add_capped(
            a,
            b,
            Ghost(
                local_crossings(
                    self.preds@[v as int]@,
                    self.preds@[w as int]@,
                    pos@,
                    self.preds@[v as int]@.len() as int,
                ) as int,
            ),
            Ghost(
                local_crossings(
                    self.succs@[v as int]@,
                    self.succs@[w as int]@,
                    pos@,
                    self.succs@[v as int]@.len() as int,
                ) as int,
            ),
        )
    }

    fn try_swap(&self, o: &mut Arranged, l: usize, i: usize) -> (c: bool)
        requires
            fits(self@, old(o)@.pos.len() as int),
            order_fits(old(o)@, old(o)@.pos.len() as int),
            l < old(o)@.layers.len(),
            i + 1 < old(o)@.layers[l as int].len(),
        ensures
            (final(o)@, c) == try_swap(self@, old(o)@, l as int, i as int),
            order_fits(final(o)@, old(o)@.pos.len() as int),
            final(o)@.layers.len() == old(o)@.layers.len(),
            final(o)@.layers[l as int].len() == old(o)@.layers[l as int].len(),
    {
        let ghost start = o@;
        let ghost n = o@.pos.len() as int;
        assert(rows(o.layers@)[l as int] == o.layers@[l as int]@);
        assert(below(start.layers[l as int], n));
        let len: usize = o.layers[l].len();
        assert(i + 1 < len);
        let v = o.layers[l][i];
        let w = o.layers[l][i + 1];
        assert(start.layers[l as int][i as int] == v && start.layers[l as int][i + 1] == w);
        if self.may_swap(v, w, Ghost(n)) && self.pair_crossings(&o.pos, w, v)
            < self.pair_crossings(&o.pos, v, w) {
            let ghost before = o.layers@;
            o.layers[l][i] = w;
            o.layers[l][i + 1] = v;
            o.pos[v] = i + 1;
            o.pos[w] = i;
            proof {
                let row = before[l as int]@.update(i as int, w).update(i + 1, v);
                assert(o.layers@[l as int]@ =~= row);
                assert(rows(o.layers@) =~= rows(before).update(l as int, row));
                assert forall|k: int| 0 <= k < o@.layers.len() implies below(
                    #[trigger] o@.layers[k],
                    n,
                ) by {
                    assert(below(start.layers[k], n));
                    if k == l {
                        assert forall|j: int| 0 <= j < row.len() implies (#[trigger] row[j]) < n by {
                            assert(start.layers[k][j] < n);
                        }
                    }
                }
            }
            true
        } else {
            false
        }
    }

    fn sweep_layer(&self, o: &mut Arranged, l: usize, changed: bool) -> (c: bool)
        requires
            fits(self@, old(o)@.pos.len() as int),
            order_fits(old(o)@, old(o)@.pos.len() as int),
            l < old(o)@.layers.len(),
        ensures
            (final(o)@, c) == sweep_layer(self@, old(o)@, l as int, 0, changed),
            order_fits(final(o)@, old(o)@.pos.len() as int),
            final(o)@.layers.len() == old(o)@.layers.len(),
    {
        let ghost n = o@.pos.len() as int;
        let ghost want = sweep_layer(self@, o@, l as int, 0, changed);
        let mut c = changed;
        assert(rows(o.layers@)[l as int] == o.layers@[l as int]@);
        let len: usize = o.layers[l].len();
        let mut i: usize = 0;
        while len > 0 && i < len - 1
            invariant
                l < o@.layers.len(),
                o@.layers.len() == old(o)@.layers.len(),
                len == o@.layers[l as int].len(),
                i <= len,
                fits(self@, n),
                order_fits(o@, n),
                want == sweep_layer(self@, o@, l as int, i as int, c),
            decreases len - i,
        {
            let d = self.try_swap(o, l, i);
            c = c || d;
            i += 1;
        }
        c
    }

    /// Swap neighbours until no swap saves a crossing.
    pub fn transpose(&self, o: &mut Arranged, rounds: usize)
        requires
            fits(self@, old(o)@.pos.len() as int),
            order_fits(old(o)@, old(o)@.pos.len() as int),
        ensures
            final(o)@ == transposed(self@, old(o)@, rounds as nat),
            order_fits(final(o)@, old(o)@.pos.len() as int),
            final(o)@.layers.len() == old(o)@.layers.len(),
    {
        let ghost n = o@.pos.len() as int;
        let ghost want = transposed(self@, o@, rounds as nat);
        let count: usize = o.layers.len();
        let mut left: usize = rounds;
        let mut improved = true;
        while improved && left > 0
            invariant
                count == o@.layers.len(),
                fits(self@, n),
                order_fits(o@, n),
                improved ==> want == transposed(self@, o@, left as nat),
                !improved ==> want == o@,
            decreases left,
        {
            let ghost start = o@;
            let ghost goal = sweep(self@, start, 0, count as int, false);
            let mut c = false;
            let mut l: usize = 0;
            while l < count
                invariant
                    l <= count,
                    count == o@.layers.len(),
                    fits(self@, n),
                    order_fits(o@, n),
                    goal == sweep(self@, o@, l as int, count as int, c),
                decreases count - l,
            {
                c = self.sweep_layer(o, l, c);
                l += 1;
            }
            improved = c;
            left -= 1;
        }
    }
}

/// Nodes of a layer that stay together: those of one subgraph, or a single
/// free node.
#[verifier::ext_equal]
pub struct Group {
    pub id: Option<usize>,
    pub members: Seq<usize>,
}

/// The index of the group of subgraph `c`, from `i` on.
pub open spec fn group_of(s: Seq<Group>, c: usize, i: int) -> Option<int>
    decreases s.len() - i,
{
    if i < 0 || i >= s.len() {
        None
    } else if s[i].id == Some(c) {
        Some(i)
    } else {
        group_of(s, c, i + 1)
    }
}

/// The subgraph of a node at nesting level `depth`.
pub open spec fn level_id(path: Seq<usize>, depth: int) -> Option<usize> {
    if 0 <= depth < path.len() {
        Some(path[depth])
    } else {
        None
    }
}

/// The groups with one more node.
pub open spec fn join(s: Seq<Group>, id: Option<usize>, v: usize) -> Seq<Group> {
    let fresh = s.push(Group { id, members: seq![v] });
    match id {
        None => fresh,
        Some(c) => match group_of(s, c, 0) {
            Some(i) => s.update(i, Group { members: s[i].members.push(v), ..s[i] }),
            None => fresh,
        },
    }
}

/// The groups of the first `k` items, in the order in which they first
/// occur.
pub open spec fn groups(items: Seq<usize>, paths: Seq<Seq<usize>>, depth: int, k: int) -> Seq<Group>
    decreases k,
{
    if k <= 0 {
        Seq::empty()
    } else {
        join(
            groups(items, paths, depth, k - 1),
            level_id(paths[items[k - 1] as int], depth),
            items[k - 1],
        )
    }
}

/// The sum of the positions of the first `k` nodes.
pub open spec fn position_sum(s: Seq<usize>, pos: Seq<usize>, k: int) -> int
    decreases k,
{
    if k <= 0 {
        0
    } else {
        position_sum(s, pos, k - 1) + pos[s[k - 1] as int]
    }
}

/// What a group is sorted by: the mean position of its members; a bare wall
/// goes to its end of the layer.
pub open spec fn group_item(m: Seq<usize>, sides: Seq<WallSide>, pos: Seq<usize>, i: int) -> Item {
    let class = if m.len() == 1 && sides[m[0] as int] == WallSide::Left {
        Class::First
    } else if m.len() == 1 && sides[m[0] as int] == WallSide::Right {
        Class::Last
    } else {
        Class::Valued
    };
    Item {
        class,
        num: position_sum(m, pos, m.len() as int) as u128,
        den: m.len() as u64,
        tie: 0,
        val: i as usize,
    }
}

pub open spec fn group_items(s: Seq<Group>, sides: Seq<WallSide>, pos: Seq<usize>) -> Seq<Item> {
    Seq::new(s.len(), |i: int| group_item(s[i].members, sides, pos, i))
}

/// The nodes of the first `k` groups of an order, those of a subgraph
/// arranged in turn.
pub open spec fn laid_out(
    g: Scene,
    pos: Seq<usize>,
    s: Seq<Group>,
    order: Seq<Item>,
    depth: int,
    levels: nat,
    k: int,
) -> Seq<usize>
    decreases levels, 0int, k,
{
    if k <= 0 {
        Seq::empty()
    } else {
        let t = s[order[k - 1].val as int];
        laid_out(g, pos, s, order, depth, levels, k - 1) + if t.id is Some && t.members.len() > 1
            && levels > 0 {
            arranged(g, pos, t.members, depth + 1, (levels - 1) as nat)
        } else {
            t.members
        }
    }
}

/// The items with the members of every subgraph next to each other, down to
/// `levels` levels of nesting below `depth`. Groups are ordered by the mean
/// position of their members.
pub open spec fn arranged(
    g: Scene,
    pos: Seq<usize>,
    items: Seq<usize>,
    depth: int,
    levels: nat,
) -> Seq<usize>
    decreases levels, 1int, 0int,
{
    if items.len() <= 1 {
        items
    } else {
        let s = groups(items, g.paths, depth, items.len() as int);
        let order = sorted(group_items(s, g.sides, pos));
        laid_out(g, pos, s, order, depth, levels, order.len() as int)
    }
}

/// A [`Group`] in machine numbers.
#[derive(Debug)]
pub struct GroupRec {
    pub id: Option<usize>,
    pub members: Vec<usize>,
}

impl View for GroupRec {
    type V = Group;

    open spec fn view(&self) -> Group {
        Group { id: self.id, members: self.members@ }
    }
}

pub open spec fn group_views(s: Seq<GroupRec>) -> Seq<Group> {
    s.map_values(|r: GroupRec| r@)
}

/// Whether the groups hold nodes below `n`, none of them empty.
pub open spec fn groups_fit(s: Seq<Group>, n: int) -> bool {
    forall|i: int|
        0 <= i < s.len() ==> (#[trigger] s[i]).members.len() > 0 && below(s[i].members, n)
}

fn find_group(s: &Vec<GroupRec>, c: usize) -> (r: Option<usize>)
    ensures
        match group_of(group_views(s@), c, 0) {
            Some(i) => r is Some && r->Some_0 == i && 0 <= i < s@.len(),
            None => r is None,
        },
{
    let ghost all = group_views(s@);
    let mut i: usize = 0;
    while i < s.len()
        invariant
            i <= s@.len(),
            all == group_views(s@),
            group_of(all, c, 0) == group_of(all, c, i as int),
        decreases s@.len() - i,
    {
        assert(all[i as int] == s@[i as int]@);
        if let Some(d) = s[i].id {
            if d == c {
                return Some(i);
            }
        }
        i += 1;
    }
    None
}

fn join_group(s: &mut Vec<GroupRec>, id: Option<usize>, v: usize, Ghost(n): Ghost<int>)
    requires
        groups_fit(group_views(old(s)@), n),
        v < n,
    ensures
        group_views(final(s)@) == join(group_views(old(s)@), id, v),
        groups_fit(group_views(final(s)@), n),
{
    let ghost start = group_views(s@);
    if let Some(c) = id {
        if let Some(i) = find_group(s, c) {
            let ghost before = s@;
            s[i].members.push(v);
            proof {
                let t = start[i as int];
                assert(group_views(s@) =~= start.update(
                    i as int,
                    Group { members: t.members.push(v), ..t },
                ));
                assert forall|k: int| 0 <= k < s@.len() implies (#[trigger] group_views(
                    s@,
                )[k]).members.len() > 0 && below(group_views(s@)[k].members, n) by {
                    assert(start[k].members.len() > 0 && below(start[k].members, n));
                }
            }
            return ;
        }
    }
    let mut m: Vec<usize> = Vec::new();
    m.push(v);
    let ghost before = s@;
    let r = GroupRec { id, members: m };
    assert(m@ =~= seq![v]);
    let ghost item = r@;
    s.push(r);
    proof {
        assert(group_views(s@) =~= start.push(item));
        assert forall|k: int| 0 <= k < s@.len() implies (#[trigger] group_views(
            s@,
        )[k]).members.len() > 0 && below(group_views(s@)[k].members, n) by {
            if k < start.len() {
                assert(start[k].members.len() > 0 && below(start[k].members, n));
            }
        }
    }
}

fn sum_positions(m: &Vec<usize>, pos: &Vec<usize>) -> (r: u128)
    requires
        below(m@, pos@.len() as int),
    ensures
        r == position_sum(m@, pos@, m@.len() as int),
{
    let mut sum: u128 = 0;
    let mut i: usize = 0;
    while i < m.len()
        invariant
            i <= m@.len(),
            below(m@, pos@.len() as int),
            sum == position_sum(m@, pos@, i as int),
            sum <= i * 0xffff_ffff_ffff_ffff,
        decreases m@.len() - i,
    {
        sum = sum + pos[m[i]] as u128;
        i += 1;
    }
    sum
}

impl Layers {
    fn group_item(&self, m: &Vec<usize>, pos: &Vec<usize>, i: usize) -> (r: Item)
        requires
            m@.len() > 0,
            below(m@, pos@.len() as int),
            self.sides@.len() == pos@.len(),
        ensures
            r == group_item(m@, self.sides@, pos@, i as int),
            r.den > 0,
    {
        let side = if m.len() == 1 {
            self.sides[m[0]]
        } else {
            WallSide::Inside
        };
        let class = match side {
            WallSide::Left => Class::First,
            WallSide::Right => Class::Last,
            WallSide::Inside => Class::Valued,
        };
        Item { class, num: sum_positions(m, pos), den: m.len() as u64, tie: 0, val: i }
    }

    fn collect_groups(&self, items: &Vec<usize>, depth: usize, Ghost(n): Ghost<int>) -> (r: Vec<
        GroupRec,
    >)
        requires
            self.paths@.len() == n,
            below(items@, n),
        ensures
            group_views(r@) == groups(items@, self@.paths, depth as int, items@.len() as int),
            groups_fit(group_views(r@), n),
    {
        let mut r: Vec<GroupRec> = Vec::new();
        let mut k: usize = 0;
        assert(group_views(r@) =~= Seq::empty());
        while k < items.len()
            invariant
                k <= items@.len(),
                self.paths@.len() == n,
                below(items@, n),
                groups_fit(group_views(r@), n),
                group_views(r@) == groups(items@, self@.paths, depth as int, k as int),
            decreases items@.len() - k,
        {
            let v = items[k];
            let p = &self.paths[v];
            assert(self@.paths[v as int] == p@);
            let id = if depth < p.len() {
                Some(p[depth])
            } else {
                None
            };
            join_group(&mut r, id, v, Ghost(n));
            k += 1;
        }
        r
    }

    pub fn arrange(&self, items: &Vec<usize>, pos: &Vec<usize>, depth: usize, levels: usize) -> (r: Vec<
        usize,
    >)
        requires
            self.paths@.len() == pos@.len(),
            self.sides@.len() == pos@.len(),
            below(items@, pos@.len() as int),
            depth + levels <= usize::MAX,
        ensures
            r@ == arranged(self@, pos@, items@, depth as int, levels as nat),
            below(r@, pos@.len() as int),
        decreases levels,
    {
        let ghost n = pos@.len() as int;
        if items.len() <= 1 {
            let mut r: Vec<usize> = Vec::new();
            let mut i: usize = 0;
            while i < items.len()
                invariant
                    i <= items@.len(),
                    r@ == items@.take(i as int),
                decreases items@.len() - i,
            {
                r.push(items[i]);
                assert(r@ =~= items@.take(i as int + 1));
                i += 1;
            }
            assert(r@ =~= items@);
            return r;
        }
        let s = self.collect_groups(items, depth, Ghost(n));
        let ghost sv = group_views(s@);
        let ghost want = group_items(sv, self.sides@, pos@);
        let mut keyed: Vec<Item> = Vec::new();
        let mut i: usize = 0;
        while i < s.len()
            invariant
                i <= s@.len(),
                sv == group_views(s@),
                groups_fit(sv, n),
                n == pos@.len(),
                self.sides@.len() == n,
                want == group_items(sv, self.sides@, pos@),
                keyed@ == want.take(i as int),
                proper(keyed@),
            decreases s@.len() - i,
        {
            let ghost before = keyed@;
            assert(sv[i as int] == s@[i as int]@);
            keyed.push(self.group_item(&s[i].members, pos, i));
            assert(keyed@ =~= want.take(i as int + 1));
            assert forall|j: int| 0 <= j < keyed@.len() implies (#[trigger] keyed@[j]).den > 0 by {
                if j < before.len() {
                    assert(keyed@[j] == before[j]);
                }
            }
            i += 1;
        }
        assert(keyed@ =~= want);
        let order = sort(&keyed);
        proof {
            lemma_group_indices(want, s@.len() as int);
        }
        let mut r: Vec<usize> = Vec::new();
        let mut k: usize = 0;
        while k < order.len()
            invariant
                k <= order@.len(),
                sv == group_views(s@),
                groups_fit(sv, n),
                n == pos@.len(),
                self.paths@.len() == n,
                self.sides@.len() == n,
                depth + levels <= usize::MAX,
                forall|j: int| 0 <= j < order@.len() ==> (#[trigger] order@[j]).val < s@.len(),
                below(r@, n),
                r@ == laid_out(
                    self@,
                    pos@,
                    sv,
                    order@,
                    depth as int,
                    levels as nat,
                    k as int,
                ),
            decreases order@.len() - k,
        {
            let t = &s[order[k].val];
            assert(sv[order@[k as int].val as int] == t@);
            let ghost before = r@;
            if t.id.is_some() && t.members.len() > 1 && levels > 0 {
                let part = self.arrange(&t.members, pos, depth + 1, levels - 1);
                push_all(&mut r, &part);
            } else {
                push_all(&mut r, &t.members);
            }
            k += 1;
        }
        r
    }
}

fn push_all(r: &mut Vec<usize>, more: &Vec<usize>)
    ensures
        final(r)@ == old(r)@ + more@,
        forall|n: int| below(old(r)@, n) && below(more@, n) ==> below(final(r)@, n),
{
    let ghost start = r@;
    let mut i: usize = 0;
    while i < more.len()
        invariant
            i <= more@.len(),
            r@ == start + more@.take(i as int),
        decreases more@.len() - i,
    {
        r.push(more[i]);
        assert(r@ =~= start + more@.take(i as int + 1));
        i += 1;
    }
    assert(more@.take(more@.len() as int) =~= more@);
    assert forall|n: int| below(start, n) && below(more@, n) implies below(r@, n) by {
        assert forall|j: int| 0 <= j < r@.len() implies (#[trigger] r@[j]) < n by {
            if j < start.len() {
                assert(r@[j] == start[j]);
            } else {
                assert(r@[j] == more@[j - start.len()]);
            }
        }
    }
}

/// Sorting the items of groups keeps their indices in range.
proof fn lemma_group_indices(items: Seq<Item>, n: int)
    requires
        items.len() == n,
        n <= usize::MAX,
        forall|i: int| 0 <= i < items.len() ==> (#[trigger] items[i]).val == i as usize,
    ensures
        forall|i: int| 0 <= i < sorted(items).len() ==> (#[trigger] sorted(items)[i]).val < n,
{
    broadcast use vstd::seq_lib::group_to_multiset_ensures;

    law_sorting_rearranges(items);
    let s = sorted(items);
    assert forall|i: int| 0 <= i < s.len() implies (#[trigger] s[i]).val < n by {
        assert(s.to_multiset().count(s[i]) > 0);
        assert(items.contains(s[i]));
        let j = choose|j: int| 0 <= j < items.len() && items[j] == s[i];
        assert(items[j].val == j as usize);
    }
}

} // verus!
