//! Searching for the order with the fewest crossings.
//!
//! Each round sorts the layers by medians, downwards and upwards, swaps
//! neighbours, and brings subgraphs together. The best order of all rounds
//! is kept.

use vstd::prelude::*;

use crate::layout::ordering::{
    all_below, arranged, below, cap, fits, lemma_numbered_len, number_layer, numbered, order_fits,
    reorder, reordered, rows, transposed, Arranged, Layers, Order, Scene,
};

verus! {

/// The nodes of layer `l` among the first `k`, in order.
pub open spec fn in_layer(layer: Seq<usize>, l: int, k: int) -> Seq<usize>
    decreases k,
{
    if k <= 0 {
        Seq::empty()
    } else if layer[k - 1] == l {
        in_layer(layer, l, k - 1).push((k - 1) as usize)
    } else {
        in_layer(layer, l, k - 1)
    }
}

/// The layers as they come: each with its nodes in the order of their
/// numbers.
pub open spec fn natural(layer: Seq<usize>, count: nat) -> Seq<Seq<usize>> {
    Seq::new(count, |l: int| in_layer(layer, l, layer.len() as int))
}

/// The number of layers.
pub open spec fn depth(layer: Seq<usize>, k: int) -> nat
    decreases k,
{
    if k <= 0 {
        1
    } else {
        let d = depth(layer, k - 1);
        if layer[k - 1] + 1 > d {
            (layer[k - 1] + 1) as nat
        } else {
            d
        }
    }
}

/// The positions after the first `k` layers were numbered.
pub open spec fn number_all(pos: Seq<usize>, layers: Seq<Seq<usize>>, k: int) -> Seq<usize>
    decreases k,
{
    if k <= 0 {
        pos
    } else {
        numbered(number_all(pos, layers, k - 1), layers[k - 1], layers[k - 1].len() as int)
    }
}

/// The position of every node in an order.
pub open spec fn positions(layers: Seq<Seq<usize>>, n: nat) -> Seq<usize> {
    number_all(Seq::new(n, |i: int| 0usize), layers, layers.len() as int)
}

/// An edge to the next layer: the positions of its two ends.
pub type Segment = (usize, usize);

/// The edges of one node to layer `l`, among its first `k`.
pub open spec fn node_segments(
    p: usize,
    succs: Seq<usize>,
    layer: Seq<usize>,
    pos: Seq<usize>,
    l: int,
    k: int,
) -> Seq<Segment>
    decreases k,
{
    if k <= 0 {
        Seq::empty()
    } else {
        let before = node_segments(p, succs, layer, pos, l, k - 1);
        if layer[succs[k - 1] as int] == l {
            before.push((p, pos[succs[k - 1] as int]))
        } else {
            before
        }
    }
}

/// The edges of the first `k` nodes of a row to layer `l`.
pub open spec fn segments(
    row: Seq<usize>,
    succs: Seq<Seq<usize>>,
    layer: Seq<usize>,
    pos: Seq<usize>,
    l: int,
    k: int,
) -> Seq<Segment>
    decreases k,
{
    if k <= 0 {
        Seq::empty()
    } else {
        let u = row[k - 1] as int;
        segments(row, succs, layer, pos, l, k - 1) + node_segments(
            pos[u],
            succs[u],
            layer,
            pos,
            l,
            succs[u].len() as int,
        )
    }
}

/// Whether two edges cross.
pub open spec fn cross(a: Segment, b: Segment) -> bool {
    (a.0 < b.0 && a.1 > b.1) || (b.0 < a.0 && b.1 > a.1)
}

/// How many of the first `k` edges cross edge `e`.
pub open spec fn crossed_by(s: Seq<Segment>, e: Segment, k: int) -> nat
    decreases k,
{
    if k <= 0 {
        0
    } else {
        crossed_by(s, e, k - 1) + if cross(s[k - 1], e) {
            1nat
        } else {
            0nat
        }
    }
}

/// How many pairs of the first `k` edges cross.
pub open spec fn crossed_pairs(s: Seq<Segment>, k: int) -> nat
    decreases k,
{
    if k <= 0 {
        0
    } else {
        crossed_pairs(s, k - 1) + crossed_by(s, s[k - 1], k - 1)
    }
}

/// The crossings below the first `k` layers.
pub open spec fn crossings_below(g: Scene, layers: Seq<Seq<usize>>, pos: Seq<usize>, k: int) -> nat
    decreases k,
{
    if k <= 0 {
        0
    } else {
        let s = segments(
            layers[k - 1],
            g.succs,
            g.layer,
            pos,
            k,
            layers[k - 1].len() as int,
        );
        crossings_below(g, layers, pos, k - 1) + crossed_pairs(s, s.len() as int)
    }
}

/// All crossings of an order.
pub open spec fn crossings(g: Scene, layers: Seq<Seq<usize>>) -> nat {
    crossings_below(g, layers, positions(layers, g.layer.len()), layers.len() - 1)
}

fn zeros(n: usize) -> (r: Vec<usize>)
    ensures
        r@ == Seq::new(n as nat, |i: int| 0usize),
{
    let mut r: Vec<usize> = Vec::new();
    while r.len() < n
        invariant
            r@.len() <= n,
            forall|i: int| 0 <= i < r@.len() ==> #[trigger] r@[i] == 0,
        decreases n - r@.len(),
    {
        r.push(0);
    }
    assert(r@ =~= Seq::new(n as nat, |i: int| 0usize));
    r
}

proof fn lemma_number_all_len(pos: Seq<usize>, layers: Seq<Seq<usize>>, k: int)
    requires
        all_below(layers, pos.len() as int),
        k <= layers.len(),
    ensures
        number_all(pos, layers, k).len() == pos.len(),
    decreases k,
{
    if k > 0 {
        lemma_number_all_len(pos, layers, k - 1);
        assert(below(layers[k - 1], pos.len() as int));
        lemma_numbered_len(
            number_all(pos, layers, k - 1),
            layers[k - 1],
            layers[k - 1].len() as int,
        );
    }
}

/// The position of every node.
pub fn positions_of(layers: &Vec<Vec<usize>>, n: usize) -> (r: Vec<usize>)
    requires
        all_below(rows(layers@), n as int),
    ensures
        r@ == positions(rows(layers@), n as nat),
        r@.len() == n,
{
    let ghost all = rows(layers@);
    let mut pos = zeros(n);
    let ghost start = pos@;
    let mut k: usize = 0;
    while k < layers.len()
        invariant
            k <= layers@.len(),
            all == rows(layers@),
            all_below(all, n as int),
            pos@.len() == n,
            pos@ == number_all(start, all, k as int),
        decreases layers@.len() - k,
    {
        assert(all[k as int] == layers@[k as int]@);
        number_layer(&mut pos, &layers[k]);
        k += 1;
    }
    pos
}

fn count_pairs(s: &Vec<Segment>) -> (r: u128)
    ensures
        r == cap(crossed_pairs(s@, s@.len() as int) as int),
{
    let mut total: u128 = 0;
    let mut j: usize = 0;
    while j < s.len()
        invariant
            j <= s@.len(),
            total == cap(crossed_pairs(s@, j as int) as int),
        decreases s@.len() - j,
    {
        let e = s[j];
        let mut c: u128 = 0;
        let mut i: usize = 0;
        while i < j
            invariant
                i <= j,
                j < s@.len(),
                c == crossed_by(s@, e, i as int),
                c <= i,
            decreases j - i,
        {
            let f = s[i];
            if (f.0 < e.0 && f.1 > e.1) || (e.0 < f.0 && e.1 > f.1) {
                c = c + 1;
            }
            i += 1;
        }
        total = total.saturating_add(c);
        j += 1;
    }
    total
}

impl Layers {
    fn segments(&self, row: &Vec<usize>, pos: &Vec<usize>, l: usize) -> (r: Vec<Segment>)
        requires
            fits(self@, pos@.len() as int),
            below(row@, pos@.len() as int),
        ensures
            r@ == segments(
                row@,
                self@.succs,
                self@.layer,
                pos@,
                l as int,
                row@.len() as int,
            ),
    {
        let ghost n = pos@.len() as int;
        let mut r: Vec<Segment> = Vec::new();
        let mut k: usize = 0;
        while k < row.len()
            invariant
                k <= row@.len(),
                n == pos@.len(),
                fits(self@, n),
                below(row@, n),
                r@ == segments(row@, self@.succs, self@.layer, pos@, l as int, k as int),
            decreases row@.len() - k,
        {
            let u = row[k];
            let p = pos[u];
            let ns = &self.succs[u];
            assert(self@.succs[u as int] == ns@);
            assert(below(self@.succs[u as int], n));
            let ghost before = r@;
            let mut j: usize = 0;
            assert(r@ =~= before + node_segments(p, ns@, self@.layer, pos@, l as int, 0));
            while j < ns.len()
                invariant
                    j <= ns@.len(),
                    n == pos@.len(),
                    fits(self@, n),
                    below(ns@, n),
                    r@ == before + node_segments(
                        p,
                        ns@,
                        self@.layer,
                        pos@,
                        l as int,
                        j as int,
                    ),
                decreases ns@.len() - j,
            {
                let v = ns[j];
                if self.layer[v] == l {
                    r.push((p, pos[v]));
                    assert(r@ =~= before + node_segments(
                        p,
                        ns@,
                        self@.layer,
                        pos@,
                        l as int,
                        j as int + 1,
                    ));
                }
                j += 1;
            }
            k += 1;
        }
        r
    }

    /// Count the crossings of an order.
    pub fn count_crossings(&self, layers: &Vec<Vec<usize>>) -> (r: u128)
        requires
            fits(self@, self@.layer.len() as int),
            all_below(rows(layers@), self@.layer.len() as int),
        ensures
            r == cap(crossings(self@, rows(layers@)) as int),
    {
        let n: usize = self.layer.len();
        let ghost all = rows(layers@);
        let pos = positions_of(layers, n);
        let mut total: u128 = 0;
        let count: usize = layers.len();
        let mut k: usize = 0;
        while count > 0 && k < count - 1
            invariant
                count == layers@.len(),
                k <= count,
                count > 0 ==> k <= count - 1,
                n == self@.layer.len(),
                pos@.len() == n,
                fits(self@, n as int),
                all == rows(layers@),
                all_below(all, n as int),
                total == cap(crossings_below(self@, all, pos@, k as int) as int),
            decreases count - k,
        {
            assert(all[k as int] == layers@[k as int]@);
            assert(below(all[k as int], n as int));
            let s = self.segments(&layers[k], &pos, k + 1);
            total = total.saturating_add(count_pairs(&s));
            k += 1;
        }
        total
    }
}

/// The order after layer `l` was sorted by medians.
pub open spec fn reorder_layer(o: Order, nbrs: Seq<Seq<usize>>, l: int) -> Order {
    let row = reordered(o.layers[l], nbrs, o.pos);
    Order { layers: o.layers.update(l, row), pos: numbered(o.pos, row, row.len() as int) }
}

/// Layers `l` and below, downwards.
pub open spec fn downwards(g: Scene, o: Order, l: int) -> Order
    decreases o.layers.len() - l,
{
    if 0 <= l < o.layers.len() {
        downwards(g, reorder_layer(o, g.preds, l), l + 1)
    } else {
        o
    }
}

/// Layers above `l`, upwards.
pub open spec fn upwards(g: Scene, o: Order, l: int) -> Order
    decreases l,
{
    if 0 < l <= o.layers.len() {
        upwards(g, reorder_layer(o, g.succs, l - 1), l - 1)
    } else {
        o
    }
}

/// The longest of the first `k` paths.
pub open spec fn longest(paths: Seq<Seq<usize>>, k: int) -> nat
    decreases k,
{
    if k <= 0 {
        0
    } else if paths[k - 1].len() > longest(paths, k - 1) {
        paths[k - 1].len()
    } else {
        longest(paths, k - 1)
    }
}

/// The order after the members of every subgraph in layer `l` were brought
/// together.
pub open spec fn regroup_layer(g: Scene, o: Order, l: int) -> Order {
    if o.layers[l].len() <= 1 {
        o
    } else {
        let row = arranged(g, o.pos, o.layers[l], 0, longest(g.paths, g.paths.len() as int));
        Order { layers: o.layers.update(l, row), pos: numbered(o.pos, row, row.len() as int) }
    }
}

/// The layers from `l` on, each with its subgraphs brought together.
pub open spec fn regroup(g: Scene, o: Order, l: int) -> Order
    decreases o.layers.len() - l,
{
    if 0 <= l < o.layers.len() {
        regroup(g, regroup_layer(g, o, l), l + 1)
    } else {
        o
    }
}

/// The order with its subgraphs brought together, where there are any.
pub open spec fn tidied(g: Scene, o: Order) -> Order {
    if g.clustered {
        regroup(g, o, 0)
    } else {
        o
    }
}

/// How many times a round swaps neighbours at most.
pub const SWAPS: usize = 20;

/// How many rounds there are at most.
pub const ROUNDS: usize = 8;

/// The order after one round.
pub open spec fn round(g: Scene, o: Order) -> Order {
    let a = downwards(g, o, 1);
    let b = upwards(g, a, a.layers.len() - 1);
    tidied(g, transposed(g, b, SWAPS as nat))
}

/// The best order of `rounds` more rounds and of those before, which is
/// `best` with `least` crossings.
pub open spec fn improved(
    g: Scene,
    o: Order,
    best: Seq<Seq<usize>>,
    least: u128,
    rounds: nat,
) -> Seq<Seq<usize>>
    decreases rounds,
{
    if rounds == 0 {
        best
    } else {
        let p = round(g, o);
        let c = cap(crossings(g, p.layers) as int);
        let (b, m) = if c < least {
            (p.layers, c)
        } else {
            (best, least)
        };
        if m == 0 {
            b
        } else {
            improved(g, p, b, m, (rounds - 1) as nat)
        }
    }
}

/// The order before the first round.
pub open spec fn first_order(g: Scene) -> Order {
    let layers = natural(g.layer, depth(g.layer, g.layer.len() as int));
    tidied(g, Order { layers, pos: positions(layers, g.layer.len()) })
}

/// The order of the layers.
pub open spec fn best_order(g: Scene) -> Seq<Seq<usize>> {
    let o = first_order(g);
    improved(g, o, o.layers, cap(crossings(g, o.layers) as int), ROUNDS as nat)
}

proof fn lemma_update_fits(o: Order, l: int, row: Seq<usize>, pos: Seq<usize>, n: int)
    requires
        order_fits(o, n),
        0 <= l < o.layers.len(),
        below(row, n),
        pos.len() == n,
    ensures
        order_fits((Order { layers: o.layers.update(l, row), pos }), n),
{
    let t = o.layers.update(l, row);
    assert forall|k: int| 0 <= k < t.len() implies below(#[trigger] t[k], n) by {
        if k != l {
            assert(below(o.layers[k], n));
        }
    }
}

impl Arranged {
    fn reorder_layer(&mut self, nbrs: &Vec<Vec<usize>>, l: usize)
        requires
            order_fits(old(self)@, old(self)@.pos.len() as int),
            nbrs@.len() == old(self)@.pos.len(),
            all_below(rows(nbrs@), old(self)@.pos.len() as int),
            l < old(self)@.layers.len(),
        ensures
            final(self)@ == reorder_layer(old(self)@, rows(nbrs@), l as int),
            order_fits(final(self)@, old(self)@.pos.len() as int),
            final(self)@.layers.len() == old(self)@.layers.len(),
    {
        let ghost start = self@;
        let ghost before = self.layers@;
        assert(rows(before)[l as int] == before[l as int]@);
        assert(below(start.layers[l as int], start.pos.len() as int));
        reorder(&mut self.layers[l], nbrs, &mut self.pos);
        proof {
            let row = self.layers@[l as int]@;
            assert(rows(self.layers@) =~= rows(before).update(l as int, row));
            lemma_update_fits(start, l as int, row, self.pos@, start.pos.len() as int);
        }
    }
}

impl Layers {
    fn sweep_down(&self, o: &mut Arranged)
        requires
            fits(self@, old(o)@.pos.len() as int),
            order_fits(old(o)@, old(o)@.pos.len() as int),
        ensures
            final(o)@ == downwards(self@, old(o)@, 1),
            order_fits(final(o)@, old(o)@.pos.len() as int),
            final(o)@.layers.len() == old(o)@.layers.len(),
    {
        let ghost n = o@.pos.len() as int;
        let ghost want = downwards(self@, o@, 1);
        let count: usize = o.layers.len();
        let mut l: usize = 1;
        while l < count
            invariant
                1 <= l,
                count == o@.layers.len(),
                fits(self@, n),
                order_fits(o@, n),
                want == downwards(self@, o@, l as int),
            decreases count - l,
        {
            o.reorder_layer(&self.preds, l);
            l += 1;
        }
    }

    fn sweep_up(&self, o: &mut Arranged)
        requires
            fits(self@, old(o)@.pos.len() as int),
            order_fits(old(o)@, old(o)@.pos.len() as int),
        ensures
            final(o)@ == upwards(self@, old(o)@, old(o)@.layers.len() - 1),
            order_fits(final(o)@, old(o)@.pos.len() as int),
            final(o)@.layers.len() == old(o)@.layers.len(),
    {
        let ghost n = o@.pos.len() as int;
        let count: usize = o.layers.len();
        if count == 0 {
            return ;
        }
        let ghost want = upwards(self@, o@, count - 1);
        let mut l: usize = count - 1;
        while l > 0
            invariant
                l < count,
                count == o@.layers.len(),
                fits(self@, n),
                order_fits(o@, n),
                want == upwards(self@, o@, l as int),
            decreases l,
        {
            o.reorder_layer(&self.succs, l - 1);
            l -= 1;
        }
    }

    fn longest_path(&self) -> (r: usize)
        ensures
            r == longest(self@.paths, self@.paths.len() as int),
    {
        let mut r: usize = 0;
        let mut k: usize = 0;
        while k < self.paths.len()
            invariant
                k <= self.paths@.len(),
                r == longest(self@.paths, k as int),
            decreases self.paths@.len() - k,
        {
            assert(self@.paths[k as int] == self.paths@[k as int]@);
            if self.paths[k].len() > r {
                r = self.paths[k].len();
            }
            k += 1;
        }
        r
    }

    fn regroup_layer(&self, o: &mut Arranged, l: usize, levels: usize)
        requires
            fits(self@, old(o)@.pos.len() as int),
            self.clustered,
            order_fits(old(o)@, old(o)@.pos.len() as int),
            l < old(o)@.layers.len(),
            levels == longest(self@.paths, self@.paths.len() as int),
        ensures
            final(o)@ == regroup_layer(self@, old(o)@, l as int),
            order_fits(final(o)@, old(o)@.pos.len() as int),
            final(o)@.layers.len() == old(o)@.layers.len(),
    {
        let ghost start = o@;
        let ghost before = o.layers@;
        assert(rows(before)[l as int] == before[l as int]@);
        assert(below(start.layers[l as int], start.pos.len() as int));
        if o.layers[l].len() <= 1 {
            return ;
        }
        let row = self.arrange(&o.layers[l], &o.pos, 0, levels);
        number_layer(&mut o.pos, &row);
        let ghost item = row@;
        o.layers.set(l, row);
        proof {
            assert(rows(o.layers@) =~= rows(before).update(l as int, item));
            lemma_update_fits(start, l as int, item, o.pos@, start.pos.len() as int);
        }
    }

    fn tidy(&self, o: &mut Arranged)
        requires
            fits(self@, old(o)@.pos.len() as int),
            order_fits(old(o)@, old(o)@.pos.len() as int),
        ensures
            final(o)@ == tidied(self@, old(o)@),
            order_fits(final(o)@, old(o)@.pos.len() as int),
            final(o)@.layers.len() == old(o)@.layers.len(),
    {
        if !self.clustered {
            return ;
        }
        let ghost n = o@.pos.len() as int;
        let ghost want = regroup(self@, o@, 0);
        let levels = self.longest_path();
        let count: usize = o.layers.len();
        let mut l: usize = 0;
        while l < count
            invariant
                l <= count,
                count == o@.layers.len(),
                self.clustered,
                levels == longest(self@.paths, self@.paths.len() as int),
                fits(self@, n),
                order_fits(o@, n),
                want == regroup(self@, o@, l as int),
            decreases count - l,
        {
            self.regroup_layer(o, l, levels);
            l += 1;
        }
    }

    fn round(&self, o: &mut Arranged)
        requires
            fits(self@, old(o)@.pos.len() as int),
            order_fits(old(o)@, old(o)@.pos.len() as int),
        ensures
            final(o)@ == round(self@, old(o)@),
            order_fits(final(o)@, old(o)@.pos.len() as int),
            final(o)@.layers.len() == old(o)@.layers.len(),
    {
        self.sweep_down(o);
        self.sweep_up(o);
        self.transpose(o, SWAPS);
        self.tidy(o);
    }

    fn layer_count(&self) -> (r: usize)
        requires
            below(self@.layer, usize::MAX as int),
        ensures
            r == depth(self@.layer, self@.layer.len() as int),
    {
        let mut r: usize = 1;
        let mut k: usize = 0;
        while k < self.layer.len()
            invariant
                k <= self.layer@.len(),
                below(self.layer@, usize::MAX as int),
                r == depth(self.layer@, k as int),
            decreases self.layer@.len() - k,
        {
            if self.layer[k] + 1 > r {
                r = self.layer[k] + 1;
            }
            k += 1;
        }
        r
    }

    fn natural_layers(&self) -> (r: Vec<Vec<usize>>)
        requires
            below(self@.layer, usize::MAX as int),
        ensures
            rows(r@) == natural(self@.layer, depth(self@.layer, self@.layer.len() as int)),
            all_below(rows(r@), self@.layer.len() as int),
    {
        let count = self.layer_count();
        let n: usize = self.layer.len();
        let mut r: Vec<Vec<usize>> = Vec::new();
        while r.len() < count
            invariant
                r@.len() <= count,
                forall|l: int| 0 <= l < r@.len() ==> (#[trigger] r@[l])@.len() == 0,
            decreases count - r@.len(),
        {
            r.push(Vec::new());
        }
        assert forall|l: int| 0 <= l < count implies (#[trigger] r@[l])@ == in_layer(
            self.layer@,
            l,
            0,
        ) by {
            assert(r@[l]@ =~= Seq::empty());
        }
        let mut k: usize = 0;
        while k < n
            invariant
                k <= n,
                n == self.layer@.len(),
                below(self.layer@, usize::MAX as int),
                r@.len() == count,
                count == depth(self.layer@, n as int),
                forall|l: int|
                    0 <= l < count ==> (#[trigger] r@[l])@ == in_layer(self.layer@, l, k as int),
            decreases n - k,
        {
            let l = self.layer[k];
            proof {
                lemma_depth(self.layer@, n as int, k as int);
            }
            let ghost before = r@;
            r[l].push(k);
            k += 1;
        }
        proof {
            assert(rows(r@) =~= natural(self.layer@, count as nat));
            assert forall|l: int| 0 <= l < count implies below(#[trigger] rows(r@)[l], n as int) by {
                lemma_in_layer(self.layer@, l, n as int);
            }
        }
        r
    }

    /// The order of the layers with the fewest crossings that was found.
    pub fn order_layers(&self) -> (r: Vec<Vec<usize>>)
        requires
            fits(self@, self@.layer.len() as int),
            below(self@.layer, usize::MAX as int),
        ensures
            rows(r@) == best_order(self@),
            all_below(rows(r@), self@.layer.len() as int),
    {
        let ghost g = self@;
        let n: usize = self.layer.len();
        let layers = self.natural_layers();
        let pos = positions_of(&layers, n);
        let mut o = Arranged { layers, pos };
        self.tidy(&mut o);
        let ghost start = o@;
        let mut best = copy_rows(&o.layers);
        let mut least = self.count_crossings(&o.layers);
        let mut left: usize = ROUNDS;
        while left > 0
            invariant
                g == self@,
                n == g.layer.len(),
                fits(g, n as int),
                order_fits(o@, n as int),
                all_below(rows(best@), n as int),
                best_order(g) == improved(g, o@, rows(best@), least, left as nat),
            decreases left,
        {
            self.round(&mut o);
            let c = self.count_crossings(&o.layers);
            if c < least {
                least = c;
                best = copy_rows(&o.layers);
            }
            if least == 0 {
                return best;
            }
            left -= 1;
        }
        best
    }
}

/// Every layer number is below the number of layers.
pub proof fn lemma_depth(layer: Seq<usize>, k: int, i: int)
    requires
        0 <= i < k <= layer.len(),
    ensures
        layer[i] < depth(layer, k),
    decreases k,
{
    if i < k - 1 {
        lemma_depth(layer, k - 1, i);
    }
}

pub proof fn lemma_in_layer(layer: Seq<usize>, l: int, k: int)
    requires
        0 <= k <= layer.len(),
        layer.len() <= usize::MAX,
    ensures
        below(in_layer(layer, l, k), k),
        forall|i: int|
            0 <= i < in_layer(layer, l, k).len() ==> layer[(#[trigger] in_layer(
                layer,
                l,
                k,
            )[i]) as int] == l,
        in_layer(layer, l, k).no_duplicates(),
        forall|v: int|
            0 <= v < k && #[trigger] layer[v] == l ==> in_layer(layer, l, k).contains(v as usize),
    decreases k,
{
    if k > 0 {
        lemma_in_layer(layer, l, k - 1);
        let h = in_layer(layer, l, k - 1);
        let t = in_layer(layer, l, k);
        assert forall|i: int| 0 <= i < t.len() implies (#[trigger] t[i]) < k && layer[t[i] as int]
            == l by {
            if i < h.len() {
                assert(t[i] == h[i]);
                assert(h[i] < k - 1);
            }
        }
        assert(t.no_duplicates()) by {
            assert forall|i: int, j: int|
                0 <= i < t.len() && 0 <= j < t.len() && i != j implies t[i] != t[j] by {
                if i < h.len() {
                    assert(t[i] == h[i]);
                    assert(h[i] < k - 1);
                }
                if j < h.len() {
                    assert(t[j] == h[j]);
                    assert(h[j] < k - 1);
                }
            }
        }
        assert forall|v: int| 0 <= v < k && #[trigger] layer[v] == l implies t.contains(
            v as usize,
        ) by {
            if v < k - 1 {
                assert(h.contains(v as usize));
                let i = choose|i: int| 0 <= i < h.len() && h[i] == v as usize;
                assert(t[i] == v as usize);
            } else {
                assert(t[t.len() - 1] == v as usize);
            }
        }
    }
}

fn copy_rows(s: &Vec<Vec<usize>>) -> (r: Vec<Vec<usize>>)
    ensures
        rows(r@) == rows(s@),
{
    let ghost want = rows(s@);
    let mut r: Vec<Vec<usize>> = Vec::new();
    let mut i: usize = 0;
    while i < s.len()
        invariant
            i <= s@.len(),
            want == rows(s@),
            rows(r@) == want.take(i as int),
        decreases s@.len() - i,
    {
        let ghost before = r@;
        let row = crate::layout::clusters::prefix(s[i].as_slice(), s[i].len());
        assert(row@ =~= s@[i as int]@);
        let ghost item = row@;
        r.push(row);
        assert(rows(r@) =~= rows(before).push(item));
        assert(want.take(i as int + 1) =~= want.take(i as int).push(want[i as int]));
        i += 1;
    }
    assert(want.take(want.len() as int) =~= want);
    r
}

} // verus!
