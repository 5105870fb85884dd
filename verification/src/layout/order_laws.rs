//! What holds of the order of the layers.

use vstd::prelude::*;

use crate::layout::minimise::{
    best_order, crossings, depth, downwards, first_order, improved, longest, natural, regroup,
    regroup_layer, reorder_layer, round, tidied, upwards, ROUNDS, SWAPS,
};
use crate::layout::ordering::{
    arranged, cap, group_items, group_of, groups, join, laid_out, lemma_reordered, level_id, sweep,
    sweep_layer, transposed, try_swap, Group, Order, Scene,
};
use crate::layout::sorting::{before, law_sorting_rearranges, put_in, sorted, Item};

verus! {

proof fn lemma_improved(g: Scene, o: Order, best: Seq<Seq<usize>>, least: u128, rounds: nat)
    requires
        least == cap(crossings(g, best) as int),
    ensures
        cap(crossings(g, improved(g, o, best, least, rounds)) as int) <= least,
    decreases rounds,
{
    if rounds > 0 {
        let p = round(g, o);
        let c = cap(crossings(g, p.layers) as int);
        let (b, m) = if c < least {
            (p.layers, c)
        } else {
            (best, least)
        };
        if m != 0 {
            lemma_improved(g, p, b, m, (rounds - 1) as nat);
        }
    }
}

/// The order that is kept has no more crossings than the one before the
/// first round.
pub proof fn law_best_order_is_no_worse(g: Scene)
    ensures
        cap(crossings(g, best_order(g)) as int) <= cap(crossings(g, first_order(g).layers) as int),
{
    let o = first_order(g);
    lemma_improved(g, o, o.layers, cap(crossings(g, o.layers) as int), ROUNDS as nat);
}

/// Whether two orders have the same nodes in each layer.
pub open spec fn same_layers(a: Seq<Seq<usize>>, b: Seq<Seq<usize>>) -> bool {
    a.len() == b.len() && forall|l: int|
        0 <= l < a.len() ==> (#[trigger] a[l]).to_multiset() == b[l].to_multiset()
}

proof fn lemma_same_trans(a: Seq<Seq<usize>>, b: Seq<Seq<usize>>, c: Seq<Seq<usize>>)
    requires
        same_layers(a, b),
        same_layers(b, c),
    ensures
        same_layers(a, c),
{
    assert forall|l: int| 0 <= l < a.len() implies (#[trigger] a[l]).to_multiset()
        == c[l].to_multiset() by {
        assert(b[l].to_multiset() == c[l].to_multiset());
    }
}

proof fn lemma_swap(s: Seq<usize>, i: int)
    requires
        0 <= i,
        i + 1 < s.len(),
    ensures
        s.update(i, s[i + 1]).update(i + 1, s[i]).to_multiset() == s.to_multiset(),
{
    let t = s.update(i, s[i + 1]);
    vstd::seq_lib::to_multiset_update(s, i, s[i + 1]);
    vstd::seq_lib::to_multiset_update(t, i + 1, s[i]);
    assert(t[i + 1] == s[i + 1]);
    broadcast use vstd::seq_lib::group_to_multiset_ensures;

    assert(s.to_multiset().count(s[i]) > 0) by {
        assert(s.contains(s[i]));
    }
    assert(t.update(i + 1, s[i]).to_multiset() =~= s.to_multiset());
}

proof fn lemma_try_swap(g: Scene, o: Order, l: int, i: int)
    requires
        0 <= l < o.layers.len(),
        0 <= i,
        i + 1 < o.layers[l].len(),
    ensures
        same_layers(try_swap(g, o, l, i).0.layers, o.layers),
{
    lemma_swap(o.layers[l], i);
}

proof fn lemma_sweep_layer(g: Scene, o: Order, l: int, i: int, changed: bool)
    requires
        0 <= l < o.layers.len(),
        0 <= i,
    ensures
        same_layers(sweep_layer(g, o, l, i, changed).0.layers, o.layers),
    decreases o.layers[l].len() - i,
{
    if i + 1 < o.layers[l].len() {
        let (p, c) = try_swap(g, o, l, i);
        lemma_try_swap(g, o, l, i);
        lemma_sweep_layer(g, p, l, i + 1, changed || c);
        lemma_same_trans(
            sweep_layer(g, o, l, i, changed).0.layers,
            p.layers,
            o.layers,
        );
    }
}

proof fn lemma_sweep(g: Scene, o: Order, l: int, n: int, changed: bool)
    requires
        0 <= l,
        n == o.layers.len(),
    ensures
        same_layers(sweep(g, o, l, n, changed).0.layers, o.layers),
    decreases n - l,
{
    if l < n {
        let (p, c) = sweep_layer(g, o, l, 0, changed);
        lemma_sweep_layer(g, o, l, 0, changed);
        lemma_sweep(g, p, l + 1, n, c);
        lemma_same_trans(sweep(g, o, l, n, changed).0.layers, p.layers, o.layers);
    }
}

proof fn lemma_transposed(g: Scene, o: Order, rounds: nat)
    ensures
        same_layers(transposed(g, o, rounds).layers, o.layers),
    decreases rounds,
{
    if rounds > 0 {
        let (p, changed) = sweep(g, o, 0, o.layers.len() as int, false);
        lemma_sweep(g, o, 0, o.layers.len() as int, false);
        if changed {
            lemma_transposed(g, p, (rounds - 1) as nat);
            lemma_same_trans(transposed(g, o, rounds).layers, p.layers, o.layers);
        }
    }
}

proof fn lemma_downwards(g: Scene, o: Order, l: int)
    requires
        0 <= l,
    ensures
        same_layers(downwards(g, o, l).layers, o.layers),
    decreases o.layers.len() - l,
{
    if l < o.layers.len() {
        let p = reorder_layer(o, g.preds, l);
        lemma_reordered(o.layers[l], g.preds, o.pos);
        lemma_downwards(g, p, l + 1);
        lemma_same_trans(downwards(g, o, l).layers, p.layers, o.layers);
    }
}

proof fn lemma_upwards(g: Scene, o: Order, l: int)
    ensures
        same_layers(upwards(g, o, l).layers, o.layers),
    decreases l,
{
    if 0 < l <= o.layers.len() {
        let p = reorder_layer(o, g.succs, l - 1);
        lemma_reordered(o.layers[l - 1], g.succs, o.pos);
        lemma_upwards(g, p, l - 1);
        lemma_same_trans(upwards(g, o, l).layers, p.layers, o.layers);
    }
}

/// The sum of a weight over items.
pub open spec fn total(s: Seq<Item>, f: spec_fn(Item) -> nat) -> nat
    decreases s.len(),
{
    if s.len() == 0 {
        0
    } else {
        total(s.drop_last(), f) + f(s.last())
    }
}

proof fn lemma_total_put_in(s: Seq<Item>, x: Item, f: spec_fn(Item) -> nat)
    ensures
        total(put_in(s, x), f) == total(s, f) + f(x),
    decreases s.len(),
{
    if s.len() == 0 || !before(x, s.last()) {
        assert(s.push(x).drop_last() =~= s);
    } else {
        let h = s.drop_last();
        lemma_total_put_in(h, x, f);
        let t = put_in(h, x).push(s.last());
        assert(t.drop_last() =~= put_in(h, x));
    }
}

proof fn lemma_total_sorted(s: Seq<Item>, f: spec_fn(Item) -> nat)
    ensures
        total(sorted(s), f) == total(s, f),
    decreases s.len(),
{
    if s.len() > 0 {
        lemma_total_sorted(s.drop_last(), f);
        lemma_total_put_in(sorted(s.drop_last()), s.last(), f);
    }
}

/// How often `x` occurs in the first `k` groups.
pub open spec fn occurs(s: Seq<Group>, x: usize, k: int) -> nat
    decreases k,
{
    if k <= 0 {
        0
    } else {
        occurs(s, x, k - 1) + s[k - 1].members.to_multiset().count(x)
    }
}

proof fn lemma_occurs_update(s: Seq<Group>, x: usize, i: int, t: Group, k: int)
    requires
        0 <= i < s.len(),
        0 <= k <= s.len(),
    ensures
        occurs(s.update(i, t), x, k) == occurs(s, x, k) + if i < k {
            t.members.to_multiset().count(x) - s[i].members.to_multiset().count(x)
        } else {
            0
        },
    decreases k,
{
    if k > 0 {
        lemma_occurs_update(s, x, i, t, k - 1);
    }
}

proof fn lemma_occurs_push(s: Seq<Group>, x: usize, t: Group, k: int)
    requires
        0 <= k <= s.len(),
    ensures
        occurs(s.push(t), x, k) == occurs(s, x, k),
    decreases k,
{
    if k > 0 {
        lemma_occurs_push(s, x, t, k - 1);
    }
}

proof fn lemma_group_of(s: Seq<Group>, c: usize, i: int)
    requires
        0 <= i,
    ensures
        group_of(s, c, i) matches Some(k) ==> i <= k < s.len() && s[k].id == Some(c),
        group_of(s, c, i) is None ==> (forall|j: int|
            i <= j < s.len() ==> (#[trigger] s[j]).id != Some(c)),
    decreases s.len() - i,
{
    if i < s.len() && s[i].id != Some(c) {
        lemma_group_of(s, c, i + 1);
    }
}

/// Whether every member of a group is of its subgraph, a group without a
/// subgraph is a single node, and no subgraph has two groups.
pub open spec fn grouped(s: Seq<Group>, paths: Seq<Seq<usize>>, level: int) -> bool {
    &&& forall|i: int, j: int|
        #![trigger s[i].members[j]]
        0 <= i < s.len() && 0 <= j < s[i].members.len() ==> level_id(
            paths[s[i].members[j] as int],
            level,
        ) == s[i].id
    &&& forall|i: int, j: int|
        0 <= i < j < s.len() && (#[trigger] s[i]).id is Some ==> s[i].id != (#[trigger] s[j]).id
    &&& forall|i: int|
        0 <= i < s.len() && (#[trigger] s[i]).id is None ==> s[i].members.len() == 1
}

proof fn lemma_join(
    s: Seq<Group>,
    paths: Seq<Seq<usize>>,
    level: int,
    v: usize,
    x: usize,
)
    requires
        grouped(s, paths, level),
    ensures
        ({
            let t = join(s, level_id(paths[v as int], level), v);
            &&& grouped(t, paths, level)
            &&& occurs(t, x, t.len() as int) == occurs(s, x, s.len() as int) + if v == x {
                1nat
            } else {
                0nat
            }
        }),
{
    broadcast use vstd::seq_lib::group_to_multiset_ensures;

    let id = level_id(paths[v as int], level);
    let t = join(s, id, v);
    let one = Group { id, members: seq![v] };
    assert(seq![v].to_multiset().count(x) == if v == x {
        1nat
    } else {
        0nat
    }) by {
        assert(seq![v] =~= Seq::<usize>::empty().push(v));
        assert(Seq::<usize>::empty().to_multiset() =~= vstd::multiset::Multiset::empty());
    }
    if id is Some {
        lemma_group_of(s, id->Some_0, 0);
    }
    if id is Some && group_of(s, id->Some_0, 0) is Some {
        let i = group_of(s, id->Some_0, 0)->Some_0;
        let u = Group { members: s[i].members.push(v), ..s[i] };
        lemma_occurs_update(s, x, i, u, s.len() as int);
        assert forall|a: int, b: int|
            #![trigger t[a].members[b]]
            0 <= a < t.len() && 0 <= b < t[a].members.len() implies level_id(
            paths[t[a].members[b] as int],
            level,
        ) == t[a].id by {
            if a != i || b < s[i].members.len() {
                assert(t[a].members[b] == s[a].members[b]);
            }
        }
        assert forall|a: int, b: int|
            0 <= a < b < t.len() && (#[trigger] t[a]).id is Some implies t[a].id != (
        #[trigger] t[b]).id by {
            assert(s[a].id == t[a].id && s[b].id == t[b].id);
        }
        assert forall|a: int| 0 <= a < t.len() && (#[trigger] t[a]).id is None implies t[a].members.len()
            == 1 by {
            assert(s[a].id == t[a].id);
        }
    } else {
        assert(t == s.push(one));
        lemma_occurs_push(s, x, one, s.len() as int);
        assert forall|a: int, b: int|
            #![trigger t[a].members[b]]
            0 <= a < t.len() && 0 <= b < t[a].members.len() implies level_id(
            paths[t[a].members[b] as int],
            level,
        ) == t[a].id by {
            if a < s.len() {
                assert(t[a].members[b] == s[a].members[b]);
            }
        }
        assert forall|a: int, b: int|
            0 <= a < b < t.len() && (#[trigger] t[a]).id is Some implies t[a].id != (
        #[trigger] t[b]).id by {
            assert(s[a] == t[a]);
            if b < s.len() {
                assert(s[b] == t[b]);
            }
        }
        assert forall|a: int| 0 <= a < t.len() && (#[trigger] t[a]).id is None implies t[a].members.len()
            == 1 by {
            if a < s.len() {
                assert(s[a] == t[a]);
            }
        }
    }
}

proof fn lemma_groups(items: Seq<usize>, paths: Seq<Seq<usize>>, level: int, x: usize, k: int)
    requires
        0 <= k <= items.len(),
    ensures
        ({
            let s = groups(items, paths, level, k);
            &&& grouped(s, paths, level)
            &&& occurs(s, x, s.len() as int) == items.take(k).to_multiset().count(x)
            &&& s.len() <= k
        }),
    decreases k,
{
    broadcast use vstd::seq_lib::group_to_multiset_ensures;

    if k > 0 {
        lemma_groups(items, paths, level, x, k - 1);
        let before = groups(items, paths, level, k - 1);
        lemma_join(before, paths, level, items[k - 1], x);
        let id = level_id(paths[items[k - 1] as int], level);
        if id is Some {
            lemma_group_of(before, id->Some_0, 0);
        }
        assert(items.take(k) =~= items.take(k - 1).push(items[k - 1]));
        assert(items.take(k).to_multiset() =~= items.take(k - 1).to_multiset().insert(
            items[k - 1],
        ));
    } else {
        assert(items.take(0) =~= Seq::<usize>::empty());
        assert(Seq::<usize>::empty().to_multiset() =~= vstd::multiset::Multiset::empty());
    }
}

/// How often `x` occurs in the group that an item stands for.
pub open spec fn weight(s: Seq<Group>, x: usize) -> spec_fn(Item) -> nat {
    |i: Item| s[i.val as int].members.to_multiset().count(x)
}

proof fn lemma_total_groups(s: Seq<Group>, items: Seq<Item>, x: usize, k: int)
    requires
        0 <= k <= s.len(),
        s.len() <= usize::MAX,
        items.len() == s.len(),
        forall|i: int| 0 <= i < items.len() ==> (#[trigger] items[i]).val == i as usize,
    ensures
        total(items.take(k), weight(s, x)) == occurs(s, x, k),
    decreases k,
{
    if k > 0 {
        lemma_total_groups(s, items, x, k - 1);
        assert(items.take(k).drop_last() =~= items.take(k - 1));
        assert(items.take(k).last() == items[k - 1]);
    }
}

proof fn lemma_laid_out(
    g: Scene,
    pos: Seq<usize>,
    s: Seq<Group>,
    order: Seq<Item>,
    level: int,
    levels: nat,
    k: int,
    x: usize,
)
    requires
        0 <= k <= order.len(),
        forall|t: Seq<usize>|
            levels > 0 && t.len() <= usize::MAX ==> #[trigger] arranged(
                g,
                pos,
                t,
                level + 1,
                (levels - 1) as nat,
            ).to_multiset().count(x) == t.to_multiset().count(x),
        forall|i: int| 0 <= i < s.len() ==> (#[trigger] s[i]).members.len() <= usize::MAX,
        forall|i: int| 0 <= i < order.len() ==> (#[trigger] order[i]).val < s.len(),
    ensures
        laid_out(g, pos, s, order, level, levels, k).to_multiset().count(x) == total(
            order.take(k),
            weight(s, x),
        ),
    decreases k,
{
    broadcast use vstd::seq_lib::group_to_multiset_ensures;

    if k > 0 {
        lemma_laid_out(g, pos, s, order, level, levels, k - 1, x);
        assert(order.take(k).drop_last() =~= order.take(k - 1));
        assert(order.take(k).last() == order[k - 1]);
        let t = s[order[k - 1].val as int];
        let a = laid_out(g, pos, s, order, level, levels, k - 1);
        let b = if t.id is Some && t.members.len() > 1 && levels > 0 {
            arranged(g, pos, t.members, level + 1, (levels - 1) as nat)
        } else {
            t.members
        };
        vstd::seq_lib::lemma_multiset_commutative(a, b);
        assert((a + b).to_multiset().count(x) == a.to_multiset().count(x) + b.to_multiset().count(
            x,
        ));
    } else {
        assert(Seq::<usize>::empty().to_multiset() =~= vstd::multiset::Multiset::empty());
    }
}

proof fn lemma_members_len(items: Seq<usize>, paths: Seq<Seq<usize>>, level: int, k: int)
    requires
        0 <= k <= items.len(),
    ensures
        forall|i: int|
            0 <= i < groups(items, paths, level, k).len() ==> (#[trigger] groups(
                items,
                paths,
                level,
                k,
            )[i]).members.len() <= k,
    decreases k,
{
    if k > 0 {
        lemma_members_len(items, paths, level, k - 1);
        let s = groups(items, paths, level, k - 1);
        let t = groups(items, paths, level, k);
        let id = level_id(paths[items[k - 1] as int], level);
        if id is Some {
            lemma_group_of(s, id->Some_0, 0);
        }
        assert forall|i: int| 0 <= i < t.len() implies (#[trigger] t[i]).members.len() <= k by {
            if i < s.len() {
                assert(s[i].members.len() <= k - 1);
            }
        }
    }
}

proof fn lemma_sorted_range(items: Seq<Item>, n: int)
    requires
        items.len() == n,
        n <= usize::MAX,
        forall|i: int| 0 <= i < items.len() ==> (#[trigger] items[i]).val == i as usize,
    ensures
        sorted(items).len() == n,
        forall|i: int| 0 <= i < sorted(items).len() ==> (#[trigger] sorted(items)[i]).val < n,
{
    broadcast use vstd::seq_lib::group_to_multiset_ensures;

    law_sorting_rearranges(items);
    let s = sorted(items);
    assert forall|i: int| 0 <= i < s.len() implies (#[trigger] s[i]).val < n by {
        assert(s.to_multiset().count(s[i]) > 0);
        assert(items.contains(s[i]));
        let j = choose|j: int| 0 <= j < items.len() && items[j] == s[i];
        assert(items[j].val == j as usize);
    }
}

/// Arranging loses no node and repeats none.
pub proof fn law_arranging_rearranges(
    g: Scene,
    pos: Seq<usize>,
    items: Seq<usize>,
    level: int,
    levels: nat,
    x: usize,
)
    requires
        items.len() <= usize::MAX,
    ensures
        arranged(g, pos, items, level, levels).to_multiset().count(x) == items.to_multiset().count(
            x,
        ),
    decreases levels,
{
    if items.len() > 1 {
        let n = items.len() as int;
        let s = groups(items, g.paths, level, n);
        let keyed = group_items(s, g.sides, pos);
        let order = sorted(keyed);
        lemma_groups(items, g.paths, level, x, n);
        lemma_members_len(items, g.paths, level, n);
        lemma_sorted_range(keyed, s.len() as int);
        assert forall|t: Seq<usize>| levels > 0 && t.len() <= usize::MAX implies #[trigger] arranged(
            g,
            pos,
            t,
            level + 1,
            (levels - 1) as nat,
        ).to_multiset().count(x) == t.to_multiset().count(x) by {
            law_arranging_rearranges(g, pos, t, level + 1, (levels - 1) as nat, x);
        }
        lemma_laid_out(g, pos, s, order, level, levels, order.len() as int, x);
        lemma_total_sorted(keyed, weight(s, x));
        lemma_total_groups(s, keyed, x, s.len() as int);
        assert(order.take(order.len() as int) =~= order);
        assert(keyed.take(s.len() as int) =~= keyed);
        assert(items.take(n) =~= items);
    }
}

proof fn lemma_regroup(g: Scene, o: Order, l: int)
    requires
        0 <= l,
        forall|k: int| 0 <= k < o.layers.len() ==> (#[trigger] o.layers[k]).len() <= usize::MAX,
    ensures
        same_layers(regroup(g, o, l).layers, o.layers),
    decreases o.layers.len() - l,
{
    if l < o.layers.len() {
        let p = regroup_layer(g, o, l);
        if o.layers[l].len() > 1 {
            let levels = longest(g.paths, g.paths.len() as int);
            let row = arranged(g, o.pos, o.layers[l], 0, levels);
            assert(row.to_multiset() =~= o.layers[l].to_multiset()) by {
                assert forall|x: usize| row.to_multiset().count(x) == o.layers[l].to_multiset().count(
                    x,
                ) by {
                    law_arranging_rearranges(g, o.pos, o.layers[l], 0, levels, x);
                }
            }
        }
        assert(same_layers(p.layers, o.layers));
        lemma_same_len(p.layers, o.layers);
        lemma_regroup(g, p, l + 1);
        lemma_same_trans(regroup(g, o, l).layers, p.layers, o.layers);
    }
}

proof fn lemma_same_len(a: Seq<Seq<usize>>, b: Seq<Seq<usize>>)
    requires
        same_layers(a, b),
    ensures
        forall|l: int| 0 <= l < a.len() ==> (#[trigger] a[l]).len() == b[l].len(),
{
    broadcast use vstd::seq_lib::group_to_multiset_ensures;

    assert forall|l: int| 0 <= l < a.len() implies (#[trigger] a[l]).len() == b[l].len() by {
        assert(a[l].to_multiset().len() == b[l].to_multiset().len());
    }
}

proof fn lemma_tidied(g: Scene, o: Order)
    requires
        forall|k: int| 0 <= k < o.layers.len() ==> (#[trigger] o.layers[k]).len() <= usize::MAX,
    ensures
        same_layers(tidied(g, o).layers, o.layers),
{
    if g.clustered {
        lemma_regroup(g, o, 0);
    }
}

proof fn lemma_round(g: Scene, o: Order)
    requires
        forall|k: int| 0 <= k < o.layers.len() ==> (#[trigger] o.layers[k]).len() <= usize::MAX,
    ensures
        same_layers(round(g, o).layers, o.layers),
{
    let a = downwards(g, o, 1);
    let b = upwards(g, a, a.layers.len() - 1);
    let c = transposed(g, b, SWAPS as nat);
    lemma_downwards(g, o, 1);
    lemma_upwards(g, a, a.layers.len() - 1);
    lemma_same_trans(b.layers, a.layers, o.layers);
    lemma_transposed(g, b, SWAPS as nat);
    lemma_same_trans(c.layers, b.layers, o.layers);
    lemma_same_len(c.layers, o.layers);
    lemma_tidied(g, c);
    lemma_same_trans(tidied(g, c).layers, c.layers, o.layers);
}

proof fn lemma_improved_same(
    g: Scene,
    o: Order,
    best: Seq<Seq<usize>>,
    least: u128,
    rounds: nat,
    start: Seq<Seq<usize>>,
)
    requires
        same_layers(o.layers, start),
        same_layers(best, start),
        forall|k: int| 0 <= k < start.len() ==> (#[trigger] start[k]).len() <= usize::MAX,
    ensures
        same_layers(improved(g, o, best, least, rounds), start),
    decreases rounds,
{
    if rounds > 0 {
        lemma_same_len(o.layers, start);
        let p = round(g, o);
        lemma_round(g, o);
        lemma_same_trans(p.layers, o.layers, start);
        let c = cap(crossings(g, p.layers) as int);
        let (b, m) = if c < least {
            (p.layers, c)
        } else {
            (best, least)
        };
        if m != 0 {
            lemma_improved_same(g, p, b, m, (rounds - 1) as nat, start);
        }
    }
}

proof fn lemma_in_layer_len(layer: Seq<usize>, l: int, k: int)
    requires
        0 <= k,
    ensures
        crate::layout::minimise::in_layer(layer, l, k).len() <= k,
    decreases k,
{
    if k > 0 {
        lemma_in_layer_len(layer, l, k - 1);
    }
}

/// Ordering moves nodes only within their layers: every layer keeps the
/// nodes that were assigned to it.
pub proof fn law_ordering_keeps_layers(g: Scene)
    requires
        g.layer.len() <= usize::MAX,
    ensures
        same_layers(best_order(g), natural(g.layer, depth(g.layer, g.layer.len() as int))),
{
    let start = natural(g.layer, depth(g.layer, g.layer.len() as int));
    assert forall|k: int| 0 <= k < start.len() implies (#[trigger] start[k]).len() <= usize::MAX by {
        lemma_in_layer_len(g.layer, k, g.layer.len() as int);
    }
    let raw = Order {
        layers: start,
        pos: crate::layout::minimise::positions(start, g.layer.len()),
    };
    lemma_tidied(g, raw);
    let o = first_order(g);
    lemma_improved_same(
        g,
        o,
        o.layers,
        cap(crossings(g, o.layers) as int),
        ROUNDS as nat,
        start,
    );
}

/// Whether the nodes of each subgraph at a nesting level stand next to each
/// other.
pub open spec fn together(row: Seq<usize>, paths: Seq<Seq<usize>>, level: int) -> bool {
    forall|i: int, j: int, k: int|
        0 <= i <= j <= k < row.len() && level_id(paths[(#[trigger] row[i]) as int], level) is Some
            && level_id(paths[row[i] as int], level) == level_id(
            paths[(#[trigger] row[k]) as int],
            level,
        ) ==> level_id(paths[(#[trigger] row[j]) as int], level) == level_id(
            paths[row[i] as int],
            level,
        )
}

/// The items of the first `k` groups of an order are theirs alone.
proof fn lemma_together(
    g: Scene,
    pos: Seq<usize>,
    s: Seq<Group>,
    order: Seq<Item>,
    level: int,
    levels: nat,
    k: int,
)
    requires
        grouped(s, g.paths, level),
        0 <= k <= order.len(),
        forall|i: int| 0 <= i < order.len() ==> (#[trigger] order[i]).val < s.len(),
        forall|i: int, j: int|
            0 <= i < j < order.len() ==> (#[trigger] order[i]).val != (#[trigger] order[j]).val,
        forall|i: int| 0 <= i < s.len() ==> (#[trigger] s[i]).members.len() <= usize::MAX,
    ensures
        together(laid_out(g, pos, s, order, level, levels, k), g.paths, level),
        forall|i: int|
            0 <= i < laid_out(g, pos, s, order, level, levels, k).len() ==> exists|m: int|
                0 <= m < k && s[(#[trigger] order[m]).val as int].id == level_id(
                    g.paths[(#[trigger] laid_out(g, pos, s, order, level, levels, k)[i]) as int],
                    level,
                ),
    decreases k,
{
    broadcast use vstd::seq_lib::group_to_multiset_ensures;

    if k > 0 {
        lemma_together(g, pos, s, order, level, levels, k - 1);
        let q = order[k - 1].val as int;
        let t = s[q];
        let a = laid_out(g, pos, s, order, level, levels, k - 1);
        let b = if t.id is Some && t.members.len() > 1 && levels > 0 {
            arranged(g, pos, t.members, level + 1, (levels - 1) as nat)
        } else {
            t.members
        };
        let r = laid_out(g, pos, s, order, level, levels, k);
        assert(r == a + b);
        assert forall|j: int| 0 <= j < b.len() implies level_id(
            g.paths[(#[trigger] b[j]) as int],
            level,
        ) == t.id by {
            if levels > 0 {
                law_arranging_rearranges(
                    g,
                    pos,
                    t.members,
                    level + 1,
                    (levels - 1) as nat,
                    b[j],
                );
            }
            assert(b.to_multiset().count(b[j]) > 0);
            assert(t.members.contains(b[j]));
            let m = choose|m: int| 0 <= m < t.members.len() && t.members[m] == b[j];
            assert(s[q].members[m] == b[j]);
        }
        assert forall|i: int| 0 <= i < a.len() && t.id is Some implies level_id(
            g.paths[(#[trigger] a[i]) as int],
            level,
        ) != t.id by {
            let m = choose|m: int|
                0 <= m < k - 1 && s[(#[trigger] order[m]).val as int].id == level_id(
                    g.paths[a[i] as int],
                    level,
                );
            let p = order[m].val as int;
            assert(order[m].val != order[k - 1].val);
            if s[p].id == t.id {
                if p < q {
                    assert(s[p].id != s[q].id);
                } else {
                    assert(s[q].id != s[p].id);
                }
            }
        }
        assert forall|i: int, j: int, m: int|
            0 <= i <= j <= m < r.len() && level_id(g.paths[(#[trigger] r[i]) as int], level) is Some
                && level_id(g.paths[r[i] as int], level) == level_id(
                g.paths[(#[trigger] r[m]) as int],
                level,
            ) implies level_id(g.paths[(#[trigger] r[j]) as int], level) == level_id(
            g.paths[r[i] as int],
            level,
        ) by {
            if m < a.len() {
                assert(r[i] == a[i] && r[j] == a[j] && r[m] == a[m]);
            } else if i < a.len() {
                assert(r[i] == a[i]);
                assert(r[m] == b[m - a.len()]);
            } else {
                assert(r[i] == b[i - a.len()]);
                assert(r[j] == b[j - a.len()]);
            }
        }
        assert forall|i: int| 0 <= i < r.len() implies exists|m: int|
            0 <= m < k && s[(#[trigger] order[m]).val as int].id == level_id(
                g.paths[(#[trigger] r[i]) as int],
                level,
            ) by {
            if i < a.len() {
                assert(r[i] == a[i]);
                let m = choose|m: int|
                    0 <= m < k - 1 && s[(#[trigger] order[m]).val as int].id == level_id(
                        g.paths[a[i] as int],
                        level,
                    );
                assert(s[order[m].val as int].id == level_id(g.paths[r[i] as int], level));
            } else {
                assert(r[i] == b[i - a.len()]);
                assert(s[order[k - 1].val as int].id == level_id(g.paths[r[i] as int], level));
            }
        }
    }
}

proof fn lemma_sorted_distinct(items: Seq<Item>, n: int)
    requires
        items.len() == n,
        n <= usize::MAX,
        forall|i: int| 0 <= i < items.len() ==> (#[trigger] items[i]).val == i as usize,
    ensures
        forall|i: int, j: int|
            0 <= i < j < sorted(items).len() ==> (#[trigger] sorted(items)[i]).val != (
            #[trigger] sorted(items)[j]).val,
{
    let s = sorted(items);
    law_sorting_rearranges(items);
    crate::layout::ordering::lemma_vals_rearranged(s, items);
    let f = |x: Item| x.val;
    let a = s.map_values(f);
    let b = items.map_values(f);
    assert(b.no_duplicates()) by {
        assert forall|i: int, j: int|
            0 <= i < b.len() && 0 <= j < b.len() && i != j implies b[i] != b[j] by {
            assert(items[i].val == i as usize && items[j].val == j as usize);
        }
    }
    b.lemma_multiset_has_no_duplicates();
    a.lemma_multiset_has_no_duplicates_conv();
    assert forall|i: int, j: int| 0 <= i < j < s.len() implies (#[trigger] s[i]).val != (
    #[trigger] s[j]).val by {
        assert(a[i] != a[j]);
    }
}

/// After arranging, the nodes of each subgraph stand next to each other.
/// The members of a subgraph are themselves arranged one level deeper.
pub proof fn law_subgraphs_stay_together(
    g: Scene,
    pos: Seq<usize>,
    items: Seq<usize>,
    level: int,
    levels: nat,
)
    requires
        items.len() <= usize::MAX,
    ensures
        together(arranged(g, pos, items, level, levels), g.paths, level),
{
    if items.len() > 1 {
        let n = items.len() as int;
        let s = groups(items, g.paths, level, n);
        let keyed = group_items(s, g.sides, pos);
        let order = sorted(keyed);
        lemma_groups(items, g.paths, level, 0, n);
        lemma_members_len(items, g.paths, level, n);
        lemma_sorted_range(keyed, s.len() as int);
        lemma_sorted_distinct(keyed, s.len() as int);
        lemma_together(g, pos, s, order, level, levels, order.len() as int);
    }
}

} // verus!
