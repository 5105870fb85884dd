//! Nodes of a layer do not overlap.

use vstd::prelude::*;

use crate::advance::place::lengths::{bound, bounded};
use crate::advance::route::geometry::{least, most, FAR};
use crate::advance::scene::Px;
use crate::layout::align::{align_layers, conflicts};
use crate::layout::align_laws::{law_blocks_do_not_cross, row_at, rows_at, steps_back};
use crate::layout::compact::{breadths_fit, compacted, Breadths, GAP_B};
use crate::layout::compact_laws::{
    clear, law_compaction_keeps_neighbours_apart, lemma_spaced, spaced, stepped,
};
use crate::layout::coords::{
    adjacent, aligned, beside, blended, candidate, candidates, coordinates, high, layers_from, low,
    middle, mirrored, narrowest, row_from,
};
use crate::layout::cycles::in_graph;
use crate::layout::engine::{
    all_rooms, chain_rooms, edge_ends, edge_rooms, hidden, is_drawn, is_layered, own_rooms, rooms,
    sideways, spread, LayoutResult, Rooms, MARGIN,
};
use crate::layout::minimise::{
    best_order, depth, lemma_depth, lemma_in_layer, natural, number_all, positions,
};
use crate::layout::order_laws::law_ordering_keeps_layers;
use crate::layout::ordering::{all_below, below, numbered, rows, Layers, Scene};
use crate::layout::plan::{is_plan, lemma_plain_plan, Plan};
use crate::model::{opt_text, Edge, Graph};

verus! {

/// Whether rows hold exactly the nodes of their layers, each once.
spec fn rows_of(layers: Seq<Seq<usize>>, layer: Seq<usize>) -> bool {
    &&& forall|l: int|
        0 <= l < layers.len() ==> (#[trigger] layers[l]).no_duplicates() && layers[l].len()
            <= layer.len()
    &&& forall|l: int, i: int|
        #![trigger layers[l][i]]
        0 <= l < layers.len() && 0 <= i < layers[l].len() ==> layers[l][i] < layer.len()
            && layer[layers[l][i] as int] == l
    &&& forall|v: int|
        0 <= v < layer.len() ==> (#[trigger] layer[v]) < layers.len() && layers[layer[v] as int].contains(
            v as usize,
        )
}

proof fn lemma_rows_of(g: Scene)
    requires
        g.layer.len() <= usize::MAX,
    ensures
        rows_of(best_order(g), g.layer),
{
    broadcast use vstd::seq_lib::group_to_multiset_ensures;

    let layers = best_order(g);
    let n = g.layer.len() as int;
    let start = natural(g.layer, depth(g.layer, n));
    law_ordering_keeps_layers(g);
    assert forall|l: int| 0 <= l < layers.len() implies (#[trigger] layers[l]).no_duplicates()
        && layers[l].len() <= g.layer.len() by {
        lemma_in_layer(g.layer, l, n);
        assert(layers[l].to_multiset() == start[l].to_multiset());
        start[l].lemma_multiset_has_no_duplicates();
        layers[l].lemma_multiset_has_no_duplicates_conv();
        start[l].to_multiset_ensures();
        layers[l].to_multiset_ensures();
        lemma_short(start[l], n);
    }
    assert forall|l: int, i: int|
        #![trigger layers[l][i]]
        0 <= l < layers.len() && 0 <= i < layers[l].len() implies layers[l][i] < g.layer.len()
        && g.layer[layers[l][i] as int] == l by {
        lemma_in_layer(g.layer, l, n);
        assert(layers[l].to_multiset() == start[l].to_multiset());
        assert(layers[l].to_multiset().count(layers[l][i]) > 0);
        assert(start[l].contains(layers[l][i]));
    }
    assert forall|v: int| 0 <= v < g.layer.len() implies (#[trigger] g.layer[v]) < layers.len()
        && layers[g.layer[v] as int].contains(v as usize) by {
        let l = g.layer[v] as int;
        lemma_depth(g.layer, n, v);
        lemma_in_layer(g.layer, l, n);
        assert(layers[l].to_multiset() == start[l].to_multiset());
        assert(start[l].contains(v as usize));
        assert(start[l].to_multiset().count(v as usize) > 0);
    }
}

/// A list without repetitions of numbers below `n` has at most `n`.
proof fn lemma_short(s: Seq<usize>, n: int)
    requires
        s.no_duplicates(),
        below(s, n),
        0 <= n,
    ensures
        s.len() <= n,
{
    let ints = s.map_values(|x: usize| x as int);
    assert(ints.no_duplicates()) by {
        assert forall|i: int, j: int| 0 <= i < ints.len() && 0 <= j < ints.len() && i != j implies ints[i]
            != ints[j] by {
            assert(s[i] != s[j]);
        }
    }
    ints.unique_seq_to_set();
    let all = vstd::set_lib::set_int_range(0, n);
    vstd::set_lib::lemma_int_range(0, n);
    assert(ints.to_set().subset_of(all)) by {
        assert forall|x: int| #[trigger] ints.to_set().contains(x) implies all.contains(x) by {
            let i = choose|i: int| 0 <= i < ints.len() && ints[i] == x;
            assert(s[i] < n);
        }
    }
    vstd::set_lib::lemma_len_subset(ints.to_set(), all);
}

proof fn lemma_numbered(pos: Seq<usize>, row: Seq<usize>, k: int)
    requires
        row.no_duplicates(),
        below(row, pos.len() as int),
        row.len() <= usize::MAX,
        0 <= k <= row.len(),
    ensures
        numbered(pos, row, k).len() == pos.len(),
        forall|i: int| 0 <= i < k ==> numbered(pos, row, k)[(#[trigger] row[i]) as int] == i,
        forall|v: int|
            0 <= v < pos.len() && !row.contains(v as usize) && v <= usize::MAX ==> #[trigger] numbered(
                pos,
                row,
                k,
            )[v] == pos[v],
    decreases k,
{
    if k > 0 {
        lemma_numbered(pos, row, k - 1);
        assert(row[k - 1] < pos.len());
        assert forall|i: int| 0 <= i < k implies numbered(pos, row, k)[(#[trigger] row[i]) as int]
            == i by {
            if i < k - 1 {
                assert(row[i] != row[k - 1]);
                assert(row[i] < pos.len());
            }
        }
        assert forall|v: int|
            0 <= v < pos.len() && !row.contains(v as usize) && v <= usize::MAX implies #[trigger] numbered(
            pos,
            row,
            k,
        )[v] == pos[v] by {
            assert(row.contains(row[k - 1]));
        }
    }
}

/// Whether rows hold their own nodes only, each once.
spec fn rows_apart(layers: Seq<Seq<usize>>, at: Seq<int>) -> bool {
    &&& forall|t: int|
        0 <= t < layers.len() ==> (#[trigger] layers[t]).no_duplicates() && layers[t].len()
            <= at.len()
    &&& forall|t: int, i: int|
        #![trigger layers[t][i]]
        0 <= t < layers.len() && 0 <= i < layers[t].len() ==> layers[t][i] < at.len()
            && at[layers[t][i] as int] == t
}

proof fn lemma_number_all(pos: Seq<usize>, layers: Seq<Seq<usize>>, at: Seq<int>, k: int)
    requires
        rows_apart(layers, at),
        pos.len() == at.len(),
        at.len() <= usize::MAX,
        0 <= k <= layers.len(),
    ensures
        number_all(pos, layers, k).len() == pos.len(),
        forall|t: int, i: int|
            #![trigger layers[t][i]]
            0 <= t < k && 0 <= i < layers[t].len() ==> number_all(
                pos,
                layers,
                k,
            )[layers[t][i] as int] == i,
    decreases k,
{
    if k > 0 {
        lemma_number_all(pos, layers, at, k - 1);
        let before = number_all(pos, layers, k - 1);
        let after = number_all(pos, layers, k);
        let row = layers[k - 1];
        assert(row.no_duplicates());
        assert forall|i: int| 0 <= i < row.len() implies (#[trigger] row[i]) < before.len() by {
            assert(layers[k - 1][i] < at.len());
        }
        lemma_numbered(before, row, row.len() as int);
        assert forall|t: int, i: int|
            #![trigger layers[t][i]]
            0 <= t < k && 0 <= i < layers[t].len() implies after[layers[t][i] as int] == i by {
            let v = layers[t][i];
            if t < k - 1 {
                assert(before[v as int] == i);
                if row.contains(v) {
                    let j = choose|j: int| 0 <= j < row.len() && row[j] == v;
                    assert(at[layers[k - 1][j] as int] == k - 1);
                }
                assert(after[v as int] == before[v as int]);
            } else {
                assert(row[i] == v);
            }
        }
    }
}

/// In which row of turned layers each node is.
spec fn row_numbers(layer: Seq<usize>, count: int, bottom: bool) -> Seq<int> {
    Seq::new(
        layer.len(),
        |v: int|
            if bottom {
                count - 1 - layer[v]
            } else {
                layer[v] as int
            },
    )
}

/// Turned layers hold the same nodes.
proof fn lemma_turned(layers: Seq<Seq<usize>>, layer: Seq<usize>, bottom: bool, right: bool)
    requires
        rows_of(layers, layer),
    ensures
        ({
            let al = layers_from(layers, bottom, right);
            let at = row_numbers(layer, layers.len() as int, bottom);
            &&& al.len() == layers.len()
            &&& rows_apart(al, at)
            &&& all_below(al, layer.len() as int)
            &&& forall|v: int|
                0 <= v < at.len() ==> 0 <= (#[trigger] at[v]) < al.len() && al[at[v]].contains(
                    v as usize,
                )
        }),
{
    let al = layers_from(layers, bottom, right);
    let n = layers.len() as int;
    let at = row_numbers(layer, n, bottom);
    assert forall|t: int| 0 <= t < al.len() implies (#[trigger] al[t]).no_duplicates() && al[t].len()
        <= at.len() by {
        let l = if bottom {
            n - 1 - t
        } else {
            t
        };
        assert(layers[l].no_duplicates());
        assert(al[t] == row_from(layers[l], right));
    }
    assert forall|t: int, i: int|
        #![trigger al[t][i]]
        0 <= t < al.len() && 0 <= i < al[t].len() implies al[t][i] < at.len() && at[al[t][i] as int]
        == t by {
        let l = if bottom {
            n - 1 - t
        } else {
            t
        };
        assert(al[t] == row_from(layers[l], right));
        let j = if right {
            layers[l].len() - 1 - i
        } else {
            i
        };
        assert(al[t][i] == layers[l][j]);
    }
    assert forall|t: int| 0 <= t < al.len() implies below(#[trigger] al[t], layer.len() as int) by {
        assert forall|i: int| 0 <= i < al[t].len() implies (#[trigger] al[t][i]) < layer.len() by {}
    }
    assert forall|v: int| 0 <= v < at.len() implies 0 <= (#[trigger] at[v]) < al.len()
        && al[at[v]].contains(v as usize) by {
        let l = layer[v] as int;
        assert(l < n && layers[l].contains(v as usize));
        let j = choose|j: int| 0 <= j < layers[l].len() && layers[l][j] == v as usize;
        assert(al[at[v]] == row_from(layers[l], right));
        let i = if right {
            layers[l].len() - 1 - j
        } else {
            j
        };
        assert(al[at[v]][i] == v as usize);
    }
}

proof fn lemma_beside(ns: Seq<usize>, layer: Seq<usize>, l: int, up: bool, k: int)
    requires
        0 <= k <= ns.len(),
        below(ns, layer.len() as int),
    ensures
        forall|x: int|
            0 <= x < beside(ns, layer, l, up, k).len() ==> (#[trigger] beside(
                ns,
                layer,
                l,
                up,
                k,
            )[x]) < layer.len() && layer[beside(ns, layer, l, up, k)[x] as int] == (if up {
                l - 1
            } else {
                l + 1
            }),
    decreases k,
{
    if k > 0 {
        lemma_beside(ns, layer, l, up, k - 1);
        let before = beside(ns, layer, l, up, k - 1);
        let after = beside(ns, layer, l, up, k);
        assert(ns[k - 1] < layer.len());
        assert forall|x: int| 0 <= x < after.len() implies (#[trigger] after[x]) < layer.len()
            && layer[after[x] as int] == (if up {
            l - 1
        } else {
            l + 1
        }) by {
            if x < before.len() {
                assert(after[x] == before[x]);
            }
        }
    }
}

/// The neighbours of a node stand in the row before.
proof fn lemma_steps_back(
    layers: Seq<Seq<usize>>,
    layer: Seq<usize>,
    lists: Seq<Seq<usize>>,
    bottom: bool,
    right: bool,
    t: int,
    i: int,
)
    requires
        rows_of(layers, layer),
        layer.len() <= usize::MAX,
        lists.len() == layer.len(),
        all_below(lists, layer.len() as int),
        0 <= t < layers.len(),
        0 <= i < layers_from(layers, bottom, right)[t].len(),
    ensures
        ({
            let al = layers_from(layers, bottom, right);
            let at = row_numbers(layer, layers.len() as int, bottom);
            let order = positions(al, layer.len());
            steps_back(
                adjacent(lists, layer, !bottom)[al[t][i] as int],
                at,
                t,
                order,
                if t == 0 {
                    Seq::empty()
                } else {
                    al[t - 1]
                },
            )
        }),
{
    let al = layers_from(layers, bottom, right);
    let n = layers.len() as int;
    let at = row_numbers(layer, n, bottom);
    let order = positions(al, layer.len());
    lemma_turned(layers, layer, bottom, right);
    lemma_number_all(Seq::new(layer.len(), |i: int| 0usize), al, at, n);
    let v = al[t][i];
    assert(v < at.len() && at[v as int] == t);
    assert(below(lists[v as int], layer.len() as int));
    let ns = adjacent(lists, layer, !bottom)[v as int];
    lemma_beside(
        lists[v as int],
        layer,
        layer[v as int] as int,
        !bottom,
        lists[v as int].len() as int,
    );
    let prev = if t == 0 {
        Seq::empty()
    } else {
        al[t - 1]
    };
    assert forall|x: int| 0 <= x < ns.len() implies (#[trigger] ns[x]) < at.len() && at[ns[x] as int]
        == t - 1 && order[ns[x] as int] < prev.len() && prev[order[ns[x] as int] as int] == ns[x] by {
        let w = ns[x];
        assert(w < layer.len());
        assert(at[w as int] == t - 1);
        assert(al[at[w as int]].contains(w as int as usize));
        let before = al[t - 1];
        let j = choose|j: int| 0 <= j < before.len() && before[j] == w;
        assert(al[t - 1][j] == w);
    }
}

proof fn lemma_rows_at(
    layers: Seq<Seq<usize>>,
    layer: Seq<usize>,
    lists: Seq<Seq<usize>>,
    bottom: bool,
    right: bool,
)
    requires
        rows_of(layers, layer),
        layer.len() <= usize::MAX,
        lists.len() == layer.len(),
        all_below(lists, layer.len() as int),
    ensures
        ({
            let al = layers_from(layers, bottom, right);
            rows_at(
                al,
                adjacent(lists, layer, !bottom),
                row_numbers(layer, layers.len() as int, bottom),
                positions(al, layer.len()),
            )
        }),
{
    let al = layers_from(layers, bottom, right);
    let nbrs = adjacent(lists, layer, !bottom);
    let at = row_numbers(layer, layers.len() as int, bottom);
    let order = positions(al, layer.len());
    lemma_turned(layers, layer, bottom, right);
    assert forall|t: int| 0 <= t < al.len() implies row_at(
        #[trigger] al[t],
        nbrs,
        at,
        t,
        order,
        if t == 0 {
            Seq::empty()
        } else {
            al[t - 1]
        },
    ) && forall|u: int|
        0 <= u < at.len() && #[trigger] at[u] == t ==> exists|i: int|
            0 <= i < al[t].len() && al[t][i] == u by {
        assert forall|i: int| 0 <= i < al[t].len() implies (#[trigger] al[t][i]) < at.len()
            && at[al[t][i] as int] == t && steps_back(
            nbrs[al[t][i] as int],
            at,
            t,
            order,
            if t == 0 {
                Seq::empty()
            } else {
                al[t - 1]
            },
        ) by {
            lemma_steps_back(layers, layer, lists, bottom, right, t, i);
        }
        assert forall|u: int| 0 <= u < at.len() && #[trigger] at[u] == t implies exists|i: int|
            0 <= i < al[t].len() && al[t][i] == u by {
            assert(al[at[u]].contains(u as usize));
            let i = choose|i: int| 0 <= i < al[t].len() && al[t][i] == u as usize;
            assert(al[t][i] == u);
        }
    }
}

/// Where blocks are pushed together, the rows of turned layers stay apart.
proof fn lemma_compacted_row(
    b: Breadths,
    layers: Seq<Seq<usize>>,
    layer: Seq<usize>,
    lists: Seq<Seq<usize>>,
    barred: Seq<(usize, usize)>,
    bottom: bool,
    right: bool,
    t: int,
)
    requires
        breadths_fit(b),
        !b.clustered,
        b.sizes@.len() == layer.len(),
        forall|v: int| 0 <= v < b.sizes@.len() ==> 0 <= #[trigger] b.sizes@[v],
        rows_of(layers, layer),
        layer.len() <= usize::MAX,
        lists.len() == layer.len(),
        all_below(lists, layer.len() as int),
        0 <= t < layers.len(),
    ensures
        ({
            let al = layers_from(layers, bottom, right);
            let root = align_layers(
                layer.len(),
                al,
                adjacent(lists, layer, !bottom),
                positions(al, layer.len()),
                barred,
                al.len() as int,
            ).root;
            compacted(b, root, al).len() == layer.len() && spaced(
                b,
                compacted(b, root, al),
                al[t],
            )
        }),
{
    let nbrs = adjacent(lists, layer, !bottom);
    let al = layers_from(layers, bottom, right);
    let n = layers.len() as int;
    let at = row_numbers(layer, n, bottom);
    let order = positions(al, layer.len());
    lemma_turned(layers, layer, bottom, right);
    lemma_rows_at(layers, layer, lists, bottom, right);
    let f = law_blocks_do_not_cross(al, nbrs, order, barred, at, n);
    let root = align_layers(layer.len(), al, nbrs, order, barred, n).root;
    assert forall|v: int| 0 <= v < root.len() implies (#[trigger] root[v]) < root.len() by {
        assert(at[v] < n);
    }
    let xs = compacted(b, root, al);
    let row = al[t];
    assert forall|i: int| 0 <= i < row.len() - 1 implies #[trigger] stepped(b, xs, row, i) by {
        law_compaction_keeps_neighbours_apart(b, root, al, f, t, i);
    }
    assert(below(al[t], layer.len() as int));
    lemma_spaced(b, xs, row);
}

/// Reading a row from the other side mirrors it.
proof fn lemma_mirrored(b: Breadths, xs: Seq<int>, row: Seq<usize>, right: bool)
    requires
        spaced(b, xs, row_from(row, right)),
        below(row, xs.len() as int),
    ensures
        spaced(b, mirrored(xs, right), row),
{
    let ys = mirrored(xs, right);
    let turned = row_from(row, right);
    assert forall|i: int, j: int| 0 <= i < j < row.len() implies ys[(#[trigger] row[i]) as int]
        + clear(b, row[i] as int, row[j] as int) <= ys[(#[trigger] row[j]) as int] by {
        assert(row[i] < xs.len() && row[j] < xs.len());
        if right {
            let p = row.len() - 1 - j;
            let q = row.len() - 1 - i;
            assert(turned[p] == row[j] && turned[q] == row[i]);
        } else {
            assert(turned[i] == row[i] && turned[j] == row[j]);
        }
    }
}

/// Every assignment keeps the nodes of a layer apart.
proof fn lemma_candidate(
    b: Breadths,
    layers: Seq<Seq<usize>>,
    layer: Seq<usize>,
    lists: Seq<Seq<usize>>,
    barred: Seq<(usize, usize)>,
    bottom: bool,
    right: bool,
    l: int,
)
    requires
        breadths_fit(b),
        !b.clustered,
        b.sizes@.len() == layer.len(),
        forall|v: int| 0 <= v < b.sizes@.len() ==> 0 <= #[trigger] b.sizes@[v],
        rows_of(layers, layer),
        layer.len() <= usize::MAX,
        lists.len() == layer.len(),
        all_below(lists, layer.len() as int),
        0 <= l < layers.len(),
    ensures
        candidate(b, layers, adjacent(lists, layer, !bottom), barred, bottom, right).len()
            == layer.len(),
        spaced(
            b,
            candidate(b, layers, adjacent(lists, layer, !bottom), barred, bottom, right),
            layers[l],
        ),
{
    reveal(candidate);
    let nbrs = adjacent(lists, layer, !bottom);
    let al = layers_from(layers, bottom, right);
    let n = layers.len() as int;
    let t = if bottom {
        n - 1 - l
    } else {
        l
    };
    lemma_compacted_row(b, layers, layer, lists, barred, bottom, right, t);
    let root = align_layers(
        layer.len(),
        al,
        nbrs,
        positions(al, layer.len()),
        barred,
        al.len() as int,
    ).root;
    let xs = compacted(b, root, al);
    let own = layers[l];
    assert(al[t] == row_from(own, right));
    assert forall|i: int| 0 <= i < own.len() implies (#[trigger] own[i]) < xs.len() by {
        assert(layers[l][i] < layer.len());
    }
    lemma_mirrored(b, xs, own, right);
}

/// The sum of the two middle ones of four numbers.
#[verifier::opaque]
spec fn inner(a: int, b: int, c: int, d: int) -> int {
    a + b + c + d - least(least(a, b), least(c, d)) - most(most(a, b), most(c, d))
}

proof fn lemma_inner_rises(a: int, b: int, c: int, d: int, p: int)
    requires
        a <= p,
    ensures
        inner(a, b, c, d) <= inner(p, b, c, d),
{
    reveal(inner);
}

proof fn lemma_inner_swaps(a: int, b: int, c: int, d: int)
    ensures
        inner(b, a, c, d) == inner(a, b, c, d),
        inner(c, b, a, d) == inner(a, b, c, d),
        inner(d, b, c, a) == inner(a, b, c, d),
{
    reveal(inner);
}

proof fn lemma_inner_moves(a: int, b: int, c: int, d: int, by: int)
    ensures
        inner(a + by, b + by, c + by, d + by) == inner(a, b, c, d) + 2 * by,
        middle(a, b, c, d) == inner(a, b, c, d) / 2,
{
    reveal(inner);
}

/// The middle of four moves at least as far as all of them.
proof fn lemma_middle(
    a: int,
    b: int,
    c: int,
    d: int,
    p: int,
    q: int,
    r: int,
    s: int,
    by: int,
)
    requires
        a + by <= p,
        b + by <= q,
        c + by <= r,
        d + by <= s,
    ensures
        middle(a, b, c, d) + by <= middle(p, q, r, s),
{
    let (x, y, z, w) = (a + by, b + by, c + by, d + by);
    lemma_inner_moves(a, b, c, d, by);
    lemma_inner_moves(p, q, r, s, 0);
    lemma_inner_rises(x, y, z, w, p);
    lemma_inner_swaps(p, y, z, w);
    lemma_inner_rises(y, p, z, w, q);
    lemma_inner_swaps(p, q, z, w);
    lemma_inner_rises(z, q, p, w, r);
    lemma_inner_swaps(p, q, r, w);
    lemma_inner_rises(w, q, r, p, s);
    lemma_inner_swaps(p, q, r, s);
}

/// The place of every node keeps the nodes of a layer apart.
proof fn lemma_coordinates(g: Layers, layers: Seq<Seq<usize>>, b: Breadths, l: int)
    requires
        breadths_fit(b),
        !b.clustered,
        b.sizes@.len() == g.layer@.len(),
        forall|v: int| 0 <= v < b.sizes@.len() ==> 0 <= #[trigger] b.sizes@[v],
        rows_of(layers, g.layer@),
        g.layer@.len() <= usize::MAX,
        g.preds@.len() == g.layer@.len(),
        g.succs@.len() == g.layer@.len(),
        all_below(rows(g.preds@), g.layer@.len() as int),
        all_below(rows(g.succs@), g.layer@.len() as int),
        0 <= l < layers.len(),
    ensures
        coordinates(g, layers, b).len() == g.layer@.len(),
        spaced(b, coordinates(g, layers, b), layers[l]),
{
    let up = adjacent(rows(g.preds@), g.layer@, true);
    let barred = conflicts(
        layers,
        up,
        positions(layers, g.layer@.len()),
        b.n as int,
        layers.len() as int,
    );
    assert(rows(g.preds@).len() == g.layer@.len() && rows(g.succs@).len() == g.layer@.len());
    lemma_candidate(b, layers, g.layer@, rows(g.preds@), barred, false, false, l);
    lemma_candidate(b, layers, g.layer@, rows(g.preds@), barred, false, true, l);
    lemma_candidate(b, layers, g.layer@, rows(g.succs@), barred, true, false, l);
    lemma_candidate(b, layers, g.layer@, rows(g.succs@), barred, true, true, l);
    let c = candidates(g, layers, b);
    let n = b.n as int;
    let a = narrowest(c, b.sizes@, n, 4);
    assert(spaced(b, c[0], layers[l]) && spaced(b, c[1], layers[l]));
    assert(spaced(b, c[2], layers[l]) && spaced(b, c[3], layers[l]));
    lemma_aligned(b, c, layers[l], n, a, 0, g.layer@.len());
    lemma_aligned(b, c, layers[l], n, a, 1, g.layer@.len());
    lemma_aligned(b, c, layers[l], n, a, 2, g.layer@.len());
    lemma_aligned(b, c, layers[l], n, a, 3, g.layer@.len());
    let (p, q, r, s) = (
        aligned(c, b.sizes@, n, a, 0),
        aligned(c, b.sizes@, n, a, 1),
        aligned(c, b.sizes@, n, a, 2),
        aligned(c, b.sizes@, n, a, 3),
    );
    let xs = blended(p, q, r, s);
    let row = layers[l];
    assert forall|i: int, j: int| 0 <= i < j < row.len() implies xs[(#[trigger] row[i]) as int]
        + clear(b, row[i] as int, row[j] as int) <= xs[(#[trigger] row[j]) as int] by {
        let u = layers[l][i] as int;
        let v = layers[l][j] as int;
        assert(u < g.layer@.len() && v < g.layer@.len());
        lemma_middle(p[u], q[u], r[u], s[u], p[v], q[v], r[v], s[v], clear(b, u, v));
    }
}

proof fn lemma_aligned(
    b: Breadths,
    c: Seq<Seq<int>>,
    row: Seq<usize>,
    n: int,
    a: int,
    i: int,
    m: nat,
)
    requires
        spaced(b, c[i], row),
        c[i].len() == m,
        below(row, m as int),
    ensures
        spaced(b, aligned(c, b.sizes@, n, a, i), row),
        aligned(c, b.sizes@, n, a, i).len() == m,
{
    let xs = aligned(c, b.sizes@, n, a, i);
    assert forall|x: int, y: int| 0 <= x < y < row.len() implies xs[(#[trigger] row[x]) as int]
        + clear(b, row[x] as int, row[y] as int) <= xs[(#[trigger] row[y]) as int] by {
        assert(row[x] < m && row[y] < m);
        assert(c[i][row[x] as int] + clear(b, row[x] as int, row[y] as int) <= c[i][row[y] as int]);
    }
}

/// Whether breadths are in range, and none is negative.
spec fn broad(b: Seq<Px>) -> bool {
    forall|v: int| 0 <= v < b.len() ==> 0 <= (#[trigger] b[v]) <= FAR
}

proof fn lemma_chain_rooms(b: Seq<Px>, chain: Seq<usize>, k: int)
    requires
        broad(b),
        below(chain, b.len() as int),
        0 <= k <= chain.len(),
    ensures
        broad(chain_rooms(b, chain, k)),
        chain_rooms(b, chain, k).len() == b.len(),
    decreases k,
{
    if k > 0 {
        lemma_chain_rooms(b, chain, k - 1);
        assert(chain[k - 1] < b.len());
    }
}

proof fn lemma_all_rooms(
    r: Rooms,
    chains: Seq<Seq<usize>>,
    edges: Seq<Edge>,
    across: bool,
    k: int,
)
    requires
        broad(r.b),
        all_below(chains, r.b.len() as int),
        chains.len() == edges.len(),
        0 <= k <= edges.len(),
    ensures
        broad(all_rooms(r, chains, edges, across, k).b),
        all_rooms(r, chains, edges, across, k).b.len() == r.b.len(),
    decreases k,
{
    if k > 0 {
        lemma_all_rooms(r, chains, edges, across, k - 1);
        let before = all_rooms(r, chains, edges, across, k - 1);
        let chain = chains[k - 1];
        assert(below(chain, r.b.len() as int));
        lemma_chain_rooms(before.b, chain, chain.len() as int);
        if chain.len() > 0 {
            assert(chain[chain.len() as int / 2] < r.b.len());
        }
        let after = edge_rooms(before, chain, opt_text(edges[k - 1].label), across);
        assert(broad(after.b));
    }
}

proof fn lemma_reach(xs: Seq<int>, sizes: Seq<Px>, k: int, v: int)
    requires
        0 <= v < k,
    ensures
        low(xs, sizes, k) <= xs[v] - sizes[v] as int / 2,
        xs[v] + sizes[v] as int / 2 <= high(xs, sizes, k),
    decreases k,
{
    if v < k - 1 {
        lemma_reach(xs, sizes, k - 1, v);
    }
}

/// Two nodes of one layer stand apart: there is at least the gap that nodes
/// keep between them.
pub proof fn law_nodes_of_a_layer_keep_apart(
    g: Graph,
    sizes: Seq<(Px, Px)>,
    r: LayoutResult,
    i: int,
    j: int,
)
    requires
        is_layered(g, sizes, None, r),
        in_graph(edge_ends(g.edges@), g.nodes@.len() as int),
        sizes.len() == g.nodes@.len(),
        forall|v: int|
            0 <= v < sizes.len() ==> 0 <= (#[trigger] sizes[v]).0 && 0 <= sizes[v].1,
        0 <= i < r.nodes@.len(),
        0 <= j < r.nodes@.len(),
        i != j,
        r.nodes@[i].layer == r.nodes@[j].layer,
        r.total_b < FAR,
    ensures
        ({
            let a = r.nodes@[i];
            let b = r.nodes@[j];
            let far = if a.b < b.b {
                b.b - a.b
            } else {
                a.b - b.b
            };
            &&& a.bsize as int / 2 + GAP_B + b.bsize as int / 2 <= far
            &&& a.bsize + b.bsize <= 2 * far
        }),
{
    let (p, b) = choose|p: Plan, b: Breadths|
        {
            &&& is_plan(edge_ends(g.edges@), hidden(g.edges@), g.nodes@.len(), None, p)
            &&& #[trigger] is_drawn(g, sizes, None, p, b, r)
        };
    let n = g.nodes@.len() as int;
    let m = p.graph.layer@.len() as int;
    let layers = rows(p.layers@);
    let room = rooms(g, sizes, None, p);
    lemma_plain_plan(edge_ends(g.edges@), hidden(g.edges@), g.nodes@.len(), p);
    assert(p.graph.layer.len() == m);
    lemma_rows_of(p.graph@);
    let across = sideways(g.direction);
    let own = own_rooms(sizes, across, m as nat);
    assert(broad(own.b));
    assert(rows(p.chains@).len() == g.edges@.len());
    lemma_all_rooms(own, rows(p.chains@), g.edges@, across, g.edges@.len() as int);
    assert(broad(room.b) && room.b.len() == m);
    assert(b.sizes@ == room.b);
    assert forall|v: int| 0 <= v < b.sizes@.len() implies bounded(
        (#[trigger] b.sizes@[v]) as int,
    ) && 0 <= b.sizes@[v] by {
        assert(0 <= room.b[v] <= FAR);
    }
    let l = p.graph.layer@[i] as int;
    assert(r.nodes@[i].layer == l && r.nodes@[j].layer == l) by {
        assert(crate::layout::engine::is_placed(r.nodes@[i], p, spread(p, b), room, i));
        assert(crate::layout::engine::is_placed(r.nodes@[j], p, spread(p, b), room, j));
    }
    assert(p.graph.layer@[j] == l);
    lemma_coordinates(p.graph, layers, b, l);
    let xs = coordinates(p.graph, layers, b);
    let row = layers[l];
    assert(row.contains(i as usize) && row.contains(j as usize));
    let x = choose|x: int| 0 <= x < row.len() && row[x] == i as usize;
    let y = choose|y: int| 0 <= y < row.len() && row[y] == j as usize;
    if x < y {
        assert(xs[row[x] as int] + clear(b, i, j) <= xs[row[y] as int]);
    } else {
        assert(xs[row[y] as int] + clear(b, j, i) <= xs[row[x] as int]);
    }
    lemma_reach(xs, room.b, n, i);
    lemma_reach(xs, room.b, n, j);
    let by = MARGIN - low(xs, room.b, n);
    assert(0 <= room.b[i] && 0 <= room.b[j]);
    assert(spread(p, b)[i] == bound(xs[i] + by) && spread(p, b)[j] == bound(xs[j] + by));
    assert(bound(xs[i] + by) == xs[i] + by);
    assert(bound(xs[j] + by) == xs[j] + by);
}

} // verus!
