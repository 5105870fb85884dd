//! The layered plan of a graph: everything about its layout that does not
//! depend on the sizes of its nodes.

use vstd::prelude::*;

use crate::layout::chains::{
    add_edge, bare_layers, build_chains, law_chain_is_unbroken, law_links_lead_down, leads_down,
    lemma_string, lists, with_edges, Aug, Augmented,
};
use crate::layout::clusters::{
    add_brick, add_walls, all_paths, all_sides, build_paths, build_sides, build_walls,
    collect_spans, law_spans_cover_members, note, note_path, span_views, spans, wall_views,
    with_walls, Span, Wall, WallSide,
};
use crate::layout::cycles::{back_edges, closes_cycles, in_graph};
use crate::layout::layers::{assign_layers, kept, layered};
use crate::layout::minimise::{best_order, lemma_depth};
use crate::layout::order_laws::law_ordering_keeps_layers;
use crate::layout::ordering::{all_below, below, fits, rows, Layers};
use crate::peel::{indices, pair_ints};

verus! {

/// Whether all layers are below `m`.
pub open spec fn shallow(a: Aug, m: int) -> bool {
    forall|i: int| 0 <= i < a.layer.len() ==> 0 <= #[trigger] a.layer[i] < m
}

/// Whether all numbers of all lists are below `m`.
pub open spec fn lists_below(s: Seq<Seq<int>>, m: int) -> bool {
    forall|i: int, j: int|
        #![trigger s[i][j]]
        0 <= i < s.len() && 0 <= j < s[i].len() ==> 0 <= s[i][j] < m
}

proof fn lemma_add_edge_shallow(a: Aug, from: int, to: int, direct: bool, m: int)
    requires
        leads_down(a),
        shallow(a, m),
        0 <= from < a.layer.len(),
        0 <= to < a.layer.len(),
    ensures
        shallow(add_edge(a, from, to, direct).0, m),
        add_edge(a, from, to, direct).0.layer.len() >= a.layer.len(),
{
    let ascending = a.layer[from] <= a.layer[to];
    let (lo, hi) = if ascending {
        (from, to)
    } else {
        (to, from)
    };
    let (llo, lhi) = (a.layer[lo], a.layer[hi]);
    if from != to && llo + 1 < lhi && !direct {
        lemma_string(a, lo, llo + 1, lhi);
        let b = add_edge(a, from, to, direct).0;
        assert forall|i: int| 0 <= i < b.layer.len() implies 0 <= #[trigger] b.layer[i] < m by {
            if i < a.layer.len() {
                assert(b.layer[i] == a.layer[i]);
            }
        }
    }
}

proof fn lemma_with_edges(layer: Seq<int>, ends: Seq<(int, int)>, direct: Seq<bool>, k: int, m: int)
    requires
        0 <= k <= ends.len(),
        in_graph(ends, layer.len() as int),
        forall|i: int| 0 <= i < layer.len() ==> 0 <= #[trigger] layer[i] < m,
    ensures
        ({
            let (a, chains) = with_edges(bare_layers(layer), ends, direct, k);
            &&& shallow(a, m)
            &&& chains.len() == k
            &&& lists_below(chains, a.layer.len() as int)
        }),
    decreases k,
{
    if k > 0 {
        lemma_with_edges(layer, ends, direct, k - 1, m);
        law_links_lead_down(layer, ends, direct, k - 1);
        let (b, before) = with_edges(bare_layers(layer), ends, direct, k - 1);
        let (from, to) = ends[k - 1];
        lemma_add_edge_shallow(b, from, to, direct[k - 1], m);
        law_chain_is_unbroken(b, from, to, direct[k - 1]);
        let (a, chains) = with_edges(bare_layers(layer), ends, direct, k);
        let chain = add_edge(b, from, to, direct[k - 1]).1;
        assert(chains == before.push(chain));
        assert forall|i: int, j: int|
            #![trigger chains[i][j]]
            0 <= i < chains.len() && 0 <= j < chains[i].len() implies 0 <= chains[i][j]
            < a.layer.len() by {
            if i < before.len() {
                assert(chains[i][j] == before[i][j]);
            } else {
                assert(chains[i][j] == chain[j]);
            }
        }
    }
}

proof fn lemma_note_bound(s: Seq<Span>, id: int, path: Seq<int>, l: int, m: int)
    requires
        forall|i: int| 0 <= i < s.len() ==> (#[trigger] s[i]).hi < m,
        l < m,
    ensures
        forall|i: int|
            0 <= i < note(s, id, path, l).len() ==> (#[trigger] note(s, id, path, l)[i]).hi < m,
    decreases s.len(),
{
    let t = note(s, id, path, l);
    if s.len() == 0 || s.last().id < id {
        assert forall|i: int| 0 <= i < t.len() implies (#[trigger] t[i]).hi < m by {
            if i < s.len() {
                assert(t[i] == s[i]);
            }
        }
    } else {
        assert(s[s.len() - 1].hi < m);
        let h = s.drop_last();
        assert forall|i: int| 0 <= i < h.len() implies (#[trigger] h[i]).hi < m by {
            assert(s[i].hi < m);
        }
        if s.last().id == id {
            assert forall|i: int| 0 <= i < t.len() implies (#[trigger] t[i]).hi < m by {
                if i < h.len() {
                    assert(t[i] == h[i]);
                }
            }
        } else {
            lemma_note_bound(h, id, path, l, m);
            let u = note(h, id, path, l);
            assert forall|i: int| 0 <= i < t.len() implies (#[trigger] t[i]).hi < m by {
                if i < u.len() {
                    assert(t[i] == u[i]);
                }
            }
        }
    }
}

proof fn lemma_note_path_bound(s: Seq<Span>, path: Seq<int>, l: int, k: int, m: int)
    requires
        forall|i: int| 0 <= i < s.len() ==> (#[trigger] s[i]).hi < m,
        l < m,
    ensures
        forall|i: int|
            0 <= i < note_path(s, path, l, k).len() ==> (#[trigger] note_path(s, path, l, k)[i]).hi
                < m,
    decreases k,
{
    if k > 0 {
        lemma_note_path_bound(s, path, l, k - 1, m);
        lemma_note_bound(note_path(s, path, l, k - 1), path[k - 1], path.take(k), l, m);
    }
}

proof fn lemma_spans_bound(paths: Seq<Seq<int>>, layer: Seq<int>, k: int, m: int)
    requires
        0 <= k <= paths.len(),
        paths.len() <= layer.len(),
        forall|i: int| 0 <= i < layer.len() ==> #[trigger] layer[i] < m,
    ensures
        forall|i: int|
            0 <= i < spans(paths, layer, k).len() ==> (#[trigger] spans(paths, layer, k)[i]).hi < m,
    decreases k,
{
    if k > 0 {
        lemma_spans_bound(paths, layer, k - 1, m);
        lemma_note_path_bound(
            spans(paths, layer, k - 1),
            paths[k - 1],
            layer[k - 1],
            paths[k - 1].len() as int,
            m,
        );
    }
}

proof fn lemma_add_walls(
    a: Aug,
    path: Seq<int>,
    l: int,
    hi: int,
    above: Option<(int, int)>,
    m: int,
)
    requires
        shallow(a, m),
        0 <= l,
        hi < m,
    ensures
        ({
            let (b, walls) = add_walls(a, path, l, hi, above);
            &&& shallow(b, m)
            &&& b.layer.len() >= a.layer.len()
            &&& forall|i: int|
                0 <= i < walls.len() ==> 0 <= (#[trigger] walls[i]).node < b.layer.len()
        }),
    decreases hi - l + 1,
{
    if l <= hi {
        let d = a.layer.len() as int;
        let (up_left, up_right) = match above {
            Some((x, y)) => (Some(x), Some(y)),
            None => (None, None),
        };
        let c = add_brick(a, l, up_left);
        let b = add_brick(c, l, up_right);
        assert(c.layer =~= a.layer.push(l));
        assert(b.layer =~= c.layer.push(l));
        assert(shallow(b, m)) by {
            assert forall|i: int| 0 <= i < b.layer.len() implies 0 <= #[trigger] b.layer[i] < m by {
                if i < a.layer.len() {
                    assert(b.layer[i] == a.layer[i]);
                }
            }
        }
        lemma_add_walls(b, path, l + 1, hi, Some((d, d + 1)), m);
        let (e, more) = add_walls(b, path, l + 1, hi, Some((d, d + 1)));
        let walls = add_walls(a, path, l, hi, above).1;
        assert forall|i: int| 0 <= i < walls.len() implies 0 <= (#[trigger] walls[i]).node
            < e.layer.len() by {
            if i >= 2 {
                assert(walls[i] == more[i - 2]);
            }
        }
    }
}

proof fn lemma_with_walls(a: Aug, s: Seq<Span>, k: int, m: int)
    requires
        shallow(a, m),
        0 <= k <= s.len(),
        forall|i: int| 0 <= i < s.len() ==> 0 <= (#[trigger] s[i]).lo && s[i].hi < m,
    ensures
        ({
            let (b, walls) = with_walls(a, s, k);
            &&& shallow(b, m)
            &&& b.layer.len() >= a.layer.len()
            &&& forall|i: int|
                0 <= i < walls.len() ==> 0 <= (#[trigger] walls[i]).node < b.layer.len()
        }),
    decreases k,
{
    if k > 0 {
        lemma_with_walls(a, s, k - 1, m);
        let (b, before) = with_walls(a, s, k - 1);
        assert(0 <= s[k - 1].lo);
        lemma_add_walls(b, s[k - 1].path, s[k - 1].lo, s[k - 1].hi, None, m);
        let (c, more) = add_walls(b, s[k - 1].path, s[k - 1].lo, s[k - 1].hi, None);
        let walls = with_walls(a, s, k).1;
        assert forall|i: int| 0 <= i < walls.len() implies 0 <= (#[trigger] walls[i]).node
            < c.layer.len() by {
            if i < before.len() {
                assert(walls[i] == before[i]);
            } else {
                assert(walls[i] == more[i - before.len()]);
            }
        }
    }
}

/// The edges that get no channel of their own: invisible ones, and those
/// that close cycles.
pub open spec fn direct_edges(invisible: Seq<bool>, back: Seq<bool>) -> Seq<bool> {
    Seq::new(back.len(), |i: int| invisible[i] || back[i])
}

/// The plan of a graph.
#[derive(Debug)]
pub struct Plan {
    /// The edges that close cycles.
    pub back: Vec<bool>,
    /// The layered graph, with stand-ins and walls.
    pub graph: Layers,
    /// The stand-ins of each edge, in its direction.
    pub chains: Vec<Vec<usize>>,
    /// The order of the nodes within their layers.
    pub layers: Vec<Vec<usize>>,
}

/// The layered graph of a plan over whole numbers.
pub open spec fn plan_aug(p: Plan) -> Aug {
    Aug {
        layer: indices(p.graph.layer@),
        preds: lists(p.graph.preds@),
        succs: lists(p.graph.succs@),
    }
}

/// Whether `p` is the plan of the graph over the layering `layer` of its
/// `n` nodes. `paths` are the subgraphs of the nodes, where there are any.
pub open spec fn plan_over(
    ends: Seq<(int, int)>,
    invisible: Seq<bool>,
    paths: Option<Seq<Seq<int>>>,
    layer: Seq<int>,
    p: Plan,
) -> bool {
    let (a, chains) = with_edges(
        bare_layers(layer),
        ends,
        direct_edges(invisible, p.back@),
        ends.len() as int,
    );
    &&& lists(p.chains@) == chains
    &&& match paths {
        None => plan_aug(p) == a && !p.graph.clustered,
        Some(own) => {
            let s = spans(own, a.layer, own.len() as int);
            let (b, walls) = with_walls(a, s, s.len() as int);
            &&& plan_aug(p) == b
            &&& p.graph.clustered
            &&& lists(p.graph.paths@) == all_paths(own, s, b.layer, ends, chains, walls)
            &&& p.graph.sides@ == all_sides(b.layer.len(), walls)
        },
    }
    &&& rows(p.layers@) == best_order(p.graph@)
}

/// Whether `p` is a plan of the graph.
pub open spec fn is_plan(
    ends: Seq<(int, int)>,
    invisible: Seq<bool>,
    n: nat,
    paths: Option<Seq<Seq<int>>>,
    p: Plan,
) -> bool {
    &&& closes_cycles(ends, n, p.back@)
    &&& exists|layer: Seq<int>|
        {
            &&& layer.len() == n
            &&& #[trigger] layered(kept(ends, p.back@, ends.len() as int), layer)
            &&& plan_over(ends, invisible, paths, layer, p)
        }
}

proof fn lemma_graph_fits(a: Augmented)
    requires
        leads_down(a@),
    ensures
        a.preds@.len() == a.layer@.len(),
        a.succs@.len() == a.layer@.len(),
        all_below(rows(a.preds@), a.layer@.len() as int),
        all_below(rows(a.succs@), a.layer@.len() as int),
{
    let n = a.layer@.len() as int;
    assert forall|u: int| 0 <= u < n implies below(#[trigger] rows(a.preds@)[u], n) by {
        assert forall|i: int| 0 <= i < a.preds@[u]@.len() implies (#[trigger] a.preds@[u]@[i]) < n by {
            assert(a@.preds[u][i] == a.preds@[u]@[i]);
        }
    }
    assert forall|u: int| 0 <= u < n implies below(#[trigger] rows(a.succs@)[u], n) by {
        assert forall|i: int| 0 <= i < a.succs@[u]@.len() implies (#[trigger] a.succs@[u]@[i]) < n by {
            assert(a@.succs[u][i] == a.succs@[u]@[i]);
        }
    }
}

/// What a plan without subgraphs consists of is in range.
pub proof fn lemma_plain_plan(
    ends: Seq<(int, int)>,
    invisible: Seq<bool>,
    n: nat,
    p: Plan,
)
    requires
        is_plan(ends, invisible, n, None, p),
        in_graph(ends, n as int),
    ensures
        !p.graph.clustered,
        n <= p.graph.layer@.len(),
        p.graph.preds@.len() == p.graph.layer@.len(),
        p.graph.succs@.len() == p.graph.layer@.len(),
        all_below(rows(p.graph.preds@), p.graph.layer@.len() as int),
        all_below(rows(p.graph.succs@), p.graph.layer@.len() as int),
        p.chains@.len() == ends.len(),
        all_below(rows(p.chains@), p.graph.layer@.len() as int),
        rows(p.layers@) == best_order(p.graph@),
{
    let layer = choose|layer: Seq<int>|
        {
            &&& layer.len() == n
            &&& #[trigger] layered(kept(ends, p.back@, ends.len() as int), layer)
            &&& plan_over(ends, invisible, None, layer, p)
        };
    let direct = direct_edges(invisible, p.back@);
    let k = ends.len() as int;
    let (a, chains) = with_edges(bare_layers(layer), ends, direct, k);
    law_links_lead_down(layer, ends, direct, k);
    let m = p.graph.layer@.len() as int;
    let b = plan_aug(p);
    assert(a == b);
    assert(b.layer.len() == m && b.preds.len() == p.graph.preds@.len() && b.succs.len()
        == p.graph.succs@.len());
    assert forall|i: int| 0 <= i < layer.len() implies 0 <= #[trigger] layer[i] < usize::MAX + 1 by {
        assert(a.layer[i] == layer[i]);
        assert(b.layer[i] == p.graph.layer@[i]);
    }
    lemma_with_edges(layer, ends, direct, k, usize::MAX + 1);
    assert(lists(p.chains@).len() == p.chains@.len());
    assert forall|u: int| 0 <= u < m implies below(#[trigger] rows(p.graph.preds@)[u], m) by {
        assert forall|i: int| 0 <= i < p.graph.preds@[u]@.len() implies (
        #[trigger] p.graph.preds@[u]@[i]) < m by {
            assert(b.preds[u][i] == p.graph.preds@[u]@[i]);
        }
    }
    assert forall|u: int| 0 <= u < m implies below(#[trigger] rows(p.graph.succs@)[u], m) by {
        assert forall|i: int| 0 <= i < p.graph.succs@[u]@.len() implies (
        #[trigger] p.graph.succs@[u]@[i]) < m by {
            assert(b.succs[u][i] == p.graph.succs@[u]@[i]);
        }
    }
    assert forall|e: int| 0 <= e < rows(p.chains@).len() implies below(
        #[trigger] rows(p.chains@)[e],
        m,
    ) by {
        assert forall|j: int| 0 <= j < p.chains@[e]@.len() implies (#[trigger] p.chains@[e]@[j])
            < m by {
            assert(lists(p.chains@)[e][j] == p.chains@[e]@[j]);
        }
    }
}

fn direct_of(invisible: &Vec<bool>, back: &Vec<bool>) -> (r: Vec<bool>)
    requires
        invisible@.len() == back@.len(),
    ensures
        r@ == direct_edges(invisible@, back@),
{
    let mut r: Vec<bool> = Vec::new();
    let mut i: usize = 0;
    while i < back.len()
        invariant
            i <= back@.len(),
            invisible@.len() == back@.len(),
            r@ == direct_edges(invisible@, back@).take(i as int),
        decreases back@.len() - i,
    {
        r.push(invisible[i] || back[i]);
        assert(r@ =~= direct_edges(invisible@, back@).take(i as int + 1));
        i += 1;
    }
    assert(r@ =~= direct_edges(invisible@, back@));
    r
}

/// What the walls of the subgraphs add to a layered graph.
fn add_clusters(
    a: Augmented,
    own: &Vec<Vec<usize>>,
    ends: &Vec<(usize, usize)>,
    chains: &Vec<Vec<usize>>,
) -> (g: Layers)
    requires
        leads_down(a@),
        own@.len() < usize::MAX,
        shallow(a@, own@.len() as int),
        own@.len() <= a@.layer.len(),
        chains@.len() == ends@.len(),
        in_graph(pair_ints(ends@), own@.len() as int),
        lists_below(lists(chains@), a@.layer.len() as int),
    ensures
        ({
            let ov = lists(own@);
            let s = spans(ov, a@.layer, ov.len() as int);
            let (b, walls) = with_walls(a@, s, s.len() as int);
            &&& indices(g.layer@) == b.layer
            &&& lists(g.preds@) == b.preds
            &&& lists(g.succs@) == b.succs
            &&& g.clustered
            &&& lists(g.paths@) == all_paths(
                ov,
                s,
                b.layer,
                pair_ints(ends@),
                lists(chains@),
                walls,
            )
            &&& g.sides@ == all_sides(b.layer.len(), walls)
        }),
        fits(g@, g@.layer.len() as int),
        below(g@.layer, own@.len() as int),
{
    let ghost n = own@.len() as int;
    let ghost ov = lists(own@);
    let ghost start = a@;
    let mut a = a;
    let s = collect_spans(own, &a.layer);
    let ghost sv = span_views(s@);
    proof {
        law_spans_cover_members(ov, start.layer, n);
        lemma_spans_bound(ov, start.layer, n, n);
        assert forall|i: int| 0 <= i < s@.len() implies (#[trigger] s@[i]).hi < usize::MAX by {
            assert(sv[i] == s@[i]@);
        }
        lemma_with_walls(start, sv, sv.len() as int, n);
    }
    let walls = build_walls(&mut a, &s);
    let ghost wv = wall_views(walls@);
    proof {
        assert forall|i: int| 0 <= i < walls@.len() implies (#[trigger] walls@[i]).node
            < a.layer@.len() by {
            assert(wv[i] == walls@[i]@);
            assert(0 <= with_walls(start, sv, sv.len() as int).1[i].node < a@.layer.len());
        }
        assert forall|i: int, j: int|
            #![trigger chains@[i]@[j]]
            0 <= i < chains@.len() && 0 <= j < chains@[i]@.len() implies chains@[i]@[j]
            < a.layer@.len() by {
            assert(lists(chains@)[i][j] == chains@[i]@[j]);
        }
        assert forall|i: int| 0 <= i < ends@.len() implies (#[trigger] ends@[i]).0 < own@.len()
            && ends@[i].1 < own@.len() by {
            assert(pair_ints(ends@)[i] == (ends@[i].0 as int, ends@[i].1 as int));
        }
        lemma_graph_fits(a);
    }
    let paths = build_paths(own, &s, &a.layer, ends, chains, &walls);
    let sides = build_sides(a.layer.len(), &walls);
    proof {
        lemma_paths_len(
            ov,
            sv,
            a@.layer,
            pair_ints(ends@),
            lists(chains@),
            wv,
        );
        lemma_sides_len(Seq::new(a@.layer.len(), |i: int| WallSide::Inside), wv, wv.len() as int);
        assert forall|i: int| 0 <= i < a.layer@.len() implies (#[trigger] a.layer@[i]) < n by {
            assert(a@.layer[i] < n);
        }
    }
    Layers { preds: a.preds, succs: a.succs, layer: a.layer, clustered: true, paths, sides }
}

proof fn lemma_chain_len(
    paths: Seq<Seq<int>>,
    s: Seq<Span>,
    layer: Seq<int>,
    chain: Seq<int>,
    from: Seq<int>,
    to: Seq<int>,
    j: int,
)
    requires
        j <= chain.len(),
        forall|i: int| 0 <= i < chain.len() ==> 0 <= #[trigger] chain[i] < paths.len(),
    ensures
        crate::layout::clusters::set_chain(paths, s, layer, chain, from, to, j).len()
            == paths.len(),
    decreases j,
{
    if j > 0 {
        lemma_chain_len(paths, s, layer, chain, from, to, j - 1);
        assert(0 <= chain[j - 1] < paths.len());
    }
}

proof fn lemma_chains_len(
    paths: Seq<Seq<int>>,
    s: Seq<Span>,
    layer: Seq<int>,
    own: Seq<Seq<int>>,
    ends: Seq<(int, int)>,
    chains: Seq<Seq<int>>,
    k: int,
)
    requires
        k <= chains.len(),
        lists_below(chains, paths.len() as int),
    ensures
        crate::layout::clusters::set_chains(paths, s, layer, own, ends, chains, k).len()
            == paths.len(),
    decreases k,
{
    if k > 0 {
        lemma_chains_len(paths, s, layer, own, ends, chains, k - 1);
        assert forall|i: int| 0 <= i < chains[k - 1].len() implies 0 <= #[trigger] chains[k - 1][i]
            < paths.len() by {}
        lemma_chain_len(
            crate::layout::clusters::set_chains(paths, s, layer, own, ends, chains, k - 1),
            s,
            layer,
            chains[k - 1],
            own[ends[k - 1].0],
            own[ends[k - 1].1],
            chains[k - 1].len() as int,
        );
    }
}

proof fn lemma_walls_len(paths: Seq<Seq<int>>, walls: Seq<Wall>, k: int)
    requires
        k <= walls.len(),
        forall|i: int| 0 <= i < walls.len() ==> 0 <= (#[trigger] walls[i]).node < paths.len(),
    ensures
        crate::layout::clusters::set_walls(paths, walls, k).len() == paths.len(),
    decreases k,
{
    if k > 0 {
        lemma_walls_len(paths, walls, k - 1);
        assert(0 <= walls[k - 1].node < paths.len());
    }
}

proof fn lemma_paths_len(
    own: Seq<Seq<int>>,
    s: Seq<Span>,
    layer: Seq<int>,
    ends: Seq<(int, int)>,
    chains: Seq<Seq<int>>,
    walls: Seq<Wall>,
)
    requires
        lists_below(chains, layer.len() as int),
        forall|i: int| 0 <= i < walls.len() ==> 0 <= (#[trigger] walls[i]).node < layer.len(),
    ensures
        all_paths(own, s, layer, ends, chains, walls).len() == layer.len(),
{
    let base = crate::layout::clusters::own_paths(own, layer.len());
    lemma_chains_len(base, s, layer, own, ends, chains, chains.len() as int);
    lemma_walls_len(
        crate::layout::clusters::set_chains(
            base,
            s,
            layer,
            own,
            ends,
            chains,
            chains.len() as int,
        ),
        walls,
        walls.len() as int,
    );
}

proof fn lemma_sides_len(sides: Seq<WallSide>, walls: Seq<Wall>, k: int)
    requires
        k <= walls.len(),
        forall|i: int| 0 <= i < walls.len() ==> 0 <= (#[trigger] walls[i]).node < sides.len(),
    ensures
        crate::layout::clusters::set_sides(sides, walls, k).len() == sides.len(),
    decreases k,
{
    if k > 0 {
        lemma_sides_len(sides, walls, k - 1);
        assert(0 <= walls[k - 1].node < sides.len());
    }
}

/// Plan the layout of a graph with `n` nodes. `invisible` are the edges
/// that only rank nodes. Where the nodes belong to subgraphs, `clusters`
/// holds the path of each, outermost id first.
pub fn plan(
    ends: &Vec<(usize, usize)>,
    invisible: &Vec<bool>,
    n: usize,
    clusters: Option<&Vec<Vec<usize>>>,
) -> (p: Plan)
    requires
        in_graph(pair_ints(ends@), n as int),
        invisible@.len() == ends@.len(),
        n < usize::MAX,
        clusters matches Some(c) ==> c@.len() == n,
    ensures
        is_plan(
            pair_ints(ends@),
            invisible@,
            n as nat,
            match clusters {
                Some(c) => Some(lists(c@)),
                None => None,
            },
            p,
        ),
        p.chains@.len() == ends@.len(),
        fits(p.graph@, p.graph@.layer.len() as int),
        all_below(rows(p.layers@), p.graph@.layer.len() as int),
        n <= p.graph@.layer.len(),
        below(p.graph.layer@, p.layers@.len() as int),
        all_below(rows(p.chains@), p.graph@.layer.len() as int),
{
    let ghost ev = pair_ints(ends@);
    let back = back_edges(ends, n);
    let layer = assign_layers(ends, &back, n);
    let ghost lv = indices(layer@);
    let direct = direct_of(invisible, &back);
    proof {
        assert forall|i: int| 0 <= i < ends@.len() implies (#[trigger] ends@[i]).0 < layer@.len()
            && ends@[i].1 < layer@.len() by {
            assert(ev[i] == (ends@[i].0 as int, ends@[i].1 as int));
        }
        lemma_with_edges(lv, ev, direct@, ev.len() as int, n as int);
        law_links_lead_down(lv, ev, direct@, ev.len() as int);
    }
    let (a, chains) = build_chains(&layer, ends, &direct);
    let ghost av = a@;
    let graph = match clusters {
        Some(own) => add_clusters(a, own, ends, &chains),
        None => {
            proof {
                lemma_graph_fits(a);
                assert forall|i: int| 0 <= i < a.layer@.len() implies (#[trigger] a.layer@[i]) < n by {
                    assert(a@.layer[i] < n);
                }
            }
            Layers {
                preds: a.preds,
                succs: a.succs,
                layer: a.layer,
                clustered: false,
                paths: Vec::new(),
                sides: Vec::new(),
            }
        },
    };
    proof {
        assert forall|i: int| 0 <= i < graph.layer@.len() implies (#[trigger] graph.layer@[i])
            < usize::MAX by {}
        if let Some(own) = clusters {
            lemma_spans_bound(lists(own@), av.layer, n as int, n as int);
            law_spans_cover_members(lists(own@), av.layer, n as int);
            let s = spans(lists(own@), av.layer, n as int);
            lemma_with_walls(av, s, s.len() as int, n as int);
        }
    }
    let count: usize = graph.layer.len();
    let layers = graph.order_layers();
    let p = Plan { back, graph, chains, layers };
    proof {
        assert(plan_aug(p) == (Aug {
            layer: indices(graph.layer@),
            preds: lists(graph.preds@),
            succs: lists(graph.succs@),
        }));
        assert(layered(kept(ev, p.back@, ev.len() as int), lv));
        assert(graph@.layer.len() == count);
        assert forall|i: int| 0 <= i < rows(p.chains@).len() implies below(
            #[trigger] rows(p.chains@)[i],
            graph@.layer.len() as int,
        ) by {
            assert forall|j: int| 0 <= j < p.chains@[i]@.len() implies (#[trigger] p.chains@[i]@[j])
                < graph@.layer.len() by {
                assert(lists(p.chains@)[i][j] == p.chains@[i]@[j]);
            }
        }
        law_ordering_keeps_layers(graph@);
        assert forall|i: int| 0 <= i < graph.layer@.len() implies (#[trigger] graph.layer@[i])
            < p.layers@.len() by {
            lemma_depth(graph.layer@, graph.layer@.len() as int, i);
        }
    }
    p
}

} // verus!
