//! The way of an edge leads from its source to its target.

use vstd::prelude::*;

use crate::advance::route::geometry::FAR;
use crate::advance::scene::Px;
use crate::layout::chains::{
    bare_layers, law_chain_is_unbroken, law_links_lead_down, lemma_add_edge, lists,
    with_edges, Aug,
};
use crate::layout::clusters::{add_brick, add_walls, spans, with_walls, Span};
use crate::layout::compact::Breadths;
use crate::layout::cycles::{
    in_graph, law_acyclic_graphs_have_no_back_edges, lemma_marks_per_edge, upwards,
};
use crate::layout::engine::{
    edge_ends, hidden, is_drawn, is_layered, is_placed, layer_top, lemma_tallest_sign,
    lemma_top_sign, level, rooms, spread, tallest, way, LayoutResult, Placed, GAP_L,
};
use crate::layout::layers::{kept, layered};
use crate::layout::ordering::rows;
use crate::layout::plan::{direct_edges, is_plan, plan_aug, plan_over, Plan};
use crate::model::{EdgeKind, Graph};
use crate::peel::indices;

verus! {

proof fn lemma_top_rises(layers: Seq<Seq<usize>>, l: Seq<Px>, i: int, j: int)
    requires
        0 <= i < j,
        layer_top(layers, l, j) < FAR,
    ensures
        layer_top(layers, l, i) + tallest(layers[i], l, layers[i].len() as int) + GAP_L
            <= layer_top(layers, l, j),
    decreases j,
{
    lemma_tallest_sign(layers[j - 1], l, layers[j - 1].len() as int);
    lemma_top_sign(layers, l, j - 1);
    if i < j - 1 {
        lemma_top_rises(layers, l, i, j - 1);
    }
}

/// A later layer has its middle further along.
proof fn lemma_levels_rise(layers: Seq<Seq<usize>>, l: Seq<Px>, i: int, j: int)
    requires
        0 <= i < j,
        level(layers, l, j) < FAR,
    ensures
        0 <= level(layers, l, i) < level(layers, l, j),
{
    lemma_tallest_sign(layers[j], l, layers[j].len() as int);
    lemma_tallest_sign(layers[i], l, layers[i].len() as int);
    lemma_top_sign(layers, l, i);
    lemma_top_sign(layers, l, j);
    lemma_top_rises(layers, l, i, j);
}

/// The layer of the `i`-th of the points between the layers `f` and `t`.
pub open spec fn step_layer(f: int, t: int, i: int) -> int {
    if f < t {
        f + 1 + i
    } else {
        f - 1 - i
    }
}

/// How many layers lie between two.
pub open spec fn layers_between(f: int, t: int) -> int {
    if f < t {
        t - f - 1
    } else if t < f {
        f - t - 1
    } else {
        0
    }
}

proof fn lemma_chains(layer: Seq<int>, ends: Seq<(int, int)>, direct: Seq<bool>, k: int, e: int)
    requires
        0 <= e < k <= ends.len(),
        forall|i: int|
            0 <= i < ends.len() ==> 0 <= (#[trigger] ends[i]).0 < layer.len() && 0 <= ends[i].1
                < layer.len(),
    ensures
        ({
            let (a, chains) = with_edges(bare_layers(layer), ends, direct, k);
            let (f, t) = (layer[ends[e].0], layer[ends[e].1]);
            &&& chains.len() == k
            &&& chains[e].len() == (if direct[e] {
                0
            } else {
                layers_between(f, t)
            })
            &&& forall|i: int|
                0 <= i < chains[e].len() ==> 0 <= #[trigger] chains[e][i] < a.layer.len()
                    && a.layer[chains[e][i]] == step_layer(f, t, i)
        }),
    decreases k,
{
    let (b, before) = with_edges(bare_layers(layer), ends, direct, k - 1);
    let (from, to) = ends[k - 1];
    law_links_lead_down(layer, ends, direct, k - 1);
    lemma_add_edge(b, from, to, direct[k - 1]);
    assert(b.layer[from] == layer[from] && b.layer[to] == layer[to]);
    lemma_chain_count(layer, ends, direct, k - 1);
    if e < k - 1 {
        lemma_chains(layer, ends, direct, k - 1, e);
        let (a, chains) = with_edges(bare_layers(layer), ends, direct, k);
        assert(chains[e] == before[e]);
        assert forall|i: int| 0 <= i < chains[e].len() implies 0 <= #[trigger] chains[e][i]
            < a.layer.len() && a.layer[chains[e][i]] == step_layer(
            layer[ends[e].0],
            layer[ends[e].1],
            i,
        ) by {
            assert(0 <= before[e][i] < b.layer.len());
            assert(a.layer[before[e][i]] == b.layer[before[e][i]]);
        }
    } else {
        law_chain_is_unbroken(b, from, to, direct[k - 1]);
    }
}

pub proof fn lemma_chain_count(layer: Seq<int>, ends: Seq<(int, int)>, direct: Seq<bool>, k: int)
    requires
        0 <= k,
    ensures
        with_edges(bare_layers(layer), ends, direct, k).1.len() == k,
    decreases k,
{
    if k > 0 {
        lemma_chain_count(layer, ends, direct, k - 1);
    }
}

proof fn lemma_all_kept(ends: Seq<(int, int)>, back: Seq<bool>, k: int)
    requires
        0 <= k <= ends.len(),
        back.len() == ends.len(),
        forall|x: int| 0 <= x < back.len() ==> !#[trigger] back[x],
    ensures
        kept(ends, back, k) == ends.take(k),
    decreases k,
{
    if k > 0 {
        lemma_all_kept(ends, back, k - 1);
        assert(ends.take(k) =~= ends.take(k - 1).push(ends[k - 1]));
    } else {
        assert(ends.take(0) =~= Seq::empty());
    }
}

/// Whether `b` has all nodes of `a`, in their layers.
spec fn keeps_layers(a: Aug, b: Aug) -> bool {
    &&& a.layer.len() <= b.layer.len()
    &&& forall|i: int| 0 <= i < a.layer.len() ==> #[trigger] b.layer[i] == a.layer[i]
}

proof fn lemma_walls_keep(a: Aug, path: Seq<int>, l: int, hi: int, above: Option<(int, int)>)
    ensures
        keeps_layers(a, add_walls(a, path, l, hi, above).0),
    decreases hi - l + 1,
{
    if l <= hi {
        let d = a.layer.len() as int;
        let (up_left, up_right) = match above {
            Some((x, y)) => (Some(x), Some(y)),
            None => (None, None),
        };
        let c = add_brick(a, l, up_left);
        let b = add_brick(c, l, up_right);
        assert(c.layer =~= a.layer.push(l));
        assert(b.layer =~= c.layer.push(l));
        lemma_walls_keep(b, path, l + 1, hi, Some((d, d + 1)));
        let e = add_walls(a, path, l, hi, above).0;
        assert forall|i: int| 0 <= i < a.layer.len() implies #[trigger] e.layer[i] == a.layer[i] by {
            assert(e.layer[i] == b.layer[i]);
        }
    }
}

proof fn lemma_all_walls_keep(a: Aug, s: Seq<Span>, k: int)
    ensures
        keeps_layers(a, with_walls(a, s, k).0),
    decreases k,
{
    if k > 0 {
        lemma_all_walls_keep(a, s, k - 1);
        let b = with_walls(a, s, k - 1).0;
        lemma_walls_keep(b, s[k - 1].path, s[k - 1].lo, s[k - 1].hi, None);
        let c = with_walls(a, s, k).0;
        assert forall|i: int| 0 <= i < a.layer.len() implies #[trigger] c.layer[i] == a.layer[i] by {
            assert(c.layer[i] == b.layer[i]);
        }
    }
}

/// A plan has a place for every node, in the layer that it was given, and
/// stand-ins for every edge.
pub proof fn lemma_plan_layers(
    ends: Seq<(int, int)>,
    invisible: Seq<bool>,
    n: nat,
    paths: Option<Seq<Seq<int>>>,
    p: Plan,
)
    requires
        is_plan(ends, invisible, n, paths, p),
        in_graph(ends, n as int),
    ensures
        n <= p.graph.layer@.len(),
        p.chains@.len() == ends.len(),
{
    let layer = choose|layer: Seq<int>|
        {
            &&& layer.len() == n
            &&& #[trigger] layered(kept(ends, p.back@, ends.len() as int), layer)
            &&& plan_over(ends, invisible, paths, layer, p)
        };
    let direct = direct_edges(invisible, p.back@);
    let k = ends.len() as int;
    let (a, chains) = with_edges(bare_layers(layer), ends, direct, k);
    law_links_lead_down(layer, ends, direct, k);
    lemma_chain_count(layer, ends, direct, k);
    match paths {
        Some(own) => {
            let s = spans(own, a.layer, own.len() as int);
            lemma_all_walls_keep(a, s, s.len() as int);
        },
        None => {},
    }
    assert(keeps_layers(a, plan_aug(p)));
    assert(plan_aug(p).layer.len() == p.graph.layer@.len());
    assert(lists(p.chains@).len() == p.chains@.len());
}

/// The stand-ins of an edge of a plan lie one in each layer between its
/// ends.
pub proof fn lemma_plan_chain(
    ends: Seq<(int, int)>,
    invisible: Seq<bool>,
    n: nat,
    paths: Option<Seq<Seq<int>>>,
    p: Plan,
    e: int,
)
    requires
        is_plan(ends, invisible, n, paths, p),
        in_graph(ends, n as int),
        0 <= e < ends.len(),
    ensures
        n <= p.graph.layer@.len(),
        p.chains@.len() == ends.len(),
        p.back@.len() == ends.len(),
        p.chains@[e]@.len() == (if invisible[e] || p.back@[e] {
            0
        } else {
            layers_between(
                p.graph.layer@[ends[e].0] as int,
                p.graph.layer@[ends[e].1] as int,
            )
        }),
        (forall|x: int| 0 <= x < p.back@.len() ==> !#[trigger] p.back@[x])
            ==> p.graph.layer@[ends[e].0] < p.graph.layer@[ends[e].1],
        forall|i: int|
            0 <= i < p.chains@[e]@.len() ==> (#[trigger] p.chains@[e]@[i])
                < p.graph.layer@.len() && p.graph.layer@[p.chains@[e]@[i] as int] == step_layer(
                p.graph.layer@[ends[e].0] as int,
                p.graph.layer@[ends[e].1] as int,
                i,
            ),
{
    let layer = choose|layer: Seq<int>|
        {
            &&& layer.len() == n
            &&& #[trigger] layered(kept(ends, p.back@, ends.len() as int), layer)
            &&& plan_over(ends, invisible, paths, layer, p)
        };
    lemma_marks_per_edge(ends, n, p.back@);
    let direct = direct_edges(invisible, p.back@);
    let k = ends.len() as int;
    let (a, chains) = with_edges(bare_layers(layer), ends, direct, k);
    let b = plan_aug(p);
    law_links_lead_down(layer, ends, direct, k);
    lemma_chains(layer, ends, direct, k, e);
    match paths {
        Some(own) => {
            let s = spans(own, a.layer, own.len() as int);
            lemma_all_walls_keep(a, s, s.len() as int);
        },
        None => {},
    }
    assert(keeps_layers(a, b));
    assert(b.layer.len() == p.graph.layer@.len());
    assert forall|v: int| 0 <= v < n implies #[trigger] p.graph.layer@[v] == layer[v] by {
        assert(a.layer[v] == layer[v]);
        assert(b.layer[v] == p.graph.layer@[v]);
    }
    assert(lists(p.chains@).len() == p.chains@.len());
    assert(lists(p.chains@)[e] == indices(p.chains@[e]@));
    assert(0 <= ends[e].0 < n && 0 <= ends[e].1 < n);
    if forall|x: int| 0 <= x < p.back@.len() ==> !#[trigger] p.back@[x] {
        lemma_all_kept(ends, p.back@, k);
        assert(kept(ends, p.back@, k)[e] == ends[e]);
    }
    assert forall|i: int| 0 <= i < p.chains@[e]@.len() implies (#[trigger] p.chains@[e]@[i])
        < p.graph.layer@.len() && p.graph.layer@[p.chains@[e]@[i] as int] == step_layer(
        p.graph.layer@[ends[e].0] as int,
        p.graph.layer@[ends[e].1] as int,
        i,
    ) by {
        assert(chains[e][i] == p.chains@[e]@[i]);
        assert(b.layer[chains[e][i]] == a.layer[chains[e][i]]);
    }
}

/// The positions on the layer axis that an edge has: of its source, of the
/// points that it passes, and of its target.
pub open spec fn stations(a: Placed, path: Seq<(Px, Px)>, b: Placed) -> Seq<int> {
    seq![a.l as int] + path.map_values(|q: (Px, Px)| q.1 as int) + seq![b.l as int]
}

/// Whether the numbers strictly increase.
pub open spec fn rises(s: Seq<int>) -> bool {
    forall|i: int, j: int| 0 <= i < j < s.len() ==> #[trigger] s[i] < #[trigger] s[j]
}

/// Whether the numbers strictly decrease.
pub open spec fn falls(s: Seq<int>) -> bool {
    forall|i: int, j: int| 0 <= i < j < s.len() ==> #[trigger] s[i] > #[trigger] s[j]
}

/// The points that an edge passes are listed in the direction of the edge:
/// from the source over all points to the target, the position on the layer
/// axis strictly increases along an edge that leads to a later layer, and
/// strictly decreases along one that leads to an earlier layer. An edge
/// passes no point, or one in each layer between its ends, and an invisible
/// one passes none. This holds as long as the two nodes lie in range.
pub proof fn law_ways_follow_their_edges(
    g: Graph,
    sizes: Seq<(Px, Px)>,
    clusters: Option<Seq<Seq<usize>>>,
    r: LayoutResult,
    e: int,
)
    requires
        is_layered(g, sizes, clusters, r),
        in_graph(edge_ends(g.edges@), g.nodes@.len() as int),
        0 <= e < g.edges@.len(),
        r.nodes@[g.edges@[e].from as int].l < FAR,
        r.nodes@[g.edges@[e].to as int].l < FAR,
    ensures
        ({
            let a = r.nodes@[g.edges@[e].from as int];
            let b = r.nodes@[g.edges@[e].to as int];
            let path = r.edge_paths@[e]@;
            &&& a.layer < b.layer ==> rises(stations(a, path, b))
            &&& a.layer > b.layer ==> falls(stations(a, path, b))
            &&& path.len() == 0 || path.len() == layers_between(a.layer as int, b.layer as int)
            &&& g.edges@[e].kind == EdgeKind::Invisible ==> path.len() == 0
        }),
{
    let ends = edge_ends(g.edges@);
    let n = g.nodes@.len();
    let paths = match clusters {
        Some(c) => Some(c.map_values(|s: Seq<usize>| s.map_values(|x: usize| x as int))),
        None => None,
    };
    let (p, w) = choose|p: Plan, w: Breadths|
        {
            &&& is_plan(ends, hidden(g.edges@), n, paths, p)
            &&& #[trigger] is_drawn(g, sizes, clusters, p, w, r)
        };
    lemma_plan_chain(ends, hidden(g.edges@), n, paths, p, e);
    let (from, to) = (g.edges@[e].from as int, g.edges@[e].to as int);
    assert(ends[e] == (from, to));
    let room = rooms(g, sizes, clusters, p);
    let xs = spread(p, w);
    let layers = rows(p.layers@);
    let (a, b) = (r.nodes@[from], r.nodes@[to]);
    assert(is_placed(a, p, xs, room, from));
    assert(is_placed(b, p, xs, room, to));
    let path = r.edge_paths@[e]@;
    let chain = p.chains@[e]@;
    assert(path == way(p, xs, room.l, chain));
    let s = stations(a, path, b);
    let (f, t) = (a.layer as int, b.layer as int);
    let count = path.len() as int;
    if f != t {
        assert forall|i: int| 0 <= i < s.len() implies #[trigger] s[i] == level(
            layers,
            room.l,
            station_layer(f, t, count, i),
        ) by {
            if 0 < i <= count {
                let k = p.graph.layer@[chain[i - 1] as int] as int;
                assert(k == step_layer(f, t, i - 1));
                assert(s[i] == path[i - 1].1);
                if f < t {
                    lemma_levels_rise(layers, room.l, k, t);
                } else {
                    lemma_levels_rise(layers, room.l, k, f);
                }
            }
        }
        assert forall|i: int, j: int| 0 <= i < j < s.len() implies (if f < t {
            #[trigger] s[i] < #[trigger] s[j]
        } else {
            s[i] > s[j]
        }) by {
            let (x, y) = (station_layer(f, t, count, i), station_layer(f, t, count, j));
            if f < t {
                assert(f <= x < y <= t);
                if y < t {
                    lemma_levels_rise(layers, room.l, y, t);
                }
                lemma_levels_rise(layers, room.l, x, y);
            } else {
                assert(t <= y < x <= f);
                if x < f {
                    lemma_levels_rise(layers, room.l, x, f);
                }
                lemma_levels_rise(layers, room.l, y, x);
            }
        }
    }
}

/// In a graph without cycles every edge leads to a later layer, and its
/// target lies further along the layer axis than its source. An edge that
/// is drawn passes one point in each layer between.
pub proof fn law_acyclic_edges_lead_down(
    g: Graph,
    sizes: Seq<(Px, Px)>,
    clusters: Option<Seq<Seq<usize>>>,
    r: LayoutResult,
    rank: spec_fn(int) -> int,
    e: int,
)
    requires
        is_layered(g, sizes, clusters, r),
        in_graph(edge_ends(g.edges@), g.nodes@.len() as int),
        upwards(edge_ends(g.edges@), rank),
        0 <= e < g.edges@.len(),
    ensures
        ({
            let a = r.nodes@[g.edges@[e].from as int];
            let b = r.nodes@[g.edges@[e].to as int];
            let path = r.edge_paths@[e]@;
            &&& a.layer < b.layer
            &&& b.l < FAR ==> a.l < b.l
            &&& g.edges@[e].kind != EdgeKind::Invisible ==> path.len() == b.layer - a.layer - 1
        }),
{
    let ends = edge_ends(g.edges@);
    let n = g.nodes@.len();
    let paths = match clusters {
        Some(c) => Some(c.map_values(|s: Seq<usize>| s.map_values(|x: usize| x as int))),
        None => None,
    };
    let (p, w) = choose|p: Plan, w: Breadths|
        {
            &&& is_plan(ends, hidden(g.edges@), n, paths, p)
            &&& #[trigger] is_drawn(g, sizes, clusters, p, w, r)
        };
    law_acyclic_graphs_have_no_back_edges(ends, n, p.back@, rank);
    lemma_plan_chain(ends, hidden(g.edges@), n, paths, p, e);
    let (from, to) = (g.edges@[e].from as int, g.edges@[e].to as int);
    assert(ends[e] == (from, to));
    let room = rooms(g, sizes, clusters, p);
    let xs = spread(p, w);
    let (a, b) = (r.nodes@[from], r.nodes@[to]);
    assert(is_placed(a, p, xs, room, from));
    assert(is_placed(b, p, xs, room, to));
    assert(r.edge_paths@[e]@ == way(p, xs, room.l, p.chains@[e]@));
    if b.l < FAR {
        lemma_levels_rise(rows(p.layers@), room.l, a.layer as int, b.layer as int);
    }
}

/// The layer of the `i`-th position of an edge with `count` points.
spec fn station_layer(f: int, t: int, count: int, i: int) -> int {
    if i == 0 {
        f
    } else if i == count + 1 {
        t
    } else {
        step_layer(f, t, i - 1)
    }
}

} // verus!
