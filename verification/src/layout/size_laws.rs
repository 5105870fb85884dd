//! Nodes keep their sizes in a layout.

use vstd::prelude::*;

use crate::advance::place::lengths::{plus, times};
use crate::advance::route::geometry::FAR;
use crate::advance::scene::Px;
use crate::layout::chains::{add_edge, bare_layers, law_links_lead_down, lists, with_edges};
use crate::layout::compact::Breadths;
use crate::layout::cycles::in_graph;
use crate::layout::engine::{
    all_rooms, chain_rooms, edge_ends, headers, hidden, is_drawn, is_layered, is_placed, own_rooms,
    rooms, sideways, spread, LayoutResult, Rooms, HEADER_ROOM,
};
use crate::layout::layers::{kept, layered};
use crate::layout::ordering::rows;
use crate::layout::plan::{direct_edges, is_plan, plan_over, Plan};
use crate::layout::way_laws::{lemma_chain_count, lemma_plan_chain, lemma_plan_layers};
use crate::model::{Direction, Edge, Graph};
use crate::peel::indices;

verus! {

/// Stand-ins come after all real nodes.
proof fn lemma_new(layer: Seq<int>, ends: Seq<(int, int)>, direct: Seq<bool>, k: int, e: int, i: int)
    requires
        0 <= e < k <= ends.len(),
        in_graph(ends, layer.len() as int),
        0 <= i < with_edges(bare_layers(layer), ends, direct, k).1[e].len(),
    ensures
        layer.len() <= with_edges(bare_layers(layer), ends, direct, k).1[e][i],
    decreases k,
{
    let (b, before) = with_edges(bare_layers(layer), ends, direct, k - 1);
    law_links_lead_down(layer, ends, direct, k - 1);
    lemma_chain_count(layer, ends, direct, k - 1);
    if e < k - 1 {
        lemma_new(layer, ends, direct, k - 1, e, i);
    } else {
        let chain = add_edge(b, ends[k - 1].0, ends[k - 1].1, direct[k - 1]).1;
        assert(with_edges(bare_layers(layer), ends, direct, k).1[e] == chain);
    }
}

proof fn lemma_stand_ins(
    ends: Seq<(int, int)>,
    invisible: Seq<bool>,
    n: nat,
    paths: Option<Seq<Seq<int>>>,
    p: Plan,
    e: int,
    i: int,
)
    requires
        is_plan(ends, invisible, n, paths, p),
        in_graph(ends, n as int),
        0 <= e < ends.len(),
        0 <= i < p.chains@[e]@.len(),
    ensures
        n <= p.chains@[e]@[i] < p.graph.layer@.len(),
{
    lemma_plan_chain(ends, invisible, n, paths, p, e);
    let layer = choose|layer: Seq<int>|
        {
            &&& layer.len() == n
            &&& #[trigger] layered(kept(ends, p.back@, ends.len() as int), layer)
            &&& plan_over(ends, invisible, paths, layer, p)
        };
    let direct = direct_edges(invisible, p.back@);
    let k = ends.len() as int;
    let chains = with_edges(bare_layers(layer), ends, direct, k).1;
    assert(lists(p.chains@)[e] == indices(p.chains@[e]@));
    assert(chains[e][i] == p.chains@[e]@[i]);
    lemma_new(layer, ends, direct, k, e, i);
}

proof fn lemma_chain_rooms(b: Seq<Px>, chain: Seq<usize>, k: int, v: int)
    requires
        0 <= k <= chain.len(),
        0 <= v < b.len(),
        forall|i: int| 0 <= i < chain.len() ==> v < (#[trigger] chain[i]) < b.len(),
    ensures
        chain_rooms(b, chain, k).len() == b.len(),
        chain_rooms(b, chain, k)[v] == b[v],
    decreases k,
{
    if k > 0 {
        lemma_chain_rooms(b, chain, k - 1, v);
        assert(v < chain[k - 1] < b.len());
    }
}

proof fn lemma_rooms(
    r: Rooms,
    chains: Seq<Seq<usize>>,
    edges: Seq<Edge>,
    across: bool,
    k: int,
    v: int,
)
    requires
        0 <= k <= chains.len(),
        0 <= v < r.b.len(),
        r.l.len() == r.b.len(),
        forall|e: int, i: int|
            0 <= e < chains.len() && 0 <= i < chains[e].len() ==> v < (#[trigger] chains[e][i])
                < r.b.len(),
    ensures
        ({
            let q = all_rooms(r, chains, edges, across, k);
            &&& q.b.len() == r.b.len()
            &&& q.l.len() == r.b.len()
            &&& q.b[v] == r.b[v]
            &&& q.l[v] == r.l[v]
        }),
    decreases k,
{
    if k > 0 {
        lemma_rooms(r, chains, edges, across, k - 1, v);
        let before = all_rooms(r, chains, edges, across, k - 1);
        let chain = chains[k - 1];
        assert forall|i: int| 0 <= i < chain.len() implies v < (#[trigger] chain[i]) < before.b.len() by {
            assert(v < chains[k - 1][i] < r.b.len());
        }
        lemma_chain_rooms(before.b, chain, chain.len() as int, v);
        if chain.len() > 0 {
            let mid = chain[chain.len() as int / 2];
            assert(v < mid < before.b.len());
        }
    }
}

proof fn lemma_headers(paths: Seq<Seq<usize>>, layer: Seq<usize>, v: int, k: int)
    ensures
        0 <= headers(paths, layer, v, k),
    decreases k,
{
    if k > 0 {
        lemma_headers(paths, layer, v, k - 1);
    }
}

/// A node takes its width along a row of its layer and its height across,
/// where the graph runs up or down; where it runs to a side, it takes its
/// height along the column and its width across. Only the first nodes of a
/// subgraph get more across, for the title.
pub proof fn law_nodes_keep_their_sizes(
    g: Graph,
    sizes: Seq<(Px, Px)>,
    clusters: Option<Seq<Seq<usize>>>,
    r: LayoutResult,
    v: int,
)
    requires
        is_layered(g, sizes, clusters, r),
        in_graph(edge_ends(g.edges@), g.nodes@.len() as int),
        sizes.len() == g.nodes@.len(),
        0 <= v < g.nodes@.len(),
        0 <= sizes[v].0 <= FAR,
        0 <= sizes[v].1 <= FAR,
    ensures
        ({
            let q = r.nodes@[v];
            let (along, across) = match g.direction {
                Direction::TD | Direction::BT => (sizes[v].0, sizes[v].1),
                Direction::LR | Direction::RL => (sizes[v].1, sizes[v].0),
            };
            &&& q.bsize == along
            &&& clusters is None ==> q.lsize == across
            &&& across <= q.lsize
        }),
{
    let ends = edge_ends(g.edges@);
    let n = g.nodes@.len();
    let paths = match clusters {
        Some(c) => Some(c.map_values(|s: Seq<usize>| s.map_values(|x: usize| x as int))),
        None => None,
    };
    let (p, w) = choose|p: Plan, w: Breadths|
        {
            &&& is_plan(ends, hidden(g.edges@), n, paths, p)
            &&& #[trigger] is_drawn(g, sizes, clusters, p, w, r)
        };
    let room = rooms(g, sizes, clusters, p);
    assert(is_placed(r.nodes@[v], p, spread(p, w), room, v));
    let across = sideways(g.direction);
    let m = p.graph.layer@.len();
    let own = own_rooms(sizes, across, m);
    let chains = rows(p.chains@);
    lemma_plan_layers(ends, hidden(g.edges@), n, paths, p);
    assert(chains.len() == g.edges@.len());
    assert forall|e: int, i: int| 0 <= e < chains.len() && 0 <= i < chains[e].len() implies v < (
    #[trigger] chains[e][i]) < own.b.len() by {
        lemma_stand_ins(ends, hidden(g.edges@), n, paths, p, e, i);
    }
    lemma_rooms(own, chains, g.edges@, across, g.edges@.len() as int, v);
    let q = all_rooms(own, chains, g.edges@, across, g.edges@.len() as int);
    match clusters {
        Some(c) => {
            if v < c.len() {
                let k = headers(c, p.graph.layer@, v, c[v].len() as int);
                lemma_headers(c, p.graph.layer@, v, c[v].len() as int);
                assert(0 <= k * HEADER_ROOM) by (nonlinear_arith)
                    requires
                        0 <= k,
                        HEADER_ROOM == 3328000,
                ;
                assert(q.l[v] <= plus(q.l[v] as int, times(k, HEADER_ROOM as int)));
            }
        },
        None => {},
    }
}

} // verus!
