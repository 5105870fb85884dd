//! The layered layout of a graph.

use vstd::prelude::*;

use crate::advance::place::lengths::{
    bound, bounded, cut, cut_wide, diff, minus, multiple, plus, sum, times,
};
use crate::advance::place::measure::{text_px, width_px};
use crate::advance::place::sizes::LINE_H;
use crate::advance::route::geometry::{greater, half, most, FAR};
use crate::advance::scene::Px;
use crate::layout::compact::{numbers, places_fit, within, Breadths, WIDE};
use crate::layout::coords::{coordinates, coordinates_bk, extent, high, low};
use crate::layout::cycles::in_graph;
use crate::layout::labels::{break_count, count_char};
use crate::layout::ordering::{all_below, below, rows};
use crate::layout::plan::{is_plan, plan, Plan};
use crate::layout::chains::lists;
use crate::model::{opt_text, Direction, Edge, EdgeKind, Graph};
use crate::peel::pair_ints;


verus! {

/// Margin around everything.
pub const MARGIN: Px = 1792000;

/// Gap between layers.
pub const GAP_L: Px = 3840000;

/// Breadth that is kept free for an edge that passes a layer.
pub const DUMMY_B: Px = 1024000;

/// Room beside the label of an edge.
pub const LABEL_ROOM_W: Px = 896000;

/// Room above and below the label of an edge.
pub const LABEL_ROOM_H: Px = 384000;

/// Layer room for the title of a subgraph, above and below.
pub const HEADER_ROOM: Px = 3328000;

/// Position and size of one node. The breadth axis runs along the layers,
/// the layer axis across them.
#[derive(Debug, Clone, Copy)]
pub struct Placed {
    /// Centre on the breadth axis.
    pub b: Px,
    /// Centre on the layer axis.
    pub l: Px,
    /// Size along the breadth axis.
    pub bsize: Px,
    /// Size along the layer axis.
    pub lsize: Px,
    /// Layer index.
    pub layer: usize,
}

/// A layered layout.
#[derive(Debug)]
pub struct LayoutResult {
    pub nodes: Vec<Placed>,
    pub total_b: Px,
    pub total_l: Px,
    /// For each edge the points that it passes on its way, in its
    /// direction; none for an edge between adjacent layers.
    pub edge_paths: Vec<Vec<(Px, Px)>>,
}

/// The sizes of all nodes, stand-ins and walls along both axes.
#[verifier::ext_equal]
pub struct Rooms {
    pub b: Seq<Px>,
    pub l: Seq<Px>,
}

/// Whether layers are columns.
pub open spec fn sideways(d: Direction) -> bool {
    d == Direction::LR || d == Direction::RL
}

/// The first number of a pair, or the second.
pub open spec fn pick(s: (Px, Px), second: bool) -> int {
    if second {
        bound(s.1 as int)
    } else {
        bound(s.0 as int)
    }
}

/// The rooms of the nodes alone.
pub open spec fn own_rooms(sizes: Seq<(Px, Px)>, across: bool, m: nat) -> Rooms {
    Rooms {
        b: Seq::new(
            m,
            |v: int|
                if v < sizes.len() {
                    pick(sizes[v], across) as Px
                } else {
                    0
                },
        ),
        l: Seq::new(
            m,
            |v: int|
                if v < sizes.len() {
                    pick(sizes[v], !across) as Px
                } else {
                    0
                },
        ),
    }
}

/// The breadths once the first `k` stand-ins of an edge have theirs.
pub open spec fn chain_rooms(b: Seq<Px>, chain: Seq<usize>, k: int) -> Seq<Px>
    decreases k,
{
    if k <= 0 {
        b
    } else {
        chain_rooms(b, chain, k - 1).update(chain[k - 1] as int, DUMMY_B)
    }
}

/// Width and height that are kept free for a label.
pub open spec fn label_room(t: Seq<char>) -> (int, int) {
    (
        plus(text_px(t), LABEL_ROOM_W as int),
        plus(
            plus(times(count_char(t, '\n') as int, LINE_H as int), LINE_H as int),
            LABEL_ROOM_H as int,
        ),
    )
}

/// The rooms once an edge has its own: the stand-in in the middle is as
/// large as the label.
pub open spec fn edge_rooms(
    r: Rooms,
    chain: Seq<usize>,
    label: Option<Seq<char>>,
    across: bool,
) -> Rooms {
    let b = chain_rooms(r.b, chain, chain.len() as int);
    if label is Some && chain.len() > 0 {
        let (w, h) = label_room(label->0);
        let mid = chain[chain.len() as int / 2] as int;
        Rooms {
            b: b.update(
                mid,
                most(
                    b[mid] as int,
                    if across {
                        h
                    } else {
                        w
                    },
                ) as Px,
            ),
            l: r.l.update(
                mid,
                most(
                    r.l[mid] as int,
                    if across {
                        w
                    } else {
                        h
                    },
                ) as Px,
            ),
        }
    } else {
        Rooms { b, l: r.l }
    }
}

/// The rooms once the first `k` edges have theirs.
pub open spec fn all_rooms(
    r: Rooms,
    chains: Seq<Seq<usize>>,
    edges: Seq<Edge>,
    across: bool,
    k: int,
) -> Rooms
    decreases k,
{
    if k <= 0 {
        r
    } else {
        edge_rooms(
            all_rooms(r, chains, edges, across, k - 1),
            chains[k - 1],
            opt_text(edges[k - 1].label),
            across,
        )
    }
}

/// Whether subgraph `c` has no node above layer `l`.
pub open spec fn starts(paths: Seq<Seq<usize>>, layer: Seq<usize>, c: usize, l: usize) -> bool {
    forall|w: int| 0 <= w < paths.len() && (#[trigger] paths[w]).contains(c) ==> l <= layer[w]
}

/// How many of the first `k` subgraphs of a node start at its layer.
pub open spec fn headers(paths: Seq<Seq<usize>>, layer: Seq<usize>, v: int, k: int) -> int
    decreases k,
{
    if k <= 0 {
        0
    } else {
        headers(paths, layer, v, k - 1) + (if starts(paths, layer, paths[v][k - 1], layer[v]) {
            1int
        } else {
            0
        })
    }
}

/// The layer sizes with the room for titles.
pub open spec fn headed(l: Seq<Px>, paths: Seq<Seq<usize>>, layer: Seq<usize>) -> Seq<Px> {
    Seq::new(
        l.len(),
        |v: int|
            if v < paths.len() {
                plus(
                    l[v] as int,
                    times(headers(paths, layer, v, paths[v].len() as int), HEADER_ROOM as int),
                ) as Px
            } else {
                l[v]
            },
    )
}

/// The rooms of everything in a plan.
pub open spec fn rooms(
    g: Graph,
    sizes: Seq<(Px, Px)>,
    clusters: Option<Seq<Seq<usize>>>,
    p: Plan,
) -> Rooms {
    let across = sideways(g.direction);
    let r = all_rooms(
        own_rooms(sizes, across, p.graph.layer@.len()),
        rows(p.chains@),
        g.edges@,
        across,
        g.edges@.len() as int,
    );
    match clusters {
        Some(paths) => Rooms { b: r.b, l: headed(r.l, paths, p.graph.layer@) },
        None => r,
    }
}

/// The largest layer size among the first `k` nodes of a layer.
pub open spec fn tallest(row: Seq<usize>, l: Seq<Px>, k: int) -> int
    decreases k,
{
    if k <= 0 {
        0
    } else {
        most(tallest(row, l, k - 1), l[row[k - 1] as int] as int)
    }
}

/// Where layer `k` starts.
pub open spec fn layer_top(layers: Seq<Seq<usize>>, l: Seq<Px>, k: int) -> int
    decreases k,
{
    if k <= 0 {
        MARGIN as int
    } else {
        plus(
            layer_top(layers, l, k - 1),
            plus(tallest(layers[k - 1], l, layers[k - 1].len() as int), GAP_L as int),
        )
    }
}

/// The middle of layer `k`.
pub open spec fn level(layers: Seq<Seq<usize>>, l: Seq<Px>, k: int) -> int {
    plus(layer_top(layers, l, k), tallest(layers[k], l, layers[k].len() as int) / 2)
}

proof fn lemma_tallest(row: Seq<usize>, l: Seq<Px>, k: int, i: int)
    requires
        0 <= i < k <= row.len(),
    ensures
        l[row[i] as int] <= tallest(row, l, k),
        0 <= tallest(row, l, k),
    decreases k,
{
    if i < k - 1 {
        lemma_tallest(row, l, k - 1, i);
    } else {
        lemma_tallest_sign(row, l, k - 1);
    }
}

pub proof fn lemma_tallest_sign(row: Seq<usize>, l: Seq<Px>, k: int)
    ensures
        0 <= tallest(row, l, k),
    decreases k,
{
    if k > 0 {
        lemma_tallest_sign(row, l, k - 1);
    }
}

pub proof fn lemma_top_sign(layers: Seq<Seq<usize>>, l: Seq<Px>, k: int)
    ensures
        0 <= layer_top(layers, l, k) <= FAR,
    decreases k,
{
    if k > 0 {
        lemma_top_sign(layers, l, k - 1);
        lemma_tallest_sign(layers[k - 1], l, layers[k - 1].len() as int);
    }
}

/// Nodes of adjacent layers are at least a layer gap apart, as long as the
/// drawing stays in range.
pub proof fn law_layers_keep_their_gap(
    layers: Seq<Seq<usize>>,
    l: Seq<Px>,
    k: int,
    i: int,
    j: int,
)
    requires
        0 <= k,
        k + 1 < layers.len(),
        0 <= i < layers[k].len(),
        0 <= j < layers[k + 1].len(),
        level(layers, l, k + 1) < FAR,
    ensures
        level(layers, l, k) + l[layers[k][i] as int] as int / 2 + GAP_L <= level(layers, l, k + 1)
            - l[layers[k + 1][j] as int] as int / 2,
{
    lemma_tallest(layers[k], l, layers[k].len() as int, i);
    lemma_tallest(layers[k + 1], l, layers[k + 1].len() as int, j);
    lemma_top_sign(layers, l, k);
    lemma_top_sign(layers, l, k + 1);
}

/// Where nodes stand on the breadth axis: the leftmost ends at the margin.
pub open spec fn spread(p: Plan, b: Breadths) -> Seq<Px> {
    let xs = coordinates(p.graph, rows(p.layers@), b);
    let by = MARGIN - low(xs, b.sizes@, b.n as int);
    xs.map_values(|x: int| bound(x + by) as Px)
}

/// The points that an edge passes.
pub open spec fn way(p: Plan, xs: Seq<Px>, l: Seq<Px>, chain: Seq<usize>) -> Seq<(Px, Px)> {
    Seq::new(
        chain.len(),
        |i: int|
            (
                xs[chain[i] as int],
                level(rows(p.layers@), l, p.graph.layer@[chain[i] as int] as int) as Px,
            ),
    )
}

/// Whether a node stands where the plan puts it.
pub open spec fn is_placed(q: Placed, p: Plan, xs: Seq<Px>, r: Rooms, v: int) -> bool {
    &&& q.b == xs[v]
    &&& q.l == level(rows(p.layers@), r.l, p.graph.layer@[v] as int)
    &&& q.bsize == r.b[v]
    &&& q.lsize == r.l[v]
    &&& q.layer == p.graph.layer@[v]
}

/// Whether separations are computed from the sizes `s` of a plan of `n`
/// nodes.
pub open spec fn breadths_of(p: Plan, n: int, s: Seq<Px>, b: Breadths) -> bool {
    &&& b.n == n
    &&& b.sizes@ == s
    &&& b.clustered == p.graph.clustered
    &&& *b.paths == p.graph.paths
    &&& *b.sides == p.graph.sides
}

/// Whether a layout is that of a plan.
pub open spec fn is_drawn(
    g: Graph,
    sizes: Seq<(Px, Px)>,
    clusters: Option<Seq<Seq<usize>>>,
    p: Plan,
    b: Breadths,
    r: LayoutResult,
) -> bool {
    let n = g.nodes@.len() as int;
    let room = rooms(g, sizes, clusters, p);
    let layers = rows(p.layers@);
    let raw = coordinates(p.graph, layers, b);
    let xs = spread(p, b);
    &&& breadths_of(p, n, room.b, b)
    &&& r.nodes@.len() == n
    &&& forall|v: int| 0 <= v < n ==> is_placed(#[trigger] r.nodes@[v], p, xs, room, v)
    &&& r.total_b == (if n == 0 {
        2 * MARGIN
    } else {
        bound(high(raw, room.b, n) - low(raw, room.b, n) + 2 * MARGIN)
    })
    &&& r.total_l == plus(
        minus(layer_top(layers, room.l, layers.len() as int), GAP_L as int),
        MARGIN as int,
    )
    &&& r.edge_paths@.len() == g.edges@.len()
    &&& forall|e: int|
        0 <= e < g.edges@.len() ==> (#[trigger] r.edge_paths@[e])@ == way(
            p,
            xs,
            room.l,
            p.chains@[e]@,
        )
}

/// The ends of the edges.
pub open spec fn edge_ends(edges: Seq<Edge>) -> Seq<(int, int)> {
    edges.map_values(|e: Edge| (e.from as int, e.to as int))
}

/// Which edges only order their ends.
pub open spec fn hidden(edges: Seq<Edge>) -> Seq<bool> {
    edges.map_values(|e: Edge| e.kind == EdgeKind::Invisible)
}

/// Whether a layout is that of some plan of the graph.
pub open spec fn is_layered(
    g: Graph,
    sizes: Seq<(Px, Px)>,
    clusters: Option<Seq<Seq<usize>>>,
    r: LayoutResult,
) -> bool {
    exists|p: Plan, b: Breadths|
        {
            &&& is_plan(
                edge_ends(g.edges@),
                hidden(g.edges@),
                g.nodes@.len(),
                match clusters {
                    Some(c) => Some(c.map_values(|s: Seq<usize>| s.map_values(|x: usize| x as int))),
                    None => None,
                },
                p,
            )
            &&& #[trigger] is_drawn(g, sizes, clusters, p, b, r)
        }
}

fn own_rooms_of(sizes: &Vec<(Px, Px)>, second: bool, m: usize) -> (r: Vec<Px>)
    ensures
        places_fit(r@, m as int),
        forall|v: int|
            0 <= v < m ==> (#[trigger] r@[v]) == (if v < sizes@.len() {
                pick(sizes@[v], second)
            } else {
                0
            }),
{
    let mut r: Vec<Px> = Vec::new();
    let mut v: usize = 0;
    while v < m
        invariant
            v <= m,
            places_fit(r@, v as int),
            forall|i: int|
                0 <= i < v ==> (#[trigger] r@[i]) == (if i < sizes@.len() {
                    pick(sizes@[i], second)
                } else {
                    0
                }),
        decreases m - v,
    {
        let x: Px = if v >= sizes.len() {
            0
        } else if second {
            cut(sizes[v].1)
        } else {
            cut(sizes[v].0)
        };
        r.push(x);
        v += 1;
    }
    r
}

fn add_chain(b: &mut Vec<Px>, chain: &Vec<usize>, m: usize)
    requires
        places_fit(old(b)@, m as int),
        below(chain@, m as int),
    ensures
        final(b)@ == chain_rooms(old(b)@, chain@, chain@.len() as int),
        places_fit(final(b)@, m as int),
{
    let ghost before = b@;
    let mut k: usize = 0;
    while k < chain.len()
        invariant
            k <= chain@.len(),
            below(chain@, m as int),
            places_fit(b@, m as int),
            b@ == chain_rooms(before, chain@, k as int),
        decreases chain@.len() - k,
    {
        let d: usize = chain[k];
        assert(chain@[k as int] < m);
        b.set(d, DUMMY_B);
        k += 1;
    }
}

fn add_label(b: &mut Vec<Px>, l: &mut Vec<Px>, mid: usize, t: &str, across: bool, m: usize)
    requires
        places_fit(old(b)@, m as int),
        places_fit(old(l)@, m as int),
        mid < m,
    ensures
        ({
            let (w, h) = label_room(t@);
            let (x, y) = if across {
                (h, w)
            } else {
                (w, h)
            };
            &&& final(b)@ == old(b)@.update(mid as int, most(old(b)@[mid as int] as int, x) as Px)
            &&& final(l)@ == old(l)@.update(mid as int, most(old(l)@[mid as int] as int, y) as Px)
        }),
        places_fit(final(b)@, m as int),
        places_fit(final(l)@, m as int),
{
    let w: Px = sum(width_px(t), LABEL_ROOM_W);
    let h: Px = sum(sum(multiple(break_count(t), LINE_H), LINE_H), LABEL_ROOM_H);
    assert(bounded(b@[mid as int] as int) && bounded(l@[mid as int] as int));
    let (x, y): (Px, Px) = if across {
        (h, w)
    } else {
        (w, h)
    };
    let bx: Px = greater(b[mid], x);
    let ly: Px = greater(l[mid], y);
    b.set(mid, bx);
    l.set(mid, ly);
}

fn add_edges(b: &mut Vec<Px>, l: &mut Vec<Px>, g: &Graph, chains: &Vec<Vec<usize>>, m: usize)
    requires
        places_fit(old(b)@, m as int),
        places_fit(old(l)@, m as int),
        chains@.len() == g.edges@.len(),
        all_below(rows(chains@), m as int),
    ensures
        (Rooms { b: final(b)@, l: final(l)@ }) == all_rooms(
            (Rooms { b: old(b)@, l: old(l)@ }),
            rows(chains@),
            g.edges@,
            sideways(g.direction),
            g.edges@.len() as int,
        ),
        places_fit(final(b)@, m as int),
        places_fit(final(l)@, m as int),
{
    let across = g.direction == Direction::LR || g.direction == Direction::RL;
    let ghost first = Rooms { b: b@, l: l@ };
    let ghost cv = rows(chains@);
    let mut k: usize = 0;
    while k < g.edges.len()
        invariant
            k <= g.edges@.len(),
            chains@.len() == g.edges@.len(),
            cv == rows(chains@),
            all_below(cv, m as int),
            places_fit(b@, m as int),
            places_fit(l@, m as int),
            (Rooms { b: b@, l: l@ }) == all_rooms(first, cv, g.edges@, across, k as int),
        decreases g.edges@.len() - k,
    {
        let chain = &chains[k];
        assert(cv[k as int] == chain@);
        assert(below(cv[k as int], m as int));
        let ghost before = Rooms { b: b@, l: l@ };
        add_chain(b, chain, m);
        if let Some(t) = &g.edges[k].label {
            if chain.len() > 0 {
                let mid: usize = chain[chain.len() / 2];
                assert(chain@[chain@.len() as int / 2] < m);
                add_label(b, l, mid, t.as_str(), across, m);
            }
        }
        assert((Rooms { b: b@, l: l@ }) =~= edge_rooms(
            before,
            chain@,
            opt_text(g.edges@[k as int].label),
            across,
        ));
        k += 1;
    }
}

fn holds(s: &Vec<usize>, c: usize) -> (r: bool)
    ensures
        r == s@.contains(c),
{
    let mut i: usize = 0;
    while i < s.len()
        invariant
            i <= s@.len(),
            forall|k: int| 0 <= k < i ==> #[trigger] s@[k] != c,
        decreases s@.len() - i,
    {
        if s[i] == c {
            return true;
        }
        i += 1;
    }
    false
}

fn starts_at(paths: &Vec<Vec<usize>>, layer: &Vec<usize>, c: usize, l: usize) -> (r: bool)
    requires
        paths@.len() <= layer@.len(),
    ensures
        r == starts(rows(paths@), layer@, c, l),
{
    let ghost pv = rows(paths@);
    let mut w: usize = 0;
    while w < paths.len()
        invariant
            w <= paths@.len(),
            paths@.len() <= layer@.len(),
            pv == rows(paths@),
            forall|k: int| 0 <= k < w && (#[trigger] pv[k]).contains(c) ==> l <= layer@[k],
        decreases paths@.len() - w,
    {
        assert(pv[w as int] == paths@[w as int]@);
        if holds(&paths[w], c) && layer[w] < l {
            return false;
        }
        w += 1;
    }
    true
}

fn add_headers(l: &mut Vec<Px>, paths: &Vec<Vec<usize>>, layer: &Vec<usize>)
    requires
        places_fit(old(l)@, layer@.len() as int),
        paths@.len() <= layer@.len(),
    ensures
        final(l)@ == headed(old(l)@, rows(paths@), layer@),
        places_fit(final(l)@, layer@.len() as int),
{
    let ghost before = l@;
    let ghost pv = rows(paths@);
    let mut v: usize = 0;
    while v < paths.len()
        invariant
            v <= paths@.len(),
            paths@.len() <= layer@.len(),
            pv == rows(paths@),
            places_fit(before, layer@.len() as int),
            places_fit(l@, layer@.len() as int),
            forall|i: int|
                0 <= i < v ==> #[trigger] l@[i] == headed(before, pv, layer@)[i],
            forall|i: int| v <= i < layer@.len() ==> #[trigger] l@[i] == before[i],
        decreases paths@.len() - v,
    {
        let path = &paths[v];
        assert(pv[v as int] == path@);
        let mut count: usize = 0;
        let mut k: usize = 0;
        while k < path.len()
            invariant
                k <= path@.len(),
                v < paths@.len(),
                paths@.len() <= layer@.len(),
                pv == rows(paths@),
                pv[v as int] == path@,
                count <= k,
                count == headers(pv, layer@, v as int, k as int),
            decreases path@.len() - k,
        {
            if starts_at(paths, layer, path[k], layer[v]) {
                count += 1;
            }
            k += 1;
        }
        assert(bounded(l@[v as int] as int));
        let x: Px = sum(l[v], multiple(count, HEADER_ROOM));
        l.set(v, x);
        v += 1;
    }
    assert(l@ =~= headed(before, pv, layer@));
}

fn tallest_of(row: &Vec<usize>, l: &Vec<Px>) -> (r: Px)
    requires
        below(row@, l@.len() as int),
        places_fit(l@, l@.len() as int),
    ensures
        r == tallest(row@, l@, row@.len() as int),
        bounded(r as int),
{
    let mut r: Px = 0;
    let mut k: usize = 0;
    while k < row.len()
        invariant
            k <= row@.len(),
            below(row@, l@.len() as int),
            places_fit(l@, l@.len() as int),
            r == tallest(row@, l@, k as int),
            bounded(r as int),
        decreases row@.len() - k,
    {
        let v: usize = row[k];
        assert(row@[k as int] < l@.len());
        assert(bounded(l@[v as int] as int));
        r = greater(r, l[v]);
        k += 1;
    }
    r
}

/// The middles of all layers, and where the next one would start.
fn levels(layers: &Vec<Vec<usize>>, l: &Vec<Px>) -> (r: (Vec<Px>, Px))
    requires
        all_below(rows(layers@), l@.len() as int),
        places_fit(l@, l@.len() as int),
    ensures
        r.0@.len() == layers@.len(),
        forall|k: int|
            0 <= k < layers@.len() ==> (#[trigger] r.0@[k]) == level(rows(layers@), l@, k),
        r.1 == layer_top(rows(layers@), l@, layers@.len() as int),
        bounded(r.1 as int),
{
    let ghost lv = rows(layers@);
    let mut at: Vec<Px> = Vec::new();
    let mut top: Px = MARGIN;
    let mut k: usize = 0;
    while k < layers.len()
        invariant
            k <= layers@.len(),
            lv == rows(layers@),
            all_below(lv, l@.len() as int),
            places_fit(l@, l@.len() as int),
            at@.len() == k,
            forall|i: int| 0 <= i < k ==> (#[trigger] at@[i]) == level(lv, l@, i),
            top == layer_top(lv, l@, k as int),
            bounded(top as int),
        decreases layers@.len() - k,
    {
        assert(lv[k as int] == layers@[k as int]@);
        assert(below(lv[k as int], l@.len() as int));
        let h: Px = tallest_of(&layers[k], l);
        at.push(sum(top, half(h)));
        top = sum(top, sum(h, GAP_L));
        k += 1;
    }
    (at, top)
}

fn ends_of(g: &Graph) -> (r: (Vec<(usize, usize)>, Vec<bool>))
    ensures
        pair_ints(r.0@) == edge_ends(g.edges@),
        r.1@ == hidden(g.edges@),
        r.0@.len() == g.edges@.len(),
{
    let mut ends: Vec<(usize, usize)> = Vec::new();
    let mut unseen: Vec<bool> = Vec::new();
    let mut i: usize = 0;
    while i < g.edges.len()
        invariant
            i <= g.edges@.len(),
            ends@.len() == i,
            unseen@.len() == i,
            forall|k: int|
                0 <= k < i ==> (#[trigger] ends@[k]) == (g.edges@[k].from, g.edges@[k].to),
            forall|k: int|
                0 <= k < i ==> (#[trigger] unseen@[k]) == (g.edges@[k].kind == EdgeKind::Invisible),
        decreases g.edges@.len() - i,
    {
        ends.push((g.edges[i].from, g.edges[i].to));
        unseen.push(g.edges[i].kind == EdgeKind::Invisible);
        i += 1;
    }
    assert(pair_ints(ends@) =~= edge_ends(g.edges@));
    assert(unseen@ =~= hidden(g.edges@));
    (ends, unseen)
}

/// Measure everything in a plan.
fn measure(
    g: &Graph,
    sizes: &Vec<(Px, Px)>,
    clusters: Option<&Vec<Vec<usize>>>,
    p: &Plan,
) -> (r: (Vec<Px>, Vec<Px>))
    requires
        p.chains@.len() == g.edges@.len(),
        all_below(rows(p.chains@), p.graph.layer@.len() as int),
        clusters matches Some(c) ==> c@.len() <= p.graph.layer@.len(),
    ensures
        (Rooms { b: r.0@, l: r.1@ }) == rooms(
            *g,
            sizes@,
            match clusters {
                Some(c) => Some(rows(c@)),
                None => None,
            },
            *p,
        ),
        places_fit(r.0@, p.graph.layer@.len() as int),
        places_fit(r.1@, p.graph.layer@.len() as int),
{
    let m: usize = p.graph.layer.len();
    let across = g.direction == Direction::LR || g.direction == Direction::RL;
    let mut b = own_rooms_of(sizes, across, m);
    let mut l = own_rooms_of(sizes, !across, m);
    assert((Rooms { b: b@, l: l@ }) =~= own_rooms(sizes@, across, m as nat));
    add_edges(&mut b, &mut l, g, &p.chains, m);
    if let Some(c) = clusters {
        add_headers(&mut l, c, &p.graph.layer);
    }
    (b, l)
}

/// Move all places, and cut them off at the ends of the range.
fn settle(xs: &Vec<i128>, by: i128) -> (r: Vec<Px>)
    requires
        within(xs@, xs@.len() as int, 16 * WIDE),
        -20 * WIDE <= by <= 20 * WIDE,
    ensures
        r@ == numbers(xs@).map_values(|x: int| bound(x + by) as Px),
{
    let mut r: Vec<Px> = Vec::new();
    let mut i: usize = 0;
    while i < xs.len()
        invariant
            i <= xs@.len(),
            within(xs@, xs@.len() as int, 16 * WIDE),
            -20 * WIDE <= by <= 20 * WIDE,
            r@.len() == i,
            forall|k: int| 0 <= k < i ==> (#[trigger] r@[k]) == bound(xs@[k] + by),
        decreases xs@.len() - i,
    {
        assert(-16 * WIDE <= xs@[i as int] <= 16 * WIDE);
        r.push(cut_wide(xs[i] + by));
        i += 1;
    }
    assert(r@ =~= numbers(xs@).map_values(|x: int| bound(x + by) as Px));
    r
}

fn place_nodes(p: &Plan, xs: &Vec<Px>, b: &Vec<Px>, l: &Vec<Px>, at: &Vec<Px>, n: usize) -> (r: Vec<
    Placed,
>)
    requires
        n <= xs@.len(),
        xs@.len() == p.graph.layer@.len(),
        b@.len() == xs@.len(),
        l@.len() == xs@.len(),
        below(p.graph.layer@, at@.len() as int),
        at@.len() == p.layers@.len(),
        forall|k: int| 0 <= k < at@.len() ==> (#[trigger] at@[k]) == level(rows(p.layers@), l@, k),
    ensures
        r@.len() == n,
        forall|v: int|
            0 <= v < n ==> is_placed(
                #[trigger] r@[v],
                *p,
                xs@,
                (Rooms { b: b@, l: l@ }),
                v,
            ),
{
    let mut r: Vec<Placed> = Vec::new();
    let mut v: usize = 0;
    while v < n
        invariant
            v <= n,
            n <= xs@.len(),
            xs@.len() == p.graph.layer@.len(),
            b@.len() == xs@.len(),
            l@.len() == xs@.len(),
            below(p.graph.layer@, at@.len() as int),
            at@.len() == p.layers@.len(),
            forall|k: int|
                0 <= k < at@.len() ==> (#[trigger] at@[k]) == level(rows(p.layers@), l@, k),
            r@.len() == v,
            forall|i: int|
                0 <= i < v ==> is_placed(
                    #[trigger] r@[i],
                    *p,
                    xs@,
                    (Rooms { b: b@, l: l@ }),
                    i,
                ),
        decreases n - v,
    {
        let layer: usize = p.graph.layer[v];
        assert(p.graph.layer@[v as int] < at@.len());
        r.push(Placed { b: xs[v], l: at[layer], bsize: b[v], lsize: l[v], layer });
        v += 1;
    }
    r
}

fn way_of(p: &Plan, xs: &Vec<Px>, at: &Vec<Px>, chain: &Vec<usize>, Ghost(l): Ghost<Seq<Px>>) -> (r:
    Vec<(Px, Px)>)
    requires
        xs@.len() == p.graph.layer@.len(),
        below(chain@, xs@.len() as int),
        below(p.graph.layer@, at@.len() as int),
        forall|k: int| 0 <= k < at@.len() ==> (#[trigger] at@[k]) == level(rows(p.layers@), l, k),
    ensures
        r@ == way(*p, xs@, l, chain@),
{
    let mut r: Vec<(Px, Px)> = Vec::new();
    let mut i: usize = 0;
    while i < chain.len()
        invariant
            i <= chain@.len(),
            xs@.len() == p.graph.layer@.len(),
            below(chain@, xs@.len() as int),
            below(p.graph.layer@, at@.len() as int),
            forall|k: int|
                0 <= k < at@.len() ==> (#[trigger] at@[k]) == level(rows(p.layers@), l, k),
            r@.len() == i,
            forall|k: int| 0 <= k < i ==> #[trigger] r@[k] == way(*p, xs@, l, chain@)[k],
        decreases chain@.len() - i,
    {
        let d: usize = chain[i];
        assert(chain@[i as int] < xs@.len());
        let layer: usize = p.graph.layer[d];
        assert(p.graph.layer@[d as int] < at@.len());
        r.push((xs[d], at[layer]));
        i += 1;
    }
    assert(r@ =~= way(*p, xs@, l, chain@));
    r
}

fn ways_of(p: &Plan, xs: &Vec<Px>, at: &Vec<Px>, Ghost(l): Ghost<Seq<Px>>) -> (r: Vec<
    Vec<(Px, Px)>,
>)
    requires
        xs@.len() == p.graph.layer@.len(),
        all_below(rows(p.chains@), xs@.len() as int),
        below(p.graph.layer@, at@.len() as int),
        forall|k: int| 0 <= k < at@.len() ==> (#[trigger] at@[k]) == level(rows(p.layers@), l, k),
    ensures
        r@.len() == p.chains@.len(),
        forall|e: int|
            0 <= e < r@.len() ==> (#[trigger] r@[e])@ == way(*p, xs@, l, p.chains@[e]@),
{
    let mut r: Vec<Vec<(Px, Px)>> = Vec::new();
    let mut e: usize = 0;
    while e < p.chains.len()
        invariant
            e <= p.chains@.len(),
            xs@.len() == p.graph.layer@.len(),
            all_below(rows(p.chains@), xs@.len() as int),
            below(p.graph.layer@, at@.len() as int),
            forall|k: int|
                0 <= k < at@.len() ==> (#[trigger] at@[k]) == level(rows(p.layers@), l, k),
            r@.len() == e,
            forall|k: int| 0 <= k < e ==> (#[trigger] r@[k])@ == way(*p, xs@, l, p.chains@[k]@),
        decreases p.chains@.len() - e,
    {
        assert(below(rows(p.chains@)[e as int], xs@.len() as int));
        r.push(way_of(p, xs, at, &p.chains[e], Ghost(l)));
        e += 1;
    }
    r
}

/// Lay a graph out. `sizes` are the widths and heights of the nodes,
/// `clusters`, where there are any, the ids of the subgraphs that each node
/// is in, outermost first.
fn layout_core(g: &Graph, sizes: &Vec<(Px, Px)>, clusters: Option<&Vec<Vec<usize>>>) -> (r:
    LayoutResult)
    requires
        in_graph(edge_ends(g.edges@), g.nodes@.len() as int),
        sizes@.len() == g.nodes@.len(),
        g.nodes@.len() < usize::MAX,
        clusters matches Some(c) ==> c@.len() == g.nodes@.len(),
    ensures
        is_layered(
            *g,
            sizes@,
            match clusters {
                Some(c) => Some(rows(c@)),
                None => None,
            },
            r,
        ),
{
    let n: usize = g.nodes.len();
    let (ends, unseen) = ends_of(g);
    let p = plan(&ends, &unseen, n, clusters);
    let (bs, ls) = measure(g, sizes, clusters, &p);
    let ghost cv = match clusters {
        Some(c) => Some(rows(c@)),
        None => None,
    };
    let ghost room = rooms(*g, sizes@, cv, p);
    assert(bs@ == room.b && ls@ == room.l);
    let (at, end) = levels(&p.layers, &ls);
    let total_l: Px = sum(diff(end, GAP_L), MARGIN);
    let b = Breadths {
        n,
        sizes: &bs,
        clustered: p.graph.clustered,
        paths: &p.graph.paths,
        sides: &p.graph.sides,
    };
    proof {
        match clusters {
            Some(c) => {
                assert(lists(c@) =~= rows(c@).map_values(
                    |s: Seq<usize>| s.map_values(|x: usize| x as int),
                ));
            },
            None => {},
        }
    }
    if n == 0 {
        let r = LayoutResult {
            nodes: Vec::new(),
            total_b: 2 * MARGIN,
            total_l,
            edge_paths: Vec::new(),
        };
        proof {
            if g.edges@.len() > 0 {
                assert(edge_ends(g.edges@)[0] == (g.edges@[0].from as int, g.edges@[0].to as int));
            }
            assert(is_drawn(*g, sizes@, cv, p, b, r));
        }
        return r;
    }
    assert(p.graph@.layer.len() == p.graph.layer@.len());
    assert(rows(p.graph.preds@).len() == p.graph.preds@.len());
    assert(rows(p.graph.succs@).len() == p.graph.succs@.len());
    assert(rows(p.graph.paths@).len() == p.graph.paths@.len());
    let raw = coordinates_bk(&p.graph, &p.layers, &b);
    let (lo, hi): (i128, i128) = extent(&raw, &bs, n, Ghost(16 * WIDE));
    let xs = settle(&raw, MARGIN as i128 - lo);
    assert(xs@ =~= spread(p, b));
    let total_b: Px = cut_wide(hi - lo + 2 * MARGIN as i128);
    let nodes = place_nodes(&p, &xs, &bs, &ls, &at, n);
    let edge_paths = ways_of(&p, &xs, &at, Ghost(ls@));
    let r = LayoutResult { nodes, total_b, total_l, edge_paths };
    assert(is_drawn(*g, sizes@, cv, p, b, r));
    r
}

/// Lay a graph out whose nodes have the sizes `sizes`.
pub fn layout_sized(g: &Graph, sizes: &Vec<(Px, Px)>) -> (r: LayoutResult)
    requires
        in_graph(edge_ends(g.edges@), g.nodes@.len() as int),
        sizes@.len() == g.nodes@.len(),
        g.nodes@.len() < usize::MAX,
    ensures
        is_layered(*g, sizes@, None, r),
{
    layout_core(g, sizes, None)
}

/// Lay a graph out whose nodes are in subgraphs: the members of each are
/// kept together within every layer, and apart from those of others.
pub fn layout_clustered(g: &Graph, sizes: &Vec<(Px, Px)>, node_cluster: &Vec<Vec<usize>>) -> (r:
    LayoutResult)
    requires
        in_graph(edge_ends(g.edges@), g.nodes@.len() as int),
        sizes@.len() == g.nodes@.len(),
        g.nodes@.len() < usize::MAX,
        node_cluster@.len() == g.nodes@.len(),
    ensures
        is_layered(*g, sizes@, Some(rows(node_cluster@)), r),
{
    layout_core(g, sizes, Some(node_cluster))
}

} // verus!
