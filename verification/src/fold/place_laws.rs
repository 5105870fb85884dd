//! Edges of a folded chain keep out of each other's way.

use vstd::prelude::*;

use crate::fold::plan::{
    band_from, count_inside, count_turns, inside, place_of_edge, position, turns, PlaceView,
};
use crate::model::{Edge, EdgeKind};

verus! {

proof fn lemma_counts(
    run: Seq<int>,
    bands: Seq<(int, int)>,
    edges: Seq<Edge>,
    k: int,
    i: int,
    j: int,
)
    requires
        0 <= i <= j <= edges.len(),
    ensures
        count_inside(run, bands, edges.take(i), k) <= count_inside(run, bands, edges.take(j), k),
        count_turns(run, bands, edges.take(i), k) <= count_turns(run, bands, edges.take(j), k),
        i < j && inside(run, bands, edges[i], k) ==> count_inside(run, bands, edges.take(i), k)
            < count_inside(run, bands, edges.take(j), k),
        i < j && turns(run, bands, edges[i], k) ==> count_turns(run, bands, edges.take(i), k)
            < count_turns(run, bands, edges.take(j), k),
    decreases j,
{
    if i < j {
        lemma_counts(run, bands, edges, k, i, j - 1);
        assert(edges.take(j).drop_last() =~= edges.take(j - 1));
        assert(edges.take(j).last() == edges[j - 1]);
    }
}

/// No two edges that are drawn run in one place, and of two in one band or
/// around one fold the later one runs behind or outside the earlier.
pub proof fn law_edges_share_no_place(
    run: Seq<int>,
    bands: Seq<(int, int)>,
    edges: Seq<Edge>,
    i: int,
    j: int,
)
    requires
        0 <= i < j < edges.len(),
    ensures
        match (place_of_edge(run, bands, edges, i), place_of_edge(run, bands, edges, j)) {
            (PlaceView::Inside(a, m), PlaceView::Inside(b, n)) => a == b ==> m < n,
            (PlaceView::Turn(a, m), PlaceView::Turn(b, n)) => a == b ==> m < n,
            _ => true,
        },
        place_of_edge(run, bands, edges, i) == place_of_edge(run, bands, edges, j) ==> place_of_edge(
            run,
            bands,
            edges,
            i,
        ) is Hidden,
{
    match place_of_edge(run, bands, edges, i) {
        PlaceView::Inside(a, _) => {
            lemma_counts(run, bands, edges, a, i, j);
        },
        PlaceView::Turn(a, _) => {
            lemma_counts(run, bands, edges, a, i, j);
        },
        PlaceView::Hidden => {},
    }
}

proof fn lemma_band_from(bands: Seq<(int, int)>, p: int, k: int, b: int)
    requires
        0 <= k <= b < bands.len(),
        bands[b].0 <= p <= bands[b].1,
    ensures
        ({
            let r = band_from(bands, p, k);
            k <= r <= b && bands[r].0 <= p <= bands[r].1
        }),
    decreases b - k,
{
    if !(bands[k].0 <= p <= bands[k].1) {
        lemma_band_from(bands, p, k + 1, b);
    }
}

/// An edge runs inside a band just where the band holds both of its ends,
/// and around the fold behind the earlier of two bands where it leads from
/// one to another and is drawn. Bands are given as stretches of the run
/// that share no position.
pub proof fn law_edges_run_where_their_ends_are(
    run: Seq<int>,
    bands: Seq<(int, int)>,
    edges: Seq<Edge>,
    i: int,
    a: int,
    b: int,
)
    requires
        0 <= i < edges.len(),
        0 <= a < bands.len(),
        0 <= b < bands.len(),
        bands[a].0 <= position(run, edges[i].from as int) <= bands[a].1,
        bands[b].0 <= position(run, edges[i].to as int) <= bands[b].1,
        forall|p: int, q: int| 0 <= p < q < bands.len() ==> (#[trigger] bands[p]).1 < (#[trigger] bands[q]).0,
    ensures
        match place_of_edge(run, bands, edges, i) {
            PlaceView::Inside(k, _) => a == b && b == k,
            PlaceView::Turn(k, _) => a != b && edges[i].kind != EdgeKind::Invisible && k == (if a < b {
                a
            } else {
                b
            }),
            PlaceView::Hidden => a != b && edges[i].kind == EdgeKind::Invisible,
        },
{
    let p = position(run, edges[i].from as int);
    let q = position(run, edges[i].to as int);
    lemma_band_from(bands, p, 0, a);
    lemma_band_from(bands, q, 0, b);
    let (x, y) = (band_from(bands, p, 0), band_from(bands, q, 0));
    if x < a {
        assert(bands[x].1 < bands[a].0);
    }
    if y < b {
        assert(bands[y].1 < bands[b].0);
    }
}

} // verus!
