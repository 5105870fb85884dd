//! Whether and where a graph is folded, and where its edges then run.

use crate::fold::chain::{chain_run, edges_exist, run_of};
use crate::fold::points::{band_views, fold_points, folded, lengths, Strip, MAX_BUDGET, MAX_RUN};
use crate::fold::{CompactOptions, FoldSkip};
use crate::model::{Edge, EdgeKind, Graph};
use crate::peel::indices;
use crate::peel_laws::arrangement;
use vstd::prelude::*;

verus! {

/// The position of node `v` in a run.
pub open spec fn position(run: Seq<int>, v: int) -> int {
    run.index_of(v)
}

/// Whether an edge carries a label across the gap behind position `i` of
/// `run`.
pub open spec fn labels_gap(run: Seq<int>, e: Edge, i: int) -> bool {
    let a = position(run, e.from as int);
    let b = position(run, e.to as int);
    e.label is Some && ((a == i && b == i + 1) || (b == i && a == i + 1))
}

/// Whether some edge carries a label across the gap behind position `i`.
pub open spec fn gap_labelled(edges: Seq<Edge>, run: Seq<int>, i: int) -> bool {
    exists|k: int| 0 <= k < edges.len() && labels_gap(run, #[trigger] edges[k], i)
}

/// The gaps of a run that carry a label.
pub open spec fn gaps(edges: Seq<Edge>, run: Seq<int>) -> Seq<bool> {
    Seq::new((run.len() - 1) as nat, |i: int| gap_labelled(edges, run, i))
}

proof fn lemma_position(run: Seq<int>, i: int)
    requires
        run.no_duplicates(),
        0 <= i < run.len(),
    ensures
        position(run, run[i]) == i,
{
    let v = run[i];
    assert(run.contains(v));
    let k = run.index_of(v);
    assert(run[k] == v);
}

fn positions(run: &Vec<usize>) -> (r: Vec<usize>)
    requires
        arrangement(indices(run@), run@.len() as int),
    ensures
        r@.len() == run@.len(),
        forall|v: int| 0 <= v < r@.len() ==> #[trigger] r@[v] == position(indices(run@), v),
        forall|v: int| 0 <= v < r@.len() ==> #[trigger] r@[v] < run@.len(),
{
    let ghost o = indices(run@);
    let n: usize = run.len();
    let mut r: Vec<usize> = Vec::new();
    while r.len() < n
        invariant
            r@.len() <= n,
        decreases n - r@.len(),
    {
        r.push(0);
    }
    let mut i: usize = 0;
    while i < n
        invariant
            n == run@.len(),
            o == indices(run@),
            arrangement(o, n as int),
            i <= n,
            r@.len() == n,
            forall|k: int| 0 <= k < i ==> r@[#[trigger] o[k]] == k,
        decreases n - i,
    {
        assert(o[i as int] == run@[i as int]);
        let ghost before = r@;
        r.set(run[i], i);
        assert forall|k: int| 0 <= k < i + 1 implies r@[#[trigger] o[k]] == k by {
            if k < i {
                assert(o[k] != o[i as int]);
            }
        }
        i += 1;
    }
    proof {
        crate::peel_laws::lemma_covers(o, n as int);
        assert forall|v: int| 0 <= v < n implies #[trigger] r@[v] == position(o, v) && r@[v] < n by {
            assert(o.contains(v));
            let k = choose|k: int| 0 <= k < o.len() && o[k] == v;
            lemma_position(o, k);
            assert(r@[o[k]] == k);
        }
    }
    r
}

/// Which gaps between neighbours of a run carry a label.
pub fn labelled_gaps(g: &Graph, run: &Vec<usize>) -> (r: Vec<bool>)
    requires
        edges_exist(*g),
        run@.len() == g.nodes@.len(),
        run@.len() > 0,
        arrangement(indices(run@), run@.len() as int),
    ensures
        r@ == gaps(g.edges@, indices(run@)),
{
    let n: usize = run.len();
    let ghost o = indices(run@);
    let pos = positions(run);
    let mut r: Vec<bool> = Vec::new();
    while r.len() < n - 1
        invariant
            n > 0,
            r@.len() <= n - 1,
            forall|i: int| 0 <= i < r@.len() ==> !(#[trigger] r@[i]),
        decreases n - 1 - r@.len(),
    {
        r.push(false);
    }
    let mut k: usize = 0;
    while k < g.edges.len()
        invariant
            n == run@.len(),
            n == g.nodes@.len(),
            n > 0,
            o == indices(run@),
            edges_exist(*g),
            pos@.len() == n,
            forall|v: int| 0 <= v < n ==> #[trigger] pos@[v] == position(o, v),
            forall|v: int| 0 <= v < n ==> #[trigger] pos@[v] < n,
            k <= g.edges@.len(),
            r@.len() == n - 1,
            forall|i: int|
                0 <= i < n - 1 ==> #[trigger] r@[i] == gap_labelled(g.edges@.take(k as int), o, i),
        decreases g.edges@.len() - k,
    {
        let e = &g.edges[k];
        assert(g.edges@[k as int].from < n && g.edges@[k as int].to < n);
        let a: usize = pos[e.from];
        let b: usize = pos[e.to];
        let ghost before = r@;
        if e.label.is_some() {
            if a < b && b - a == 1 {
                r.set(a, true);
            } else if b < a && a - b == 1 {
                r.set(b, true);
            }
        }
        proof {
            let old_edges = g.edges@.take(k as int);
            let new_edges = g.edges@.take(k + 1);
            assert(new_edges[k as int] == *e);
            assert forall|i: int| 0 <= i < n - 1 implies #[trigger] r@[i] == gap_labelled(
                new_edges,
                o,
                i,
            ) by {
                assert(before[i] == gap_labelled(old_edges, o, i));
                if gap_labelled(old_edges, o, i) {
                    let q = choose|q: int|
                        0 <= q < old_edges.len() && labels_gap(o, #[trigger] old_edges[q], i);
                    assert(new_edges[q] == old_edges[q]);
                }
                if labels_gap(o, *e, i) {
                    assert(labels_gap(o, new_edges[k as int], i));
                }
                if gap_labelled(new_edges, o, i) && !labels_gap(o, *e, i) {
                    let q = choose|q: int|
                        0 <= q < new_edges.len() && labels_gap(o, #[trigger] new_edges[q], i);
                    assert(old_edges[q] == new_edges[q]);
                }
            }
        }
        k += 1;
    }
    assert(g.edges@.take(g.edges@.len() as int) =~= g.edges@);
    assert(r@ =~= gaps(g.edges@, o));
    r
}

/// A folded chain: its nodes in order, and its bands as ranges of positions
/// that hold both ends.
#[derive(Debug)]
pub struct Fold {
    pub run: Vec<usize>,
    pub bands: Vec<(usize, usize)>,
}

/// The run of a graph as a strip to fold.
pub open spec fn strip_of(edges: Seq<Edge>, run: Seq<int>, flow: Seq<u64>, budget: int) -> Strip {
    Strip {
        ext: Seq::new(run.len(), |i: int| flow[run[i]] as int),
        labelled: gaps(edges, run),
        budget,
    }
}

/// The run and the bands of a graph whose ordinary layout is `extent` long,
/// or the reason it is not folded.
pub open spec fn fold_of(g: Graph, flow: Seq<u64>, extent: u64, opts: CompactOptions) -> Result<
    (Seq<int>, Seq<(int, int)>),
    FoldSkip,
> {
    if extent <= opts.max_extent {
        Err(FoldSkip::AlreadyFits)
    } else {
        match run_of(g) {
            Err(why) => Err(why),
            Ok(run) => if run.len() < opts.min_run || run.len() < 2 {
                Err(FoldSkip::TooShort)
            } else {
                match folded(strip_of(g.edges@, run, flow, opts.max_extent as int)) {
                    Err(why) => Err(why),
                    Ok(bands) => if bands.len() <= 1 {
                        Err(FoldSkip::AlreadyFits)
                    } else {
                        Ok((run, bands))
                    },
                }
            },
        }
    }
}

/// Decide whether and where a graph is folded. `flow` holds the flow extent
/// of each node, `extent` that of the ordinary layout.
pub fn plan_fold(g: &Graph, flow: &Vec<u64>, extent: u64, opts: &CompactOptions) -> (r: Result<
    Fold,
    FoldSkip,
>)
    requires
        edges_exist(*g),
        flow@.len() == g.nodes@.len(),
        flow@.len() <= MAX_RUN,
        opts.max_extent <= MAX_BUDGET,
    ensures
        match r {
            Ok(f) => fold_of(*g, flow@, extent, *opts) == Ok::<
                (Seq<int>, Seq<(int, int)>),
                FoldSkip,
            >((indices(f.run@), band_views(f.bands@))),
            Err(why) => fold_of(*g, flow@, extent, *opts) == Err::<
                (Seq<int>, Seq<(int, int)>),
                FoldSkip,
            >(why),
        },
{
    if extent <= opts.max_extent {
        return Err(FoldSkip::AlreadyFits);
    }
    let run = match chain_run(g) {
        Ok(run) => run,
        Err(why) => return Err(why),
    };
    let ghost o = indices(run@);
    proof {
        crate::fold::chain_laws::law_run_follows_the_edges(*g);
    }
    if run.len() < opts.min_run || run.len() < 2 {
        return Err(FoldSkip::TooShort);
    }
    let n: usize = run.len();
    let mut ext: Vec<u64> = Vec::new();
    let mut i: usize = 0;
    while i < n
        invariant
            i <= n,
            n == run@.len(),
            o == indices(run@),
            arrangement(o, n as int),
            flow@.len() == n,
            ext@.len() == i,
            forall|k: int| 0 <= k < i ==> #[trigger] ext@[k] == flow@[o[k]],
        decreases n - i,
    {
        assert(o[i as int] == run@[i as int]);
        ext.push(flow[run[i]]);
        i += 1;
    }
    let labelled = labelled_gaps(g, &run);
    let ghost s = strip_of(g.edges@, o, flow@, opts.max_extent as int);
    assert(lengths(ext@) =~= s.ext);
    match fold_points(&ext, &labelled, opts.max_extent) {
        Ok(bands) => {
            if bands.len() <= 1 {
                Err(FoldSkip::AlreadyFits)
            } else {
                Ok(Fold { run, bands })
            }
        },
        Err(why) => Err(why),
    }
}

/// Where an edge of a folded chain runs.
#[derive(Debug, Clone, Copy, PartialEq, Eq, Structural)]
pub enum EdgePlace {
    /// Inside a band, as the edge with this number of it.
    Inside { band: usize, index: usize },
    /// Around the fold behind a band, in this lane.
    Turn { gutter: usize, lane: usize },
    /// Across bands, and never drawn.
    Hidden,
}

/// An [`EdgePlace`] in mathematical terms.
pub enum PlaceView {
    Inside(int, int),
    Turn(int, int),
    Hidden,
}

/// The first band that holds position `p`.
pub open spec fn band_from(bands: Seq<(int, int)>, p: int, k: int) -> int
    decreases bands.len() - k,
{
    if k < 0 || k >= bands.len() || bands[k].0 <= p <= bands[k].1 {
        k
    } else {
        band_from(bands, p, k + 1)
    }
}

/// The band that holds node `v`.
pub open spec fn band_of(run: Seq<int>, bands: Seq<(int, int)>, v: int) -> int {
    band_from(bands, position(run, v), 0)
}

/// Whether an edge stays inside band `k`.
pub open spec fn inside(run: Seq<int>, bands: Seq<(int, int)>, e: Edge, k: int) -> bool {
    band_of(run, bands, e.from as int) == k && band_of(run, bands, e.to as int) == k
}

/// Whether an edge is drawn around the fold behind band `k`.
pub open spec fn turns(run: Seq<int>, bands: Seq<(int, int)>, e: Edge, k: int) -> bool {
    let a = band_of(run, bands, e.from as int);
    let b = band_of(run, bands, e.to as int);
    a != b && e.kind != EdgeKind::Invisible && k == (if a < b {
        a
    } else {
        b
    })
}

/// How many of the edges stay inside band `k`.
pub open spec fn count_inside(
    run: Seq<int>,
    bands: Seq<(int, int)>,
    edges: Seq<Edge>,
    k: int,
) -> int
    decreases edges.len(),
{
    if edges.len() == 0 {
        0
    } else {
        count_inside(run, bands, edges.drop_last(), k) + (if inside(run, bands, edges.last(), k) {
            1int
        } else {
            0
        })
    }
}

/// How many of the edges are drawn around the fold behind band `k`.
pub open spec fn count_turns(
    run: Seq<int>,
    bands: Seq<(int, int)>,
    edges: Seq<Edge>,
    k: int,
) -> int
    decreases edges.len(),
{
    if edges.len() == 0 {
        0
    } else {
        count_turns(run, bands, edges.drop_last(), k) + (if turns(run, bands, edges.last(), k) {
            1int
        } else {
            0
        })
    }
}

/// Where edge `i` runs: inside its band, behind the earlier edges of that
/// band, or around the fold, outside the earlier edges there.
pub open spec fn place_of_edge(
    run: Seq<int>,
    bands: Seq<(int, int)>,
    edges: Seq<Edge>,
    i: int,
) -> PlaceView {
    let e = edges[i];
    let a = band_of(run, bands, e.from as int);
    let b = band_of(run, bands, e.to as int);
    if a == b {
        PlaceView::Inside(a, count_inside(run, bands, edges.take(i), a))
    } else if e.kind == EdgeKind::Invisible {
        PlaceView::Hidden
    } else {
        let gutter = if a < b {
            a
        } else {
            b
        };
        PlaceView::Turn(gutter, count_turns(run, bands, edges.take(i), gutter))
    }
}

impl View for EdgePlace {
    type V = PlaceView;

    open spec fn view(&self) -> PlaceView {
        match self {
            EdgePlace::Inside { band, index } => PlaceView::Inside(*band as int, *index as int),
            EdgePlace::Turn { gutter, lane } => PlaceView::Turn(*gutter as int, *lane as int),
            EdgePlace::Hidden => PlaceView::Hidden,
        }
    }
}

fn find_band(bands: &Vec<(usize, usize)>, p: usize) -> (r: usize)
    ensures
        r == band_from(band_views(bands@), p as int, 0),
        r <= bands@.len(),
{
    let ghost b = band_views(bands@);
    let mut k: usize = 0;
    while k < bands.len()
        invariant
            k <= bands@.len(),
            b == band_views(bands@),
            band_from(b, p as int, 0) == band_from(b, p as int, k as int),
        decreases bands@.len() - k,
    {
        assert(b[k as int] == (bands@[k as int].0 as int, bands@[k as int].1 as int));
        if bands[k].0 <= p && p <= bands[k].1 {
            return k;
        }
        k += 1;
    }
    k
}

fn zeros(n: usize) -> (r: Vec<usize>)
    ensures
        r@.len() == n,
        forall|i: int| 0 <= i < n ==> #[trigger] r@[i] == 0,
{
    let mut r: Vec<usize> = Vec::new();
    while r.len() < n
        invariant
            r@.len() <= n,
            forall|i: int| 0 <= i < r@.len() ==> #[trigger] r@[i] == 0,
        decreases n - r@.len(),
    {
        r.push(0);
    }
    r
}

/// Where each edge of a folded chain runs.
pub fn place_edges(g: &Graph, f: &Fold) -> (r: Vec<EdgePlace>)
    requires
        edges_exist(*g),
        f.run@.len() == g.nodes@.len(),
        arrangement(indices(f.run@), f.run@.len() as int),
        f.bands@.len() < usize::MAX,
    ensures
        r@.len() == g.edges@.len(),
        forall|i: int|
            0 <= i < r@.len() ==> (#[trigger] r@[i])@ == place_of_edge(
                indices(f.run@),
                band_views(f.bands@),
                g.edges@,
                i,
            ),
{
    let ghost o = indices(f.run@);
    let ghost b = band_views(f.bands@);
    let n: usize = f.run.len();
    let pos = positions(&f.run);
    let nb: usize = f.bands.len();
    let mut held: Vec<usize> = zeros(nb + 1);
    let mut lanes: Vec<usize> = zeros(nb + 1);
    let mut r: Vec<EdgePlace> = Vec::new();
    let mut i: usize = 0;
    assert forall|k: int| 0 <= k <= nb implies #[trigger] held@[k] == count_inside(
        o,
        b,
        g.edges@.take(0),
        k,
    ) by {}
    assert forall|k: int| 0 <= k <= nb implies #[trigger] lanes@[k] == count_turns(
        o,
        b,
        g.edges@.take(0),
        k,
    ) by {}
    while i < g.edges.len()
        invariant
            edges_exist(*g),
            n == g.nodes@.len(),
            n == f.run@.len(),
            o == indices(f.run@),
            b == band_views(f.bands@),
            nb == f.bands@.len(),
            pos@.len() == n,
            forall|v: int| 0 <= v < n ==> #[trigger] pos@[v] == position(o, v),
            i <= g.edges@.len(),
            held@.len() == nb + 1,
            lanes@.len() == nb + 1,
            forall|k: int|
                0 <= k <= nb ==> #[trigger] held@[k] == count_inside(
                    o,
                    b,
                    g.edges@.take(i as int),
                    k,
                ) && held@[k] <= i,
            forall|k: int|
                0 <= k <= nb ==> #[trigger] lanes@[k] == count_turns(
                    o,
                    b,
                    g.edges@.take(i as int),
                    k,
                ) && lanes@[k] <= i,
            r@.len() == i,
            forall|k: int|
                0 <= k < i ==> (#[trigger] r@[k])@ == place_of_edge(o, b, g.edges@, k),
        decreases g.edges@.len() - i,
    {
        let e = &g.edges[i];
        assert(g.edges@[i as int].from < n && g.edges@[i as int].to < n);
        let from: usize = find_band(&f.bands, pos[e.from]);
        let to: usize = find_band(&f.bands, pos[e.to]);
        assert(from == band_of(o, b, e.from as int));
        assert(to == band_of(o, b, e.to as int));
        let ghost held_before = held@;
        let ghost lanes_before = lanes@;
        let invisible = match e.kind {
            EdgeKind::Invisible => true,
            _ => false,
        };
        let place = if from == to {
            let index: usize = held[from];
            held.set(from, index + 1);
            EdgePlace::Inside { band: from, index }
        } else if invisible {
            EdgePlace::Hidden
        } else {
            let gutter: usize = if from < to {
                from
            } else {
                to
            };
            let lane: usize = lanes[gutter];
            lanes.set(gutter, lane + 1);
            EdgePlace::Turn { gutter, lane }
        };
        assert(place@ == place_of_edge(o, b, g.edges@, i as int));
        r.push(place);
        proof {
            assert(g.edges@.take(i + 1).drop_last() =~= g.edges@.take(i as int));
            assert(g.edges@.take(i + 1).last() == *e);
            assert forall|k: int| 0 <= k <= nb implies #[trigger] held@[k] == count_inside(
                o,
                b,
                g.edges@.take(i + 1),
                k,
            ) && held@[k] <= i + 1 by {
                assert(held_before[k] == count_inside(o, b, g.edges@.take(i as int), k));
            }
            assert forall|k: int| 0 <= k <= nb implies #[trigger] lanes@[k] == count_turns(
                o,
                b,
                g.edges@.take(i + 1),
                k,
            ) && lanes@[k] <= i + 1 by {
                assert(lanes_before[k] == count_turns(o, b, g.edges@.take(i as int), k));
            }
        }
        i += 1;
    }
    r
}

} // verus!
