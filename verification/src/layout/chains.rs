//! Long edges as chains of stand-ins.
//!
//! An edge over more than one layer is cut into pieces of one layer each.
//! Between the pieces stand-in nodes take part in the ordering like any
//! other node, so that the edge keeps a channel of its own.

use vstd::prelude::*;

use crate::peel::{indices, pair_ints};

verus! {

/// A layered graph: the layer of each node, and its neighbours in earlier
/// and later layers.
#[verifier::ext_equal]
pub struct Aug {
    pub layer: Seq<int>,
    pub preds: Seq<Seq<int>>,
    pub succs: Seq<Seq<int>>,
}

/// The graph with a link from `u` down to `v`.
pub open spec fn link(a: Aug, u: int, v: int) -> Aug {
    Aug {
        succs: a.succs.update(u, a.succs[u].push(v)),
        preds: a.preds.update(v, a.preds[v].push(u)),
        ..a
    }
}

/// The graph with one more node, in layer `lay`.
pub open spec fn grow(a: Aug, lay: int) -> Aug {
    Aug {
        layer: a.layer.push(lay),
        preds: a.preds.push(Seq::empty()),
        succs: a.succs.push(Seq::empty()),
    }
}

/// The graph with a chain of stand-ins below `prev`, one in each layer from
/// `lay` on and before `stop`; then the last node of the chain.
pub open spec fn string(a: Aug, prev: int, lay: int, stop: int) -> (Aug, int)
    decreases stop - lay,
{
    if lay >= stop {
        (a, prev)
    } else {
        string(link(grow(a, lay), prev, a.layer.len() as int), a.layer.len() as int, lay + 1, stop)
    }
}

/// The numbers of `count` nodes from `first` on, downwards or upwards.
pub open spec fn run_of(first: int, count: int, ascending: bool) -> Seq<int> {
    Seq::new(
        count as nat,
        |i: int|
            if ascending {
                first + i
            } else {
                first + count - 1 - i
            },
    )
}

/// The graph with the edge from `from` to `to`, and the stand-ins of that
/// edge in its own direction. A `direct` edge gets none.
pub open spec fn add_edge(a: Aug, from: int, to: int, direct: bool) -> (Aug, Seq<int>) {
    let ascending = a.layer[from] <= a.layer[to];
    let (lo, hi) = if ascending {
        (from, to)
    } else {
        (to, from)
    };
    let (llo, lhi) = (a.layer[lo], a.layer[hi]);
    if from == to || llo == lhi {
        (a, Seq::empty())
    } else if lhi <= llo + 1 || direct {
        (link(a, lo, hi), Seq::empty())
    } else {
        let (b, last) = string(a, lo, llo + 1, lhi);
        (link(b, last, hi), run_of(a.layer.len() as int, lhi - llo - 1, ascending))
    }
}

/// The graph with the first `k` edges, and their chains.
pub open spec fn with_edges(
    a: Aug,
    ends: Seq<(int, int)>,
    direct: Seq<bool>,
    k: int,
) -> (Aug, Seq<Seq<int>>)
    decreases k,
{
    if k <= 0 {
        (a, Seq::empty())
    } else {
        let (b, chains) = with_edges(a, ends, direct, k - 1);
        let (c, chain) = add_edge(b, ends[k - 1].0, ends[k - 1].1, direct[k - 1]);
        (c, chains.push(chain))
    }
}

/// The graph of the real nodes, without edges.
pub open spec fn bare_layers(layer: Seq<int>) -> Aug {
    Aug {
        layer,
        preds: Seq::new(layer.len(), |i: int| Seq::empty()),
        succs: Seq::new(layer.len(), |i: int| Seq::empty()),
    }
}

/// Whether all links lead from an earlier to a later layer, and both of
/// their ends know them.
pub open spec fn leads_down(a: Aug) -> bool {
    &&& a.preds.len() == a.layer.len()
    &&& a.succs.len() == a.layer.len()
    &&& forall|u: int, i: int|
        #![trigger a.succs[u][i]]
        0 <= u < a.layer.len() && 0 <= i < a.succs[u].len() ==> 0 <= a.succs[u][i] < a.layer.len()
            && a.layer[u] < a.layer[a.succs[u][i]] && a.preds[a.succs[u][i]].contains(u)
    &&& forall|v: int, i: int|
        #![trigger a.preds[v][i]]
        0 <= v < a.layer.len() && 0 <= i < a.preds[v].len() ==> 0 <= a.preds[v][i] < a.layer.len()
            && a.layer[a.preds[v][i]] < a.layer[v] && a.succs[a.preds[v][i]].contains(v)
}

proof fn lemma_link(a: Aug, u: int, v: int)
    requires
        leads_down(a),
        0 <= u < a.layer.len(),
        0 <= v < a.layer.len(),
        a.layer[u] < a.layer[v],
    ensures
        leads_down(link(a, u, v)),
{
    let b = link(a, u, v);
    assert(b.succs[u].last() == v && b.succs[u][a.succs[u].len() as int] == v);
    assert(b.preds[v].last() == u && b.preds[v][a.preds[v].len() as int] == u);
    assert forall|x: int, i: int|
        #![trigger b.succs[x][i]]
        0 <= x < b.layer.len() && 0 <= i < b.succs[x].len() implies 0 <= b.succs[x][i]
        < b.layer.len() && b.layer[x] < b.layer[b.succs[x][i]] && b.preds[b.succs[x][i]].contains(
        x,
    ) by {
        let y = b.succs[x][i];
        if x != u || i < a.succs[u].len() {
            assert(a.succs[x][i] == y);
            assert(a.preds[y].contains(x));
            let j = choose|j: int| 0 <= j < a.preds[y].len() && a.preds[y][j] == x;
            assert(b.preds[y][j] == x);
        }
    }
    assert forall|y: int, i: int|
        #![trigger b.preds[y][i]]
        0 <= y < b.layer.len() && 0 <= i < b.preds[y].len() implies 0 <= b.preds[y][i]
        < b.layer.len() && b.layer[b.preds[y][i]] < b.layer[y] && b.succs[b.preds[y][i]].contains(
        y,
    ) by {
        let x = b.preds[y][i];
        if y != v || i < a.preds[v].len() {
            assert(a.preds[y][i] == x);
            assert(a.succs[x].contains(y));
            let j = choose|j: int| 0 <= j < a.succs[x].len() && a.succs[x][j] == y;
            assert(b.succs[x][j] == y);
        }
    }
}

proof fn lemma_grow(a: Aug, lay: int)
    requires
        leads_down(a),
    ensures
        leads_down(grow(a, lay)),
{
    let b = grow(a, lay);
    assert forall|x: int, i: int|
        #![trigger b.succs[x][i]]
        0 <= x < b.layer.len() && 0 <= i < b.succs[x].len() implies 0 <= b.succs[x][i]
        < b.layer.len() && b.layer[x] < b.layer[b.succs[x][i]] && b.preds[b.succs[x][i]].contains(
        x,
    ) by {
        assert(a.succs[x][i] == b.succs[x][i]);
    }
    assert forall|y: int, i: int|
        #![trigger b.preds[y][i]]
        0 <= y < b.layer.len() && 0 <= i < b.preds[y].len() implies 0 <= b.preds[y][i]
        < b.layer.len() && b.layer[b.preds[y][i]] < b.layer[y] && b.succs[b.preds[y][i]].contains(
        y,
    ) by {
        assert(a.preds[y][i] == b.preds[y][i]);
    }
}

/// What stringing a chain gives: one new node in each layer, and the last
/// of them in the layer before `stop`.
pub proof fn lemma_string(a: Aug, prev: int, lay: int, stop: int)
    requires
        leads_down(a),
        0 <= prev < a.layer.len(),
        a.layer[prev] == lay - 1,
        lay <= stop,
    ensures
        ({
            let (b, last) = string(a, prev, lay, stop);
            &&& leads_down(b)
            &&& b.layer.len() == a.layer.len() + (stop - lay)
            &&& forall|i: int| 0 <= i < a.layer.len() ==> #[trigger] b.layer[i] == a.layer[i]
            &&& forall|i: int|
                a.layer.len() <= i < b.layer.len() ==> #[trigger] b.layer[i] == lay + (i
                    - a.layer.len())
            &&& 0 <= last < b.layer.len()
            &&& b.layer[last] == stop - 1
        }),
    decreases stop - lay,
{
    if lay < stop {
        let d = a.layer.len() as int;
        let g = grow(a, lay);
        lemma_grow(a, lay);
        lemma_link(g, prev, d);
        let c = link(g, prev, d);
        assert(c.layer =~= a.layer.push(lay));
        lemma_string(c, d, lay + 1, stop);
        let (b, last) = string(a, prev, lay, stop);
        assert(b == string(c, d, lay + 1, stop).0);
        assert forall|i: int| 0 <= i < a.layer.len() implies #[trigger] b.layer[i] == a.layer[i] by {
            assert(c.layer[i] == a.layer[i]);
        }
        assert forall|i: int| a.layer.len() <= i < b.layer.len() implies #[trigger] b.layer[i]
            == lay + (i - a.layer.len()) by {
            if i == d {
                assert(c.layer[d] == lay);
            }
        }
    }
}

pub proof fn lemma_add_edge(a: Aug, from: int, to: int, direct: bool)
    requires
        leads_down(a),
        0 <= from < a.layer.len(),
        0 <= to < a.layer.len(),
    ensures
        leads_down(add_edge(a, from, to, direct).0),
        add_edge(a, from, to, direct).0.layer.len() >= a.layer.len(),
        forall|i: int|
            0 <= i < a.layer.len() ==> #[trigger] add_edge(a, from, to, direct).0.layer[i]
                == a.layer[i],
{
    let ascending = a.layer[from] <= a.layer[to];
    let (lo, hi) = if ascending {
        (from, to)
    } else {
        (to, from)
    };
    let (llo, lhi) = (a.layer[lo], a.layer[hi]);
    if from != to && llo != lhi {
        if lhi <= llo + 1 || direct {
            lemma_link(a, lo, hi);
        } else {
            lemma_string(a, lo, llo + 1, lhi);
            let (b, last) = string(a, lo, llo + 1, lhi);
            lemma_link(b, last, hi);
        }
    }
}

/// Adding the edges keeps the layers of the real nodes, and all links lead
/// downwards.
pub proof fn law_links_lead_down(
    layer: Seq<int>,
    ends: Seq<(int, int)>,
    direct: Seq<bool>,
    k: int,
)
    requires
        0 <= k <= ends.len(),
        forall|i: int|
            0 <= i < ends.len() ==> 0 <= (#[trigger] ends[i]).0 < layer.len() && 0 <= ends[i].1
                < layer.len(),
    ensures
        leads_down(with_edges(bare_layers(layer), ends, direct, k).0),
        with_edges(bare_layers(layer), ends, direct, k).0.layer.len() >= layer.len(),
        forall|i: int|
            0 <= i < layer.len() ==> #[trigger] with_edges(
                bare_layers(layer),
                ends,
                direct,
                k,
            ).0.layer[i] == layer[i],
    decreases k,
{
    if k > 0 {
        law_links_lead_down(layer, ends, direct, k - 1);
        let b = with_edges(bare_layers(layer), ends, direct, k - 1).0;
        lemma_add_edge(b, ends[k - 1].0, ends[k - 1].1, direct[k - 1]);
        let c = with_edges(bare_layers(layer), ends, direct, k).0;
        assert forall|i: int| 0 <= i < layer.len() implies #[trigger] c.layer[i] == layer[i] by {
            assert(b.layer[i] == layer[i]);
        }
    }
}

/// The stand-ins of a long edge lie one in each layer between its ends, in
/// the order of the edge.
pub proof fn law_chain_is_unbroken(a: Aug, from: int, to: int, direct: bool)
    requires
        leads_down(a),
        0 <= from < a.layer.len(),
        0 <= to < a.layer.len(),
    ensures
        ({
            let (b, chain) = add_edge(a, from, to, direct);
            &&& chain.len() > 0 ==> chain.len() == if a.layer[from] < a.layer[to] {
                a.layer[to] - a.layer[from] - 1
            } else {
                a.layer[from] - a.layer[to] - 1
            }
            &&& forall|i: int|
                0 <= i < chain.len() ==> 0 <= #[trigger] chain[i] < b.layer.len()
                    && b.layer[chain[i]] == if a.layer[from] < a.layer[to] {
                    a.layer[from] + 1 + i
                } else {
                    a.layer[from] - 1 - i
                }
        }),
{
    let ascending = a.layer[from] <= a.layer[to];
    let (lo, hi) = if ascending {
        (from, to)
    } else {
        (to, from)
    };
    let (llo, lhi) = (a.layer[lo], a.layer[hi]);
    if from != to && llo + 1 < lhi && !direct {
        lemma_string(a, lo, llo + 1, lhi);
    }
}

pub open spec fn lists(s: Seq<Vec<usize>>) -> Seq<Seq<int>> {
    s.map_values(|v: Vec<usize>| indices(v@))
}

/// A layered graph.
#[derive(Debug)]
pub struct Augmented {
    pub layer: Vec<usize>,
    pub preds: Vec<Vec<usize>>,
    pub succs: Vec<Vec<usize>>,
}

impl View for Augmented {
    type V = Aug;

    open spec fn view(&self) -> Aug {
        Aug {
            layer: indices(self.layer@),
            preds: lists(self.preds@),
            succs: lists(self.succs@),
        }
    }
}

proof fn lemma_push_to(s: Seq<Vec<usize>>, t: Seq<Vec<usize>>, i: int, x: usize)
    requires
        0 <= i < s.len(),
        t.len() == s.len(),
        forall|j: int| 0 <= j < s.len() && j != i ==> t[j] == s[j],
        t[i]@ == s[i]@.push(x),
    ensures
        lists(t) == lists(s).update(i, lists(s)[i].push(x as int)),
{
    assert(indices(t[i]@) =~= indices(s[i]@).push(x as int));
    assert(lists(t) =~= lists(s).update(i, lists(s)[i].push(x as int)));
}

impl Augmented {
    /// The real nodes without edges.
    pub fn new(layer: &Vec<usize>) -> (r: Self)
        ensures
            r@ == bare_layers(indices(layer@)),
            leads_down(r@),
    {
        let n: usize = layer.len();
        let mut preds: Vec<Vec<usize>> = Vec::new();
        let mut succs: Vec<Vec<usize>> = Vec::new();
        let mut own: Vec<usize> = Vec::new();
        let mut i: usize = 0;
        while i < n
            invariant
                i <= n,
                n == layer@.len(),
                preds@.len() == i,
                succs@.len() == i,
                own@ == layer@.take(i as int),
                forall|j: int| 0 <= j < i ==> (#[trigger] preds@[j])@.len() == 0,
                forall|j: int| 0 <= j < i ==> (#[trigger] succs@[j])@.len() == 0,
            decreases n - i,
        {
            preds.push(Vec::new());
            succs.push(Vec::new());
            own.push(layer[i]);
            assert(own@ =~= layer@.take(i as int + 1));
            i += 1;
        }
        let r = Augmented { layer: own, preds, succs };
        proof {
            assert(own@ =~= layer@);
            let want = bare_layers(indices(layer@));
            assert forall|j: int| 0 <= j < n implies lists(preds@)[j] =~= want.preds[j] by {
                assert(preds@[j]@.len() == 0);
            }
            assert forall|j: int| 0 <= j < n implies lists(succs@)[j] =~= want.succs[j] by {
                assert(succs@[j]@.len() == 0);
            }
            assert(lists(preds@) =~= want.preds);
            assert(lists(succs@) =~= want.succs);
            assert(r@ =~= want);
        }
        r
    }

    pub fn link(&mut self, u: usize, v: usize)
        requires
            leads_down(old(self)@),
            u < old(self)@.layer.len(),
            v < old(self)@.layer.len(),
            old(self)@.layer[u as int] < old(self)@.layer[v as int],
        ensures
            final(self)@ == link(old(self)@, u as int, v as int),
            leads_down(final(self)@),
    {
        let ghost s0 = self.succs@;
        let ghost p0 = self.preds@;
        self.succs[u].push(v);
        self.preds[v].push(u);
        proof {
            lemma_push_to(s0, self.succs@, u as int, v);
            lemma_push_to(p0, self.preds@, v as int, u);
            lemma_link(old(self)@, u as int, v as int);
        }
    }

    pub fn grow(&mut self, lay: usize) -> (d: usize)
        requires
            leads_down(old(self)@),
        ensures
            final(self)@ == grow(old(self)@, lay as int),
            d == old(self)@.layer.len(),
            leads_down(final(self)@),
    {
        let d: usize = self.layer.len();
        let ghost before = self@;
        let ghost s0 = self.succs@;
        let ghost p0 = self.preds@;
        let ghost l0 = self.layer@;
        self.layer.push(lay);
        let e: Vec<usize> = Vec::new();
        self.preds.push(e);
        let f: Vec<usize> = Vec::new();
        self.succs.push(f);
        proof {
            assert(indices(self.layer@) =~= indices(l0).push(lay as int));
            assert(indices(e@) =~= Seq::<int>::empty());
            assert(indices(f@) =~= Seq::<int>::empty());
            assert(lists(self.preds@) =~= lists(p0).push(Seq::empty()));
            assert(lists(self.succs@) =~= lists(s0).push(Seq::empty()));
            lemma_grow(before, lay as int);
        }
        d
    }

    /// String a chain of stand-ins below `prev`.
    fn string(&mut self, prev: usize, lay: usize, stop: usize) -> (last: usize)
        requires
            leads_down(old(self)@),
            prev < old(self)@.layer.len(),
            old(self)@.layer[prev as int] == lay - 1,
            lay <= stop,
        ensures
            (final(self)@, last as int) == string(
                old(self)@,
                prev as int,
                lay as int,
                stop as int,
            ),
    {
        let ghost want = string(self@, prev as int, lay as int, stop as int);
        let mut at: usize = prev;
        let mut l: usize = lay;
        while l < stop
            invariant
                lay <= l <= stop,
                leads_down(self@),
                at < self@.layer.len(),
                self@.layer[at as int] == l - 1,
                want == string(self@, at as int, l as int, stop as int),
            decreases stop - l,
        {
            let ghost before = self@;
            let d = self.grow(l);
            assert(self@.layer[at as int] == before.layer[at as int]);
            self.link(at, d);
            at = d;
            l += 1;
        }
        at
    }

    /// Add one edge.
    pub fn add_edge(&mut self, from: usize, to: usize, direct: bool) -> (chain: Vec<usize>)
        requires
            leads_down(old(self)@),
            from < old(self)@.layer.len(),
            to < old(self)@.layer.len(),
        ensures
            (final(self)@, indices(chain@)) == add_edge(
                old(self)@,
                from as int,
                to as int,
                direct,
            ),
            leads_down(final(self)@),
    {
        let ghost start = self@;
        proof {
            lemma_add_edge(start, from as int, to as int, direct);
        }
        let none: Vec<usize> = Vec::new();
        assert(indices(none@) =~= Seq::<int>::empty());
        if from == to {
            return none;
        }
        let ascending = self.layer[from] <= self.layer[to];
        let (lo, hi) = if ascending {
            (from, to)
        } else {
            (to, from)
        };
        let llo: usize = self.layer[lo];
        let lhi: usize = self.layer[hi];
        if llo == lhi {
            return none;
        }
        if lhi - llo == 1 || direct {
            self.link(lo, hi);
            return none;
        }
        let first: usize = self.layer.len();
        let count: usize = lhi - llo - 1;
        proof {
            lemma_string(start, lo as int, llo as int + 1, lhi as int);
        }
        let last = self.string(lo, llo + 1, lhi);
        self.link(last, hi);
        let end: usize = self.layer.len();
        let mut chain: Vec<usize> = Vec::new();
        let mut i: usize = 0;
        while i < count
            invariant
                i <= count,
                end == first + count,
                indices(chain@) == run_of(first as int, count as int, ascending).take(i as int),
            decreases count - i,
        {
            let ghost before = chain@;
            let d: usize = if ascending {
                first + i
            } else {
                end - 1 - i
            };
            chain.push(d);
            assert(indices(chain@) =~= indices(before).push(d as int));
            assert(indices(chain@) =~= run_of(first as int, count as int, ascending).take(
                i as int + 1,
            ));
            i += 1;
        }
        assert(run_of(first as int, count as int, ascending).take(count as int) =~= run_of(
            first as int,
            count as int,
            ascending,
        ));
        chain
    }
}

/// The graph of all edges, and the chain of each.
pub fn build_chains(layer: &Vec<usize>, ends: &Vec<(usize, usize)>, direct: &Vec<bool>) -> (r: (
    Augmented,
    Vec<Vec<usize>>,
))
    requires
        direct@.len() == ends@.len(),
        forall|i: int|
            0 <= i < ends@.len() ==> (#[trigger] ends@[i]).0 < layer@.len() && ends@[i].1
                < layer@.len(),
    ensures
        (r.0@, lists(r.1@)) == with_edges(
            bare_layers(indices(layer@)),
            pair_ints(ends@),
            direct@,
            ends@.len() as int,
        ),
        leads_down(r.0@),
{
    let ghost all = pair_ints(ends@);
    let ghost a0 = bare_layers(indices(layer@));
    let mut a = Augmented::new(layer);
    let mut chains: Vec<Vec<usize>> = Vec::new();
    let mut k: usize = 0;
    assert(lists(chains@) =~= Seq::empty());
    while k < ends.len()
        invariant
            k <= ends@.len(),
            direct@.len() == ends@.len(),
            all == pair_ints(ends@),
            a0 == bare_layers(indices(layer@)),
            forall|i: int|
                0 <= i < ends@.len() ==> (#[trigger] ends@[i]).0 < layer@.len() && ends@[i].1
                    < layer@.len(),
            leads_down(a@),
            a@.layer.len() >= layer@.len(),
            (a@, lists(chains@)) == with_edges(a0, all, direct@, k as int),
        decreases ends@.len() - k,
    {
        let (from, to) = ends[k];
        assert(all[k as int] == (from as int, to as int));
        let ghost b = a@;
        let ghost before = chains@;
        proof {
            lemma_add_edge(b, from as int, to as int, direct@[k as int]);
        }
        let chain = a.add_edge(from, to, direct[k]);
        let ghost item = indices(chain@);
        chains.push(chain);
        assert(lists(chains@) =~= lists(before).push(item));
        k += 1;
    }
    (a, chains)
}

} // verus!
