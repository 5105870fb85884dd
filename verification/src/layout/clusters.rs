//! Subgraphs in a layered graph: the layers each of them spans, the walls
//! at its two sides, and the subgraph that every node belongs to.

use vstd::prelude::*;

use crate::layout::chains::{grow, leads_down, link, lists, Aug, Augmented};
use crate::peel::indices;

verus! {

/// A subgraph: the ids from the outermost subgraph down to it, and its
/// first and last layer.
#[verifier::ext_equal]
pub struct Span {
    pub id: int,
    pub path: Seq<int>,
    pub lo: int,
    pub hi: int,
}

/// The spans with a member of the subgraph `id` in layer `l` noted. They
/// are sorted by id.
pub open spec fn note(s: Seq<Span>, id: int, path: Seq<int>, l: int) -> Seq<Span>
    decreases s.len(),
{
    if s.len() == 0 || s.last().id < id {
        s.push(Span { id, path, lo: l, hi: l })
    } else if s.last().id == id {
        let t = s.last();
        s.drop_last().push(
            Span {
                lo: if l < t.lo {
                    l
                } else {
                    t.lo
                },
                hi: if l > t.hi {
                    l
                } else {
                    t.hi
                },
                ..t
            },
        )
    } else {
        note(s.drop_last(), id, path, l).push(s.last())
    }
}

/// The spans with the first `k` subgraphs of a path noted.
pub open spec fn note_path(s: Seq<Span>, path: Seq<int>, l: int, k: int) -> Seq<Span>
    decreases k,
{
    if k <= 0 {
        s
    } else {
        note(note_path(s, path, l, k - 1), path[k - 1], path.take(k), l)
    }
}

/// The spans of the subgraphs of the first `k` nodes.
pub open spec fn spans(paths: Seq<Seq<int>>, layer: Seq<int>, k: int) -> Seq<Span>
    decreases k,
{
    if k <= 0 {
        Seq::empty()
    } else {
        note_path(
            spans(paths, layer, k - 1),
            paths[k - 1],
            layer[k - 1],
            paths[k - 1].len() as int,
        )
    }
}

/// Whether the spans are sorted by id, each id once, none of them empty.
pub open spec fn spans_sorted(s: Seq<Span>) -> bool {
    &&& forall|i: int, j: int|
        0 <= i < j < s.len() ==> (#[trigger] s[i]).id < (#[trigger] s[j]).id
    &&& forall|i: int| 0 <= i < s.len() ==> 0 <= (#[trigger] s[i]).lo <= s[i].hi
}

/// Whether `s` has a span of the subgraph `id` that covers layer `l`.
pub open spec fn covers(s: Seq<Span>, id: int, l: int) -> bool {
    exists|j: int| 0 <= j < s.len() && (#[trigger] s[j]).id == id && s[j].lo <= l <= s[j].hi
}

proof fn lemma_note(s: Seq<Span>, id: int, path: Seq<int>, l: int)
    requires
        spans_sorted(s),
        0 <= l,
    ensures
        spans_sorted(note(s, id, path, l)),
        covers(note(s, id, path, l), id, l),
        forall|c: int, k: int| #[trigger]
            covers(s, c, k) ==> covers(note(s, id, path, l), c, k),
        forall|i: int|
            0 <= i < note(s, id, path, l).len() ==> (#[trigger] note(s, id, path, l)[i]).id == id
                || exists|j: int| 0 <= j < s.len() && (#[trigger] s[j]).id == note(s, id, path, l)[i].id,
    decreases s.len(),
{
    let t = note(s, id, path, l);
    if s.len() == 0 || s.last().id < id {
        assert(t[s.len() as int].id == id);
        assert forall|i: int, j: int| 0 <= i < j < t.len() implies (#[trigger] t[i]).id < (
        #[trigger] t[j]).id by {
            if j < s.len() {
                assert(s[i].id < s[j].id);
            } else if i < s.len() - 1 {
                assert(s[i].id < s[s.len() - 1].id);
            }
        }
        assert forall|c: int, k: int| #[trigger] covers(s, c, k) implies covers(t, c, k) by {
            let j = choose|j: int|
                0 <= j < s.len() && (#[trigger] s[j]).id == c && s[j].lo <= k <= s[j].hi;
            assert(t[j] == s[j]);
        }
        assert forall|i: int| 0 <= i < t.len() implies (#[trigger] t[i]).id == id || exists|j: int|
            0 <= j < s.len() && (#[trigger] s[j]).id == t[i].id by {
            if i < s.len() {
                assert(s[i].id == t[i].id);
            }
        }
    } else if s.last().id == id {
        let h = s.len() - 1;
        assert(t[h].id == id);
        assert forall|i: int| 0 <= i < h implies #[trigger] t[i] == s[i] by {}
        assert forall|i: int, j: int| 0 <= i < j < t.len() implies (#[trigger] t[i]).id < (
        #[trigger] t[j]).id by {
            assert(s[i].id < s[j].id);
        }
        assert forall|c: int, k: int| #[trigger] covers(s, c, k) implies covers(t, c, k) by {
            let j = choose|j: int|
                0 <= j < s.len() && (#[trigger] s[j]).id == c && s[j].lo <= k <= s[j].hi;
            assert(t[j].id == c);
        }
        assert forall|i: int| 0 <= i < t.len() implies (#[trigger] t[i]).id == id || exists|j: int|
            0 <= j < s.len() && (#[trigger] s[j]).id == t[i].id by {
            assert(s[i].id == t[i].id);
        }
    } else {
        let h = s.drop_last();
        assert forall|i: int, j: int| 0 <= i < j < h.len() implies (#[trigger] h[i]).id < (
        #[trigger] h[j]).id by {
            assert(s[i].id < s[j].id);
        }
        assert forall|i: int| 0 <= i < h.len() implies 0 <= (#[trigger] h[i]).lo <= h[i].hi by {
            assert(0 <= s[i].lo <= s[i].hi);
        }
        lemma_note(h, id, path, l);
        let u = note(h, id, path, l);
        assert(t == u.push(s.last()));
        assert forall|i: int, j: int| 0 <= i < j < t.len() implies (#[trigger] t[i]).id < (
        #[trigger] t[j]).id by {
            if j < u.len() {
                assert(u[i].id < u[j].id);
            } else {
                assert(t[i] == u[i]);
                if u[i].id != id {
                    let q = choose|q: int| 0 <= q < h.len() && (#[trigger] h[q]).id == u[i].id;
                    assert(s[q].id < s[s.len() - 1].id);
                }
            }
        }
        assert(0 <= s[s.len() - 1].lo <= s[s.len() - 1].hi);
        assert forall|i: int| 0 <= i < t.len() implies 0 <= (#[trigger] t[i]).lo <= t[i].hi by {
            if i < u.len() {
                assert(t[i] == u[i]);
            }
        }
        assert forall|c: int, k: int| covers(u, c, k) implies covers(t, c, k) by {
            let j = choose|j: int|
                0 <= j < u.len() && (#[trigger] u[j]).id == c && u[j].lo <= k <= u[j].hi;
            assert(t[j] == u[j]);
        }
        assert forall|c: int, k: int| #[trigger] covers(s, c, k) implies covers(t, c, k) by {
            let j = choose|j: int|
                0 <= j < s.len() && (#[trigger] s[j]).id == c && s[j].lo <= k <= s[j].hi;
            if j < h.len() {
                assert(h[j] == s[j]);
                assert(covers(h, c, k));
                assert(covers(u, c, k));
            } else {
                assert(t[u.len() as int] == s[j]);
            }
        }
        assert forall|i: int| 0 <= i < t.len() implies (#[trigger] t[i]).id == id || exists|j: int|
            0 <= j < s.len() && (#[trigger] s[j]).id == t[i].id by {
            if i < u.len() {
                assert(t[i] == u[i]);
                if u[i].id != id {
                    let q = choose|q: int| 0 <= q < h.len() && (#[trigger] h[q]).id == u[i].id;
                    assert(s[q].id == t[i].id);
                }
            } else {
                assert(s[s.len() - 1].id == t[i].id);
            }
        }
    }
}

proof fn lemma_note_path(s: Seq<Span>, path: Seq<int>, l: int, k: int)
    requires
        spans_sorted(s),
        0 <= l,
        0 <= k <= path.len(),
    ensures
        spans_sorted(note_path(s, path, l, k)),
        forall|c: int, m: int| #[trigger] covers(s, c, m) ==> covers(note_path(s, path, l, k), c, m),
        forall|i: int| 0 <= i < k ==> covers(note_path(s, path, l, k), #[trigger] path[i], l),
    decreases k,
{
    if k > 0 {
        lemma_note_path(s, path, l, k - 1);
        lemma_note(note_path(s, path, l, k - 1), path[k - 1], path.take(k), l);
    }
}

/// The spans are sorted by id, and every node lies within the span of each
/// of its subgraphs.
pub proof fn law_spans_cover_members(paths: Seq<Seq<int>>, layer: Seq<int>, k: int)
    requires
        0 <= k <= paths.len(),
        paths.len() <= layer.len(),
        forall|v: int| 0 <= v < layer.len() ==> 0 <= #[trigger] layer[v],
    ensures
        spans_sorted(spans(paths, layer, k)),
        forall|v: int, i: int|
            #![trigger paths[v][i]]
            0 <= v < k && 0 <= i < paths[v].len() ==> covers(
                spans(paths, layer, k),
                paths[v][i],
                layer[v],
            ),
    decreases k,
{
    if k > 0 {
        law_spans_cover_members(paths, layer, k - 1);
        let s = spans(paths, layer, k - 1);
        assert(0 <= layer[k - 1]);
        lemma_note_path(s, paths[k - 1], layer[k - 1], paths[k - 1].len() as int);
        assert forall|v: int, i: int|
            #![trigger paths[v][i]]
            0 <= v < k && 0 <= i < paths[v].len() implies covers(
            spans(paths, layer, k),
            paths[v][i],
            layer[v],
        ) by {
            if v < k - 1 {
                assert(covers(s, paths[v][i], layer[v]));
            }
        }
    }
}

/// A subgraph in machine numbers.
#[derive(Debug)]
pub struct SpanRec {
    pub id: usize,
    pub path: Vec<usize>,
    pub lo: usize,
    pub hi: usize,
}

impl View for SpanRec {
    type V = Span;

    open spec fn view(&self) -> Span {
        Span {
            id: self.id as int,
            path: indices(self.path@),
            lo: self.lo as int,
            hi: self.hi as int,
        }
    }
}

pub open spec fn span_views(s: Seq<SpanRec>) -> Seq<Span> {
    s.map_values(|r: SpanRec| r@)
}

/// The first `k` items of a list.
pub fn prefix(s: &[usize], k: usize) -> (r: Vec<usize>)
    requires
        k <= s@.len(),
    ensures
        r@ == s@.take(k as int),
{
    let mut r: Vec<usize> = Vec::new();
    let mut i: usize = 0;
    while i < k
        invariant
            i <= k,
            k <= s@.len(),
            r@ == s@.take(i as int),
        decreases k - i,
    {
        r.push(s[i]);
        assert(r@ =~= s@.take(i as int + 1));
        i += 1;
    }
    r
}

fn note_span(s: &mut Vec<SpanRec>, id: usize, path: Vec<usize>, l: usize)
    ensures
        span_views(final(s)@) == note(span_views(old(s)@), id as int, indices(path@), l as int),
{
    let ghost all = span_views(s@);
    let ghost p = indices(path@);
    let ghost want = note(all, id as int, p, l as int);
    let mut k: usize = s.len();
    assert(all.take(k as int) =~= all);
    assert(want =~= note(all.take(k as int), id as int, p, l as int) + all.skip(k as int));
    while k > 0 && s[k - 1].id > id
        invariant
            k <= s@.len(),
            all == span_views(s@),
            want == note(all.take(k as int), id as int, p, l as int) + all.skip(k as int),
        decreases k,
    {
        let ghost head = all.take(k as int);
        assert(head.last() == all[k - 1]);
        assert(head.drop_last() =~= all.take(k - 1));
        assert(note(head, id as int, p, l as int) == note(
            all.take(k - 1),
            id as int,
            p,
            l as int,
        ).push(all[k - 1]));
        assert(note(all.take(k - 1), id as int, p, l as int).push(all[k - 1]) + all.skip(
            k as int,
        ) =~= note(all.take(k - 1), id as int, p, l as int) + all.skip(k - 1));
        k -= 1;
    }
    let ghost head = all.take(k as int);
    if k > 0 {
        assert(head.last() == all[k - 1]);
        assert(all[k - 1] == s@[k - 1]@);
    }
    if k > 0 && s[k - 1].id == id {
        let ghost before = s@;
        if l < s[k - 1].lo {
            s[k - 1].lo = l;
        }
        if l > s[k - 1].hi {
            s[k - 1].hi = l;
        }
        assert(span_views(s@) =~= note(head, id as int, p, l as int) + all.skip(k as int));
    } else {
        let r = SpanRec { id, path, lo: l, hi: l };
        let ghost item = r@;
        s.insert(k, r);
        assert(note(head, id as int, p, l as int) == head.push(item));
        assert(span_views(s@) =~= head.push(item) + all.skip(k as int));
    }
}

/// The spans of all subgraphs.
pub fn collect_spans(paths: &Vec<Vec<usize>>, layer: &Vec<usize>) -> (r: Vec<SpanRec>)
    requires
        paths@.len() <= layer@.len(),
    ensures
        span_views(r@) == spans(lists(paths@), indices(layer@), paths@.len() as int),
{
    let ghost ps = lists(paths@);
    let ghost ls = indices(layer@);
    let mut r: Vec<SpanRec> = Vec::new();
    let mut v: usize = 0;
    assert(span_views(r@) =~= Seq::empty());
    while v < paths.len()
        invariant
            v <= paths@.len(),
            paths@.len() <= layer@.len(),
            ps == lists(paths@),
            ls == indices(layer@),
            span_views(r@) == spans(ps, ls, v as int),
        decreases paths@.len() - v,
    {
        let ghost s = spans(ps, ls, v as int);
        let p = paths[v].as_slice();
        assert(ps[v as int] == indices(p@));
        let mut i: usize = 0;
        while i < p.len()
            invariant
                v < paths@.len(),
                paths@.len() <= layer@.len(),
                ps == lists(paths@),
                ls == indices(layer@),
                i <= p@.len(),
                ps[v as int] == indices(p@),
                span_views(r@) == note_path(s, ps[v as int], ls[v as int], i as int),
            decreases p@.len() - i,
        {
            let n: usize = i + 1;
            let q = prefix(p, n);
            assert(indices(q@) =~= ps[v as int].take(i as int + 1));
            note_span(&mut r, p[i], q, layer[v]);
            i += 1;
        }
        v += 1;
    }
    r
}

/// A node of a wall.
#[verifier::ext_equal]
pub struct Wall {
    pub node: int,
    /// Whether the wall is at the right side.
    pub right: bool,
    pub path: Seq<int>,
}

/// The graph with one more node of a wall, linked to the one above.
pub open spec fn add_brick(a: Aug, l: int, above: Option<int>) -> Aug {
    match above {
        Some(p) => link(grow(a, l), p, a.layer.len() as int),
        None => grow(a, l),
    }
}

/// The graph with both walls of a subgraph from layer `l` on; `above` are
/// the walls' nodes in the layer before.
pub open spec fn add_walls(
    a: Aug,
    path: Seq<int>,
    l: int,
    hi: int,
    above: Option<(int, int)>,
) -> (Aug, Seq<Wall>)
    decreases hi - l + 1,
{
    if l > hi {
        (a, Seq::empty())
    } else {
        let d = a.layer.len() as int;
        let (up_left, up_right) = match above {
            Some((x, y)) => (Some(x), Some(y)),
            None => (None, None),
        };
        let b = add_brick(add_brick(a, l, up_left), l, up_right);
        let (c, more) = add_walls(b, path, l + 1, hi, Some((d, d + 1)));
        (
            c,
            seq![Wall { node: d, right: false, path }, Wall { node: d + 1, right: true, path }]
                + more,
        )
    }
}

/// The graph with the walls of the first `k` subgraphs.
pub open spec fn with_walls(a: Aug, s: Seq<Span>, k: int) -> (Aug, Seq<Wall>)
    decreases k,
{
    if k <= 0 {
        (a, Seq::empty())
    } else {
        let (b, walls) = with_walls(a, s, k - 1);
        let (c, more) = add_walls(b, s[k - 1].path, s[k - 1].lo, s[k - 1].hi, None);
        (c, walls + more)
    }
}

/// A node of a wall in machine numbers.
#[derive(Debug)]
pub struct WallRec {
    pub node: usize,
    pub right: bool,
    pub path: Vec<usize>,
}

impl View for WallRec {
    type V = Wall;

    open spec fn view(&self) -> Wall {
        Wall { node: self.node as int, right: self.right, path: indices(self.path@) }
    }
}

pub open spec fn wall_views(s: Seq<WallRec>) -> Seq<Wall> {
    s.map_values(|w: WallRec| w@)
}

fn lay_brick(a: &mut Augmented, l: usize, above: Option<usize>) -> (d: usize)
    requires
        leads_down(old(a)@),
        above matches Some(p) ==> p < old(a)@.layer.len() && old(a)@.layer[p as int] < l,
    ensures
        final(a)@ == add_brick(
            old(a)@,
            l as int,
            match above {
                Some(p) => Some(p as int),
                None => None,
            },
        ),
        d == old(a)@.layer.len(),
        leads_down(final(a)@),
        final(a)@.layer == old(a)@.layer.push(l as int),
{
    let ghost before = a@;
    let d = a.grow(l);
    if let Some(p) = above {
        assert(a@.layer[p as int] == before.layer[p as int]);
        a.link(p, d);
    }
    d
}

fn lay_walls(a: &mut Augmented, walls: &mut Vec<WallRec>, path: &Vec<usize>, lo: usize, hi: usize)
    requires
        leads_down(old(a)@),
        lo <= hi,
        hi < usize::MAX,
    ensures
        ({
            let (b, more) = add_walls(old(a)@, indices(path@), lo as int, hi as int, None);
            final(a)@ == b && wall_views(final(walls)@) == wall_views(old(walls)@) + more
        }),
        leads_down(final(a)@),
{
    let ghost p = indices(path@);
    let ghost (end, all) = add_walls(a@, p, lo as int, hi as int, None);
    let ghost start = wall_views(walls@);
    let ghost mut above: Option<(int, int)> = None;
    let mut left: Option<usize> = None;
    let mut right: Option<usize> = None;
    let mut l: usize = lo;
    assert(start + all =~= wall_views(walls@) + all);
    while l <= hi
        invariant
            lo <= l <= hi + 1,
            hi < usize::MAX,
            p == indices(path@),
            leads_down(a@),
            match above {
                Some((x, y)) => left is Some && right is Some && left->Some_0 == x
                    && right->Some_0 == y && x < a@.layer.len() && y < a@.layer.len()
                    && a@.layer[x] == l - 1 && a@.layer[y] == l - 1,
                None => left is None && right is None,
            },
            end == add_walls(a@, p, l as int, hi as int, above).0,
            wall_views(walls@) + add_walls(a@, p, l as int, hi as int, above).1 == start + all,
        decreases hi + 1 - l,
    {
        let ghost a0 = a@;
        let ghost rest = add_walls(a0, p, l as int, hi as int, above).1;
        let ghost before = walls@;
        let d = lay_brick(a, l, left);
        let ghost a1 = a@;
        proof {
            if let Some((x, y)) = above {
                assert(a1.layer[y] == a0.layer[y]);
            }
        }
        let e = lay_brick(a, l, right);
        walls.push(WallRec { node: d, right: false, path: prefix(path.as_slice(), path.len()) });
        walls.push(WallRec { node: e, right: true, path: prefix(path.as_slice(), path.len()) });
        proof {
            assert(path@.take(path@.len() as int) =~= path@);
            let pair = seq![
                Wall { node: d as int, right: false, path: p },
                Wall { node: e as int, right: true, path: p },
            ];
            above = Some((d as int, e as int));
            let more = add_walls(a@, p, l as int + 1, hi as int, above).1;
            assert(rest == pair + more);
            assert(wall_views(walls@) =~= wall_views(before) + pair);
            assert(wall_views(walls@) + more =~= wall_views(before) + rest);
            assert(a@.layer[d as int] == l && a@.layer[e as int] == l);
        }
        left = Some(d);
        right = Some(e);
        l += 1;
    }
    assert(wall_views(walls@) + Seq::<Wall>::empty() =~= wall_views(walls@));
}

/// Add the walls of all subgraphs.
pub fn build_walls(a: &mut Augmented, s: &Vec<SpanRec>) -> (walls: Vec<WallRec>)
    requires
        leads_down(old(a)@),
        spans_sorted(span_views(s@)),
        forall|i: int| 0 <= i < s@.len() ==> (#[trigger] s@[i]).hi < usize::MAX,
    ensures
        (final(a)@, wall_views(walls@)) == with_walls(old(a)@, span_views(s@), s@.len() as int),
        leads_down(final(a)@),
{
    let ghost all = span_views(s@);
    let ghost a0 = a@;
    let mut walls: Vec<WallRec> = Vec::new();
    let mut k: usize = 0;
    assert(wall_views(walls@) =~= Seq::empty());
    while k < s.len()
        invariant
            k <= s@.len(),
            all == span_views(s@),
            spans_sorted(all),
            forall|i: int| 0 <= i < s@.len() ==> (#[trigger] s@[i]).hi < usize::MAX,
            leads_down(a@),
            (a@, wall_views(walls@)) == with_walls(a0, all, k as int),
        decreases s@.len() - k,
    {
        assert(all[k as int] == s@[k as int]@);
        lay_walls(a, &mut walls, &s[k].path, s[k].lo, s[k].hi);
        k += 1;
    }
    walls
}

/// Whether the subgraph `id` has a span that covers layer `l`.
fn span_covers(s: &Vec<SpanRec>, id: usize, l: usize) -> (r: bool)
    ensures
        r == covers(span_views(s@), id as int, l as int),
{
    let ghost all = span_views(s@);
    let mut j: usize = 0;
    while j < s.len()
        invariant
            j <= s@.len(),
            all == span_views(s@),
            forall|i: int|
                0 <= i < j ==> !((#[trigger] all[i]).id == id && all[i].lo <= l <= all[i].hi),
        decreases s@.len() - j,
    {
        assert(all[j as int] == s@[j as int]@);
        if s[j].id == id && s[j].lo <= l && l <= s[j].hi {
            return true;
        }
        j += 1;
    }
    false
}

/// How many subgraphs of a path, from the outermost on, all span layer `l`;
/// the first `k` are known to.
pub open spec fn fit(s: Seq<Span>, path: Seq<int>, l: int, k: int) -> int
    decreases path.len() - k,
{
    if 0 <= k < path.len() && covers(s, path[k], l) {
        fit(s, path, l, k + 1)
    } else {
        k
    }
}

fn fit_of(s: &Vec<SpanRec>, path: &[usize], l: usize) -> (r: usize)
    ensures
        r == fit(span_views(s@), indices(path@), l as int, 0),
        r <= path@.len(),
{
    let ghost p = indices(path@);
    let mut k: usize = 0;
    while k < path.len() && span_covers(s, path[k], l)
        invariant
            k <= path@.len(),
            p == indices(path@),
            fit(span_views(s@), p, l as int, 0) == fit(span_views(s@), p, l as int, k as int),
        decreases path@.len() - k,
    {
        k += 1;
    }
    k
}

/// How long the paths `a` and `b` agree; the first `k` ids are known to.
pub open spec fn agree(a: Seq<int>, b: Seq<int>, k: int) -> int
    decreases a.len() - k,
{
    if 0 <= k < a.len() && k < b.len() && a[k] == b[k] {
        agree(a, b, k + 1)
    } else {
        k
    }
}

/// Longest shared prefix of two cluster paths.
pub fn common_prefix(a: &[usize], b: &[usize]) -> (r: Vec<usize>)
    ensures
        indices(r@) == indices(a@).take(agree(indices(a@), indices(b@), 0)),
{
    let ghost x = indices(a@);
    let ghost y = indices(b@);
    let mut k: usize = 0;
    while k < a.len() && k < b.len() && a[k] == b[k]
        invariant
            k <= a@.len(),
            k <= b@.len(),
            x == indices(a@),
            y == indices(b@),
            agree(x, y, 0) == agree(x, y, k as int),
        decreases a@.len() - k,
    {
        k += 1;
    }
    let r = prefix(a, k);
    assert(indices(r@) =~= x.take(k as int));
    r
}

/// The subgraph of a stand-in in layer `l` of an edge: inside the target's
/// subgraphs where they reach, else inside the source's, else inside those
/// that both ends share.
pub open spec fn stand_in_path(s: Seq<Span>, from: Seq<int>, to: Seq<int>, l: int) -> Seq<int> {
    let kt = fit(s, to, l, 0);
    let kf = fit(s, from, l, 0);
    if kt > 0 {
        to.take(kt)
    } else if kf > 0 {
        from.take(kf)
    } else {
        from.take(agree(from, to, 0))
    }
}

pub fn stand_in_path_of(s: &Vec<SpanRec>, from: &[usize], to: &[usize], l: usize) -> (r: Vec<usize>)
    ensures
        indices(r@) == stand_in_path(span_views(s@), indices(from@), indices(to@), l as int),
{
    let kt = fit_of(s, to, l);
    let kf = fit_of(s, from, l);
    if kt > 0 {
        let r = prefix(to, kt);
        assert(indices(r@) =~= indices(to@).take(kt as int));
        r
    } else if kf > 0 {
        let r = prefix(from, kf);
        assert(indices(r@) =~= indices(from@).take(kf as int));
        r
    } else {
        common_prefix(from, to)
    }
}

/// The subgraph paths with those of the first `j` stand-ins of a chain set.
pub open spec fn set_chain(
    paths: Seq<Seq<int>>,
    s: Seq<Span>,
    layer: Seq<int>,
    chain: Seq<int>,
    from: Seq<int>,
    to: Seq<int>,
    j: int,
) -> Seq<Seq<int>>
    decreases j,
{
    if j <= 0 {
        paths
    } else {
        set_chain(paths, s, layer, chain, from, to, j - 1).update(
            chain[j - 1],
            stand_in_path(s, from, to, layer[chain[j - 1]]),
        )
    }
}

/// The subgraph paths with those of the stand-ins of the first `k` edges
/// set.
pub open spec fn set_chains(
    paths: Seq<Seq<int>>,
    s: Seq<Span>,
    layer: Seq<int>,
    own: Seq<Seq<int>>,
    ends: Seq<(int, int)>,
    chains: Seq<Seq<int>>,
    k: int,
) -> Seq<Seq<int>>
    decreases k,
{
    if k <= 0 {
        paths
    } else {
        set_chain(
            set_chains(paths, s, layer, own, ends, chains, k - 1),
            s,
            layer,
            chains[k - 1],
            own[ends[k - 1].0],
            own[ends[k - 1].1],
            chains[k - 1].len() as int,
        )
    }
}

/// The subgraph paths with those of the first `k` wall nodes set.
pub open spec fn set_walls(paths: Seq<Seq<int>>, walls: Seq<Wall>, k: int) -> Seq<Seq<int>>
    decreases k,
{
    if k <= 0 {
        paths
    } else {
        set_walls(paths, walls, k - 1).update(walls[k - 1].node, walls[k - 1].path)
    }
}

/// The paths of the real nodes, and of no other.
pub open spec fn own_paths(own: Seq<Seq<int>>, count: nat) -> Seq<Seq<int>> {
    Seq::new(
        count,
        |v: int|
            if v < own.len() {
                own[v]
            } else {
                Seq::empty()
            },
    )
}

/// The subgraph path of every node.
pub open spec fn all_paths(
    own: Seq<Seq<int>>,
    s: Seq<Span>,
    layer: Seq<int>,
    ends: Seq<(int, int)>,
    chains: Seq<Seq<int>>,
    walls: Seq<Wall>,
) -> Seq<Seq<int>> {
    set_walls(
        set_chains(
            own_paths(own, layer.len()),
            s,
            layer,
            own,
            ends,
            chains,
            chains.len() as int,
        ),
        walls,
        walls.len() as int,
    )
}

/// Which side of a subgraph a node walls off.
#[derive(Debug, Clone, Copy, PartialEq, Eq, Structural)]
pub enum WallSide {
    /// It is no wall.
    Inside,
    Left,
    Right,
}

/// The sides with those of the first `k` wall nodes set.
pub open spec fn set_sides(sides: Seq<WallSide>, walls: Seq<Wall>, k: int) -> Seq<WallSide>
    decreases k,
{
    if k <= 0 {
        sides
    } else {
        set_sides(sides, walls, k - 1).update(
            walls[k - 1].node,
            if walls[k - 1].right {
                WallSide::Right
            } else {
                WallSide::Left
            },
        )
    }
}

/// The wall side of every node.
pub open spec fn all_sides(count: nat, walls: Seq<Wall>) -> Seq<WallSide> {
    set_sides(Seq::new(count, |i: int| WallSide::Inside), walls, walls.len() as int)
}

proof fn lemma_set_at(t: Seq<Vec<usize>>, before: Seq<Vec<usize>>, d: int, p: Seq<int>)
    requires
        0 <= d < before.len(),
        t.len() == before.len(),
        forall|j: int| 0 <= j < t.len() && j != d ==> t[j] == before[j],
        indices(t[d]@) == p,
    ensures
        lists(t) == lists(before).update(d, p),
{
    assert(lists(t) =~= lists(before).update(d, p));
}

/// Work out the subgraph path of every node.
pub fn build_paths(
    own: &Vec<Vec<usize>>,
    s: &Vec<SpanRec>,
    layer: &Vec<usize>,
    ends: &Vec<(usize, usize)>,
    chains: &Vec<Vec<usize>>,
    walls: &Vec<WallRec>,
) -> (r: Vec<Vec<usize>>)
    requires
        own@.len() <= layer@.len(),
        chains@.len() == ends@.len(),
        forall|i: int|
            0 <= i < ends@.len() ==> (#[trigger] ends@[i]).0 < own@.len() && ends@[i].1
                < own@.len(),
        forall|i: int, j: int|
            #![trigger chains@[i]@[j]]
            0 <= i < chains@.len() && 0 <= j < chains@[i]@.len() ==> chains@[i]@[j] < layer@.len(),
        forall|i: int| 0 <= i < walls@.len() ==> (#[trigger] walls@[i]).node < layer@.len(),
    ensures
        lists(r@) == all_paths(
            lists(own@),
            span_views(s@),
            indices(layer@),
            crate::peel::pair_ints(ends@),
            lists(chains@),
            wall_views(walls@),
        ),
{
    let n: usize = own.len();
    let na: usize = layer.len();
    let ghost sv = span_views(s@);
    let ghost lv = indices(layer@);
    let ghost ov = lists(own@);
    let ghost ev = crate::peel::pair_ints(ends@);
    let ghost cv = lists(chains@);
    let ghost wv = wall_views(walls@);
    let ghost base = own_paths(ov, na as nat);
    let mut r: Vec<Vec<usize>> = Vec::new();
    let mut v: usize = 0;
    while v < na
        invariant
            v <= na,
            n == own@.len(),
            ov == lists(own@),
            base == own_paths(ov, na as nat),
            lists(r@) == base.take(v as int),
        decreases na - v,
    {
        let ghost before = r@;
        let p = if v < n {
            let q = prefix(own[v].as_slice(), own[v].len());
            assert(q@ =~= own@[v as int]@);
            q
        } else {
            let q: Vec<usize> = Vec::new();
            assert(indices(q@) =~= Seq::<int>::empty());
            q
        };
        let ghost item = indices(p@);
        r.push(p);
        assert(lists(r@) =~= lists(before).push(item));
        assert(base.take(v as int + 1) =~= base.take(v as int).push(base[v as int]));
        v += 1;
    }
    assert(base.take(na as int) =~= base);
    let mut k: usize = 0;
    while k < chains.len()
        invariant
            k <= chains@.len(),
            n == own@.len(),
            n <= na,
            na == layer@.len(),
            r@.len() == na,
            chains@.len() == ends@.len(),
            forall|i: int|
                0 <= i < ends@.len() ==> (#[trigger] ends@[i]).0 < n && ends@[i].1 < n,
            forall|i: int, j: int|
                #![trigger chains@[i]@[j]]
                0 <= i < chains@.len() && 0 <= j < chains@[i]@.len() ==> chains@[i]@[j] < na,
            sv == span_views(s@),
            lv == indices(layer@),
            ov == lists(own@),
            ev == crate::peel::pair_ints(ends@),
            cv == lists(chains@),
            lists(r@) == set_chains(base, sv, lv, ov, ev, cv, k as int),
        decreases chains@.len() - k,
    {
        let (from, to) = ends[k];
        assert(ev[k as int] == (from as int, to as int));
        let ghost start = lists(r@);
        let chain = &chains[k];
        assert(cv[k as int] == indices(chain@));
        let mut j: usize = 0;
        while j < chain.len()
            invariant
                k < chains@.len(),
                *chain == chains@[k as int],
                j <= chain@.len(),
                n == own@.len(),
                na == layer@.len(),
                r@.len() == na,
                from < n,
                to < n,
                forall|i: int, m: int|
                    #![trigger chains@[i]@[m]]
                    0 <= i < chains@.len() && 0 <= m < chains@[i]@.len() ==> chains@[i]@[m] < na,
                sv == span_views(s@),
                lv == indices(layer@),
                ov == lists(own@),
                lists(r@) == set_chain(
                    start,
                    sv,
                    lv,
                    indices(chain@),
                    ov[from as int],
                    ov[to as int],
                    j as int,
                ),
            decreases chain@.len() - j,
        {
            let d = chain[j];
            assert(chains@[k as int]@[j as int] == d);
            let p = stand_in_path_of(s, own[from].as_slice(), own[to].as_slice(), layer[d]);
            let ghost before = r@;
            let ghost item = indices(p@);
            r.set(d, p);
            proof {
                lemma_set_at(r@, before, d as int, item);
            }
            j += 1;
        }
        k += 1;
    }
    let ghost mid = lists(r@);
    let mut w: usize = 0;
    while w < walls.len()
        invariant
            w <= walls@.len(),
            r@.len() == na,
            wv == wall_views(walls@),
            forall|i: int| 0 <= i < walls@.len() ==> (#[trigger] walls@[i]).node < na,
            lists(r@) == set_walls(mid, wv, w as int),
        decreases walls@.len() - w,
    {
        assert(wv[w as int] == walls@[w as int]@);
        let d = walls[w].node;
        let p = prefix(walls[w].path.as_slice(), walls[w].path.len());
        assert(p@ =~= walls@[w as int].path@);
        let ghost before = r@;
        let ghost item = indices(p@);
        r.set(d, p);
        proof {
            lemma_set_at(r@, before, d as int, item);
        }
        w += 1;
    }
    r
}

/// Work out the wall side of every node.
pub fn build_sides(count: usize, walls: &Vec<WallRec>) -> (r: Vec<WallSide>)
    requires
        forall|i: int| 0 <= i < walls@.len() ==> (#[trigger] walls@[i]).node < count,
    ensures
        r@ == all_sides(count as nat, wall_views(walls@)),
{
    let ghost wv = wall_views(walls@);
    let ghost base = Seq::new(count as nat, |i: int| WallSide::Inside);
    let mut r: Vec<WallSide> = Vec::new();
    while r.len() < count
        invariant
            r@.len() <= count,
            forall|i: int| 0 <= i < r@.len() ==> #[trigger] r@[i] == WallSide::Inside,
        decreases count - r@.len(),
    {
        r.push(WallSide::Inside);
    }
    assert(r@ =~= base);
    let mut w: usize = 0;
    while w < walls.len()
        invariant
            w <= walls@.len(),
            r@.len() == count,
            wv == wall_views(walls@),
            forall|i: int| 0 <= i < walls@.len() ==> (#[trigger] walls@[i]).node < count,
            r@ == set_sides(base, wv, w as int),
        decreases walls@.len() - w,
    {
        assert(wv[w as int] == walls@[w as int]@);
        let side = if walls[w].right {
            WallSide::Right
        } else {
            WallSide::Left
        };
        r.set(walls[w].node, side);
        w += 1;
    }
    r
}


} // verus!
