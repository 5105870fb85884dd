//! Taking the nodes of a directed graph one by one, each when everything
//! that links to it was taken.

use vstd::prelude::*;

verus! {

/// Whether everything that links to `v` is done.
pub open spec fn free(links: Seq<(int, int)>, done: Seq<int>, v: int) -> bool {
    forall|i: int| 0 <= i < links.len() && (#[trigger] links[i]).1 == v ==> done.contains(links[i].0)
}

/// The least free node from `v` on that is not done.
pub open spec fn next_free(links: Seq<(int, int)>, done: Seq<int>, n: int, v: int) -> Option<int>
    decreases n - v,
{
    if v >= n {
        None
    } else if !done.contains(v) && free(links, done, v) {
        Some(v)
    } else {
        next_free(links, done, n, v + 1)
    }
}

/// The first order: again and again the least free node, `room` times at
/// most.
pub open spec fn peel(links: Seq<(int, int)>, n: int, done: Seq<int>, room: nat) -> Seq<int>
    decreases room,
{
    match next_free(links, done, n, 0) {
        Some(v) if room > 0 => peel(links, n, done.push(v), (room - 1) as nat),
        _ => done,
    }
}

/// `done`, then in order what is missing of the numbers from `v` on.
pub open spec fn completed(done: Seq<int>, n: int, v: int) -> Seq<int>
    decreases n - v,
{
    if v >= n {
        done
    } else if done.contains(v) {
        completed(done, n, v + 1)
    } else {
        completed(done.push(v), n, v + 1)
    }
}


pub open spec fn pair_ints(s: Seq<(usize, usize)>) -> Seq<(int, int)> {
    s.map_values(|p: (usize, usize)| (p.0 as int, p.1 as int))
}


/// How many of the first `k` links lead to `v` from something not done.
pub open spec fn waiting(links: Seq<(int, int)>, done: Seq<int>, v: int, k: int) -> int
    decreases k,
{
    if k <= 0 {
        0
    } else {
        waiting(links, done, v, k - 1) + if links[k - 1].1 == v && !done.contains(links[k - 1].0) {
            1int
        } else {
            0int
        }
    }
}

/// How many of the first `k` links lead from `u` to `v`.
pub open spec fn hits(links: Seq<(int, int)>, u: int, v: int, k: int) -> int
    decreases k,
{
    if k <= 0 {
        0
    } else {
        hits(links, u, v, k - 1) + if links[k - 1] == (u, v) {
            1int
        } else {
            0int
        }
    }
}

proof fn lemma_waiting_bound(links: Seq<(int, int)>, done: Seq<int>, v: int, k: int)
    ensures
        0 <= waiting(links, done, v, k),
        k >= 0 ==> waiting(links, done, v, k) <= k,
    decreases k,
{
    if k > 0 {
        lemma_waiting_bound(links, done, v, k - 1);
    }
}

/// Nothing waits for a node just when it is free.
proof fn lemma_waiting_free(links: Seq<(int, int)>, done: Seq<int>, v: int, k: int)
    requires
        0 <= k <= links.len(),
    ensures
        waiting(links, done, v, k) == 0 <==> (forall|i: int|
            0 <= i < k && (#[trigger] links[i]).1 == v ==> done.contains(links[i].0)),
    decreases k,
{
    if k > 0 {
        lemma_waiting_free(links, done, v, k - 1);
        lemma_waiting_bound(links, done, v, k - 1);
        if waiting(links, done, v, k) == 0 {
            assert forall|i: int| 0 <= i < k && (#[trigger] links[i]).1 == v implies done.contains(
                links[i].0,
            ) by {
                if i == k - 1 {
                    assert(links[k - 1] == links[i]);
                }
            }
        } else {
            assert(waiting(links, done, v, k - 1) != 0 || (links[k - 1].1 == v && !done.contains(
                links[k - 1].0,
            )));
        }
    }
}

/// Doing `u` frees what waited for it.
proof fn lemma_waiting_done(links: Seq<(int, int)>, done: Seq<int>, u: int, v: int, k: int)
    requires
        !done.contains(u),
    ensures
        waiting(links, done, v, k) == waiting(links, done.push(u), v, k) + hits(links, u, v, k),
        0 <= hits(links, u, v, k),
    decreases k,
{
    if k > 0 {
        lemma_waiting_done(links, done, u, v, k - 1);
        let w = links[k - 1].0;
        let more = done.push(u);
        assert(more.contains(w) == (done.contains(w) || w == u)) by {
            if done.contains(w) {
                let i = choose|i: int| 0 <= i < done.len() && done[i] == w;
                assert(more[i] == w);
            }
            if w == u {
                assert(more[done.len() as int] == w);
            }
        }
    }
}

proof fn lemma_hits_step(links: Seq<(int, int)>, u: int, v: int, k: int)
    requires
        0 <= k <= links.len(),
    ensures
        hits(links, u, v, k) <= hits(links, u, v, links.len() as int),
    decreases links.len() - k,
{
    if k < links.len() {
        lemma_hits_step(links, u, v, k + 1);
    }
}

pub open spec fn indices(s: Seq<usize>) -> Seq<int> {
    s.map_values(|i: usize| i as int)
}

/// The state of peeling: what is done, and how much still waits for each
/// node.
pub struct Peeling {
    pub done: Vec<usize>,
    pub is_done: Vec<bool>,
    pub waits: Vec<usize>,
}

impl Peeling {
    pub open spec fn wf(&self, links: Seq<(int, int)>, n: int) -> bool {
        &&& self.is_done@.len() == n
        &&& self.waits@.len() == n
        &&& forall|i: int| 0 <= i < self.done@.len() ==> (#[trigger] self.done@[i]) < n
        &&& forall|v: int|
            0 <= v < n ==> #[trigger] self.is_done@[v] == indices(self.done@).contains(v)
        &&& forall|v: int|
            0 <= v < n ==> #[trigger] self.waits@[v] == waiting(
                links,
                indices(self.done@),
                v,
                links.len() as int,
            )
    }

    fn new(links: &Vec<(usize, usize)>, n: usize) -> (r: Self)
        requires
            forall|i: int| 0 <= i < links@.len() ==> (#[trigger] links@[i]).1 < n,
        ensures
            r.wf(pair_ints(links@), n as int),
            r.done@.len() == 0,
    {
        let ghost l = pair_ints(links@);
        let done: Vec<usize> = Vec::new();
        let mut is_done: Vec<bool> = Vec::new();
        let mut waits: Vec<usize> = Vec::new();
        let mut i: usize = 0;
        while i < n
            invariant
                i <= n,
                is_done@.len() == i,
                waits@.len() == i,
                forall|v: int| 0 <= v < i ==> !#[trigger] is_done@[v],
                forall|v: int| 0 <= v < i ==> #[trigger] waits@[v] == 0,
            decreases n - i,
        {
            is_done.push(false);
            waits.push(0);
            i += 1;
        }
        assert(indices(done@) =~= Seq::empty());
        let mut k: usize = 0;
        while k < links.len()
            invariant
                k <= links@.len(),
                l == pair_ints(links@),
                waits@.len() == n,
                forall|i: int| 0 <= i < links@.len() ==> (#[trigger] links@[i]).1 < n,
                forall|v: int|
                    0 <= v < n ==> #[trigger] waits@[v] == waiting(l, Seq::empty(), v, k as int),
            decreases links@.len() - k,
        {
            let v = links[k].1;
            assert(l[k as int] == (links@[k as int].0 as int, links@[k as int].1 as int));
            proof {
                lemma_waiting_bound(l, Seq::empty(), v as int, k as int);
            }
            let w: usize = waits[v];
            waits[v] = w + 1;
            k += 1;
        }
        Peeling { done, is_done, waits }
    }

    /// The least free node that is not done.
    fn next(&self, Ghost(links): Ghost<Seq<(int, int)>>) -> (r: Option<usize>)
        requires
            self.wf(links, self.waits@.len() as int),
        ensures
            match next_free(links, indices(self.done@), self.waits@.len() as int, 0) {
                Some(v) => r is Some && r->Some_0 == v && 0 <= v < self.waits@.len(),
                None => r is None,
            },
    {
        let ghost n = self.waits@.len() as int;
        let ghost done = indices(self.done@);
        let mut v: usize = 0;
        while v < self.waits.len()
            invariant
                v <= self.waits@.len(),
                n == self.waits@.len(),
                done == indices(self.done@),
                self.wf(links, n),
                next_free(links, done, n, 0) == next_free(links, done, n, v as int),
            decreases self.waits@.len() - v,
        {
            proof {
                lemma_waiting_free(links, done, v as int, links.len() as int);
            }
            assert(self.is_done@[v as int] == done.contains(v as int));
            if !self.is_done[v] && self.waits[v] == 0 {
                return Some(v);
            }
            v += 1;
        }
        None
    }

    /// Mark `u` as done.
    fn finish(&mut self, links: &Vec<(usize, usize)>, u: usize)
        requires
            old(self).wf(pair_ints(links@), old(self).waits@.len() as int),
            u < old(self).waits@.len(),
            !indices(old(self).done@).contains(u as int),
            forall|i: int|
                0 <= i < links@.len() ==> (#[trigger] links@[i]).1 < old(self).waits@.len(),
        ensures
            final(self).wf(pair_ints(links@), final(self).waits@.len() as int),
            final(self).waits@.len() == old(self).waits@.len(),
            final(self).done@ == old(self).done@.push(u),
    {
        let ghost l = pair_ints(links@);
        let ghost n = self.waits@.len() as int;
        let ghost done = indices(self.done@);
        let ghost start = self.waits@;
        self.done.push(u);
        self.is_done[u] = true;
        assert(indices(self.done@) =~= done.push(u as int));
        let ghost marks = self.is_done@;
        assert forall|v: int| 0 <= v < n implies #[trigger] marks[v] == done.push(
            u as int,
        ).contains(v) by {
            assert(old(self).is_done@[v] == done.contains(v));
            let more = done.push(u as int);
            if done.contains(v) {
                let i = choose|i: int| 0 <= i < done.len() && done[i] == v;
                assert(more[i] == v);
            }
            if v == u {
                assert(more[done.len() as int] == v);
            }
            if more.contains(v) && v != u {
                let i = choose|i: int| 0 <= i < more.len() && more[i] == v;
                assert(done[i] == v);
            }
        }
        let mut k: usize = 0;
        while k < links.len()
            invariant
                k <= links@.len(),
                l == pair_ints(links@),
                n == self.waits@.len(),
                n == start.len(),
                !done.contains(u as int),
                forall|i: int| 0 <= i < links@.len() ==> (#[trigger] links@[i]).1 < n,
                forall|v: int|
                    0 <= v < n ==> #[trigger] start[v] == waiting(l, done, v, l.len() as int),
                forall|v: int|
                    0 <= v < n ==> #[trigger] self.waits@[v] == start[v] - hits(
                        l,
                        u as int,
                        v,
                        k as int,
                    ),
                self.done@ == old(self).done@.push(u),
                self.is_done@ == marks,
            decreases links@.len() - k,
        {
            let (a, v) = links[k];
            assert(l[k as int] == (a as int, v as int));
            if a == u {
                proof {
                    lemma_waiting_done(l, done, u as int, v as int, l.len() as int);
                    lemma_waiting_bound(l, done.push(u as int), v as int, l.len() as int);
                    lemma_hits_step(l, u as int, v as int, k as int + 1);
                }
                let w: usize = self.waits[v];
                self.waits[v] = w - 1;
            }
            k += 1;
        }
        assert forall|v: int| 0 <= v < n implies #[trigger] self.waits@[v] == waiting(
            l,
            done.push(u as int),
            v,
            l.len() as int,
        ) by {
            lemma_waiting_done(l, done, u as int, v, l.len() as int);
        }
        assert(indices(self.done@) =~= done.push(u as int));
    }
}

proof fn lemma_next_free(links: Seq<(int, int)>, done: Seq<int>, n: int, v: int)
    requires
        0 <= v,
    ensures
        next_free(links, done, n, v) matches Some(u) ==> v <= u < n && !done.contains(u) && free(
            links,
            done,
            u,
        ),
    decreases n - v,
{
    if v < n && !(!done.contains(v) && free(links, done, v)) {
        lemma_next_free(links, done, n, v + 1);
    }
}

pub fn peel_all(links: &Vec<(usize, usize)>, n: usize) -> (r: Peeling)
    requires
        forall|i: int| 0 <= i < links@.len() ==> (#[trigger] links@[i]).1 < n,
    ensures
        r.wf(pair_ints(links@), n as int),
        indices(r.done@) == peel(pair_ints(links@), n as int, Seq::empty(), n as nat),
{
    let ghost l = pair_ints(links@);
    let mut p = Peeling::new(links, n);
    let mut room: usize = n;
    assert(indices(p.done@) =~= Seq::empty());
    while room > 0
        invariant
            p.wf(l, n as int),
            p.waits@.len() == n,
            l == pair_ints(links@),
            forall|i: int| 0 <= i < links@.len() ==> (#[trigger] links@[i]).1 < n,
            peel(l, n as int, Seq::empty(), n as nat) == peel(
                l,
                n as int,
                indices(p.done@),
                room as nat,
            ),
        decreases room,
    {
        proof {
            lemma_next_free(l, indices(p.done@), n as int, 0);
        }
        match p.next(Ghost(l)) {
            Some(u) => {
                let ghost before = p.done@;
                p.finish(links, u);
                assert(indices(p.done@) =~= indices(before).push(u as int));
            },
            None => {
                return p;
            },
        }
        room -= 1;
    }
    p
}

} // verus!
