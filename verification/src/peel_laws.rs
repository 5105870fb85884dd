//! What holds of taking nodes in the order of their links.

use vstd::prelude::*;

use crate::peel::{completed, free, next_free, peel};

verus! {

/// Whether every number below `n` occurs exactly once.
pub open spec fn arrangement(s: Seq<int>, n: int) -> bool {
    &&& s.len() == n
    &&& s.no_duplicates()
    &&& forall|i: int| 0 <= i < s.len() ==> 0 <= #[trigger] s[i] < n
}

/// Whether whatever links to an item of `s` comes before it.
pub open spec fn ordered(links: Seq<(int, int)>, s: Seq<int>) -> bool {
    forall|i: int, j: int|
        0 <= i < links.len() && 0 <= j < s.len() && (#[trigger] links[i]).1 == #[trigger] s[j]
            ==> s.take(j).contains(links[i].0)
}

/// Distinct numbers below `n`.
pub open spec fn partial(s: Seq<int>, n: int) -> bool {
    s.no_duplicates() && forall|i: int| 0 <= i < s.len() ==> 0 <= #[trigger] s[i] < n
}

pub proof fn lemma_next_free(l: Seq<(int, int)>, done: Seq<int>, n: int, v: int)
    requires
        0 <= v,
    ensures
        next_free(l, done, n, v) matches Some(u) ==> v <= u < n && !done.contains(u) && free(
            l,
            done,
            u,
        ),
        next_free(l, done, n, v) is None ==> (forall|u: int|
            v <= u < n && !done.contains(u) ==> !#[trigger] free(l, done, u)),
    decreases n - v,
{
    if v < n && !(!done.contains(v) && free(l, done, v)) {
        lemma_next_free(l, done, n, v + 1);
    }
}

pub proof fn lemma_push(l: Seq<(int, int)>, s: Seq<int>, v: int, n: int)
    requires
        partial(s, n),
        ordered(l, s),
        0 <= v < n,
        !s.contains(v),
    ensures
        partial(s.push(v), n),
        free(l, s, v) ==> ordered(l, s.push(v)),
{
    let t = s.push(v);
    if free(l, s, v) {
        assert forall|i: int, j: int|
            0 <= i < l.len() && 0 <= j < t.len() && (#[trigger] l[i]).1 == #[trigger] t[j] implies t.take(
            j,
        ).contains(l[i].0) by {
            if j < s.len() {
                assert(s[j] == t[j]);
                assert(t.take(j) =~= s.take(j));
            } else {
                assert(t.take(j) =~= s);
            }
        }
    }
}

pub proof fn lemma_peel(l: Seq<(int, int)>, n: int, done: Seq<int>, room: nat)
    requires
        partial(done, n),
        ordered(l, done),
    ensures
        partial(peel(l, n, done, room), n),
        ordered(l, peel(l, n, done, room)),
    decreases room,
{
    lemma_next_free(l, done, n, 0);
    if let Some(v) = next_free(l, done, n, 0) {
        if room > 0 {
            lemma_push(l, done, v, n);
            lemma_peel(l, n, done.push(v), (room - 1) as nat);
        }
    }
}

pub proof fn lemma_completed(l: Seq<(int, int)>, done: Seq<int>, n: int, v: int)
    requires
        0 <= v,
        partial(done, n),
        forall|u: int| 0 <= u < v && u < n ==> #[trigger] done.contains(u),
    ensures
        partial(completed(done, n, v), n),
        forall|u: int| 0 <= u < n ==> #[trigger] completed(done, n, v).contains(u),
    decreases n - v,
{
    if v < n {
        if done.contains(v) {
            lemma_completed(l, done, n, v + 1);
        } else {
            let more = done.push(v);
            assert forall|u: int| 0 <= u < v + 1 && u < n implies #[trigger] more.contains(u) by {
                if u < v {
                    assert(done.contains(u));
                    let i = choose|i: int| 0 <= i < done.len() && done[i] == u;
                    assert(more[i] == u);
                } else {
                    assert(more[done.len() as int] == u);
                }
            }
            lemma_completed(l, more, n, v + 1);
        }
    }
}

/// Distinct numbers that are all the numbers below `n` are `n` many.
pub proof fn lemma_count(s: Seq<int>, n: int)
    requires
        0 <= n,
        partial(s, n),
        forall|u: int| 0 <= u < n ==> #[trigger] s.contains(u),
    ensures
        s.len() == n,
{
    s.unique_seq_to_set();
    let all = vstd::set_lib::set_int_range(0, n);
    vstd::set_lib::lemma_int_range(0, n);
    assert(s.to_set() =~= all) by {
        assert forall|u: int| s.to_set().contains(u) implies all.contains(u) by {
            let i = choose|i: int| 0 <= i < s.len() && s[i] == u;
            assert(0 <= s[i] < n);
        }
    }
}


/// What links to a node that was taken was taken before it.
pub proof fn law_peeling_respects_links(l: Seq<(int, int)>, n: int, room: nat)
    ensures
        ordered(l, peel(l, n, Seq::empty(), room)),
{
    lemma_peel(l, n, Seq::empty(), room);
}

/// Where links lead upwards in rank, something not done is free.
pub proof fn lemma_some_free(
    l: Seq<(int, int)>,
    done: Seq<int>,
    n: int,
    v: int,
    rank: spec_fn(int) -> nat,
)
    requires
        0 <= v < n,
        !done.contains(v),
        forall|i: int|
            0 <= i < l.len() ==> 0 <= (#[trigger] l[i]).0 < n && rank(l[i].0) < rank(l[i].1),
    ensures
        exists|u: int| 0 <= u < n && !done.contains(u) && #[trigger] free(l, done, u),
    decreases rank(v),
{
    if !free(l, done, v) {
        let i = choose|i: int|
            0 <= i < l.len() && (#[trigger] l[i]).1 == v && !done.contains(l[i].0);
        lemma_some_free(l, done, n, l[i].0, rank);
    }
}

pub proof fn lemma_peel_all(
    l: Seq<(int, int)>,
    n: int,
    done: Seq<int>,
    room: nat,
    rank: spec_fn(int) -> nat,
)
    requires
        partial(done, n),
        done.len() + room == n,
        forall|i: int|
            0 <= i < l.len() ==> 0 <= (#[trigger] l[i]).0 < n && rank(l[i].0) < rank(l[i].1),
    ensures
        peel(l, n, done, room).len() == n,
    decreases room,
{
    lemma_next_free(l, done, n, 0);
    if room > 0 {
        if forall|u: int| 0 <= u < n ==> #[trigger] done.contains(u) {
            lemma_count(done, n);
        } else {
            let v = choose|v: int| 0 <= v < n && !#[trigger] done.contains(v);
            lemma_some_free(l, done, n, v, rank);
        }
        let v = next_free(l, done, n, 0)->Some_0;
        assert(partial(done.push(v), n));
        lemma_peel_all(l, n, done.push(v), (room - 1) as nat, rank);
    }
}

pub proof fn lemma_completed_full(done: Seq<int>, n: int, v: int)
    requires
        0 <= v,
        forall|u: int| 0 <= u < n ==> #[trigger] done.contains(u),
    ensures
        completed(done, n, v) == done,
    decreases n - v,
{
    if v < n {
        lemma_completed_full(done, n, v + 1);
    }
}

pub proof fn lemma_covers(s: Seq<int>, n: int)
    requires
        arrangement(s, n),
    ensures
        forall|u: int| 0 <= u < n ==> #[trigger] s.contains(u),
{
    s.unique_seq_to_set();
    let all = vstd::set_lib::set_int_range(0, n);
    vstd::set_lib::lemma_int_range(0, n);
    assert(s.to_set().subset_of(all)) by {
        assert forall|u: int| s.to_set().contains(u) implies all.contains(u) by {
            let i = choose|i: int| 0 <= i < s.len() && s[i] == u;
            assert(0 <= s[i] < n);
        }
    }
    vstd::set_lib::lemma_subset_equality(s.to_set(), all);
    assert forall|u: int| 0 <= u < n implies #[trigger] s.contains(u) by {
        assert(all.contains(u));
        assert(s.to_set().contains(u));
    }
}

} // verus!
