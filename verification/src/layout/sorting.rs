//! Sorting nodes by fractional keys.

use vstd::prelude::*;

use crate::fraction::less;

verus! {

/// Where an item belongs: before all others, by its value, or behind all
/// others.
#[derive(Debug, Clone, Copy, PartialEq, Eq, Structural)]
pub enum Class {
    First,
    Valued,
    Last,
}

/// Something to be sorted by the fraction `num / den`, then by `tie`.
#[derive(Debug, Clone, Copy)]
pub struct Item {
    pub class: Class,
    pub num: u128,
    pub den: u64,
    pub tie: usize,
    pub val: usize,
}

/// The rank of a class.
pub open spec fn class_rank(c: Class) -> int {
    match c {
        Class::First => 0,
        Class::Valued => 1,
        Class::Last => 2,
    }
}

/// Whether the key of `a` is less than that of `b`.
pub open spec fn lower(a: Item, b: Item) -> bool {
    class_rank(a.class) < class_rank(b.class) || (a.class == Class::Valued && b.class
        == Class::Valued && a.num * b.den < b.num * a.den)
}

/// Whether `a` belongs in front of `b`.
pub open spec fn before(a: Item, b: Item) -> bool {
    lower(a, b) || (!lower(b, a) && a.tie < b.tie)
}

/// `x` put into a sorted list, behind everything it does not belong in
/// front of.
pub open spec fn put_in(s: Seq<Item>, x: Item) -> Seq<Item>
    decreases s.len(),
{
    if s.len() == 0 || !before(x, s.last()) {
        s.push(x)
    } else {
        put_in(s.drop_last(), x).push(s.last())
    }
}

/// The list in order; items that are equal keep theirs.
pub open spec fn sorted(s: Seq<Item>) -> Seq<Item>
    decreases s.len(),
{
    if s.len() == 0 {
        s
    } else {
        put_in(sorted(s.drop_last()), s.last())
    }
}

/// Whether all fractions have a denominator.
pub open spec fn proper(s: Seq<Item>) -> bool {
    forall|i: int| 0 <= i < s.len() ==> (#[trigger] s[i]).den > 0
}

fn lower_of(a: &Item, b: &Item) -> (r: bool)
    requires
        a.den > 0,
        b.den > 0,
    ensures
        r == lower(*a, *b),
{
    match a.class {
        Class::First => b.class != Class::First,
        Class::Last => false,
        Class::Valued => b.class == Class::Last || (b.class == Class::Valued && less(
            a.num,
            a.den,
            b.num,
            b.den,
        )),
    }
}

fn before_of(a: &Item, b: &Item) -> (r: bool)
    requires
        a.den > 0,
        b.den > 0,
    ensures
        r == before(*a, *b),
{
    lower_of(a, b) || (!lower_of(b, a) && a.tie < b.tie)
}

fn insert(s: &mut Vec<Item>, x: Item)
    requires
        proper(old(s)@),
        x.den > 0,
    ensures
        final(s)@ == put_in(old(s)@, x),
        proper(final(s)@),
{
    let ghost all = s@;
    let mut p: usize = s.len();
    assert(all.take(p as int) =~= all);
    assert(put_in(all, x) =~= put_in(all.take(p as int), x) + all.skip(p as int));
    while p > 0 && before_of(&x, &s[p - 1])
        invariant
            p <= s@.len(),
            all == s@,
            proper(all),
            x.den > 0,
            put_in(all, x) == put_in(all.take(p as int), x) + all.skip(p as int),
        decreases p,
    {
        let ghost head = all.take(p as int);
        assert(head.last() == all[p - 1]);
        assert(head.drop_last() =~= all.take(p - 1));
        assert(put_in(head, x) == put_in(all.take(p - 1), x).push(all[p - 1]));
        assert(put_in(all.take(p - 1), x).push(all[p - 1]) + all.skip(p as int) =~= put_in(
            all.take(p - 1),
            x,
        ) + all.skip(p - 1));
        p -= 1;
    }
    let ghost head = all.take(p as int);
    if p > 0 {
        assert(head.last() == all[p - 1]);
    }
    assert(put_in(head, x) == head.push(x));
    s.insert(p, x);
    assert(s@ =~= head.push(x) + all.skip(p as int));
    assert forall|i: int| 0 <= i < s@.len() implies (#[trigger] s@[i]).den > 0 by {
        if i < p {
            assert(s@[i] == all[i]);
        } else if i > p {
            assert(s@[i] == all[i - 1]);
        }
    }
}

/// The items in order.
pub fn sort(s: &Vec<Item>) -> (r: Vec<Item>)
    requires
        proper(s@),
    ensures
        r@ == sorted(s@),
        proper(r@),
{
    let mut r: Vec<Item> = Vec::new();
    let mut i: usize = 0;
    assert(s@.take(0).len() == 0);
    while i < s.len()
        invariant
            i <= s@.len(),
            proper(s@),
            proper(r@),
            r@ == sorted(s@.take(i as int)),
        decreases s@.len() - i,
    {
        assert(s@.take(i as int + 1).drop_last() =~= s@.take(i as int));
        insert(&mut r, s[i]);
        i += 1;
    }
    assert(s@.take(s@.len() as int) =~= s@);
    r
}

proof fn lemma_put_in(s: Seq<Item>, x: Item)
    ensures
        put_in(s, x).len() == s.len() + 1,
        put_in(s, x).to_multiset() == s.to_multiset().insert(x),
    decreases s.len(),
{
    broadcast use vstd::seq_lib::group_to_multiset_ensures;

    if !(s.len() == 0 || !before(x, s.last())) {
        let h = s.drop_last();
        lemma_put_in(h, x);
        assert(s =~= h.push(s.last()));
        assert(put_in(s, x).to_multiset() =~= s.to_multiset().insert(x));
    }
}

/// Sorting loses nothing and adds nothing.
pub proof fn law_sorting_rearranges(s: Seq<Item>)
    ensures
        sorted(s).len() == s.len(),
        sorted(s).to_multiset() == s.to_multiset(),
    decreases s.len(),
{
    broadcast use vstd::seq_lib::group_to_multiset_ensures;

    if s.len() > 0 {
        let h = s.drop_last();
        law_sorting_rearranges(h);
        lemma_put_in(sorted(h), s.last());
        assert(s =~= h.push(s.last()));
    }
}

/// Whether no item belongs in front of one before it.
pub open spec fn in_order(s: Seq<Item>) -> bool {
    forall|i: int, j: int| 0 <= i < j < s.len() ==> !before(#[trigger] s[j], #[trigger] s[i])
}

proof fn lemma_fraction_order(an: int, ad: int, bn: int, bd: int, cn: int, cd: int)
    requires
        ad > 0,
        bd > 0,
        cd > 0,
    ensures
        an * bd < bn * ad && bn * cd <= cn * bd ==> an * cd < cn * ad,
        an * bd <= bn * ad && bn * cd < cn * bd ==> an * cd < cn * ad,
        an * bd <= bn * ad && bn * cd <= cn * bd ==> an * cd <= cn * ad,
{
    assert(an * bd < bn * ad && bn * cd <= cn * bd ==> an * cd < cn * ad) by (nonlinear_arith)
        requires
            ad > 0,
            bd > 0,
            cd > 0,
    {
        if an * bd < bn * ad && bn * cd <= cn * bd {
            assert((an * bd) * cd < (bn * ad) * cd);
            assert((bn * cd) * ad <= (cn * bd) * ad);
            assert((an * cd) * bd < (cn * ad) * bd);
        }
    }
    assert(an * bd <= bn * ad && bn * cd < cn * bd ==> an * cd < cn * ad) by (nonlinear_arith)
        requires
            ad > 0,
            bd > 0,
            cd > 0,
    {
        if an * bd <= bn * ad && bn * cd < cn * bd {
            assert((an * bd) * cd <= (bn * ad) * cd);
            assert((bn * cd) * ad < (cn * bd) * ad);
            assert((an * cd) * bd < (cn * ad) * bd);
        }
    }
    assert(an * bd <= bn * ad && bn * cd <= cn * bd ==> an * cd <= cn * ad) by (nonlinear_arith)
        requires
            ad > 0,
            bd > 0,
            cd > 0,
    {
        if an * bd <= bn * ad && bn * cd <= cn * bd {
            assert((an * bd) * cd <= (bn * ad) * cd);
            assert((bn * cd) * ad <= (cn * bd) * ad);
            assert((an * cd) * bd <= (cn * ad) * bd);
        }
    }
}

/// What may stand behind `b` and `b` behind `a` may stand behind `a`.
proof fn lemma_before_order(a: Item, b: Item, c: Item)
    requires
        a.den > 0,
        b.den > 0,
        c.den > 0,
        !before(b, a),
        !before(c, b),
    ensures
        !before(c, a),
{
    lemma_fraction_order(
        c.num as int,
        c.den as int,
        a.num as int,
        a.den as int,
        b.num as int,
        b.den as int,
    );
    lemma_fraction_order(
        a.num as int,
        a.den as int,
        b.num as int,
        b.den as int,
        c.num as int,
        c.den as int,
    );
    lemma_fraction_order(
        b.num as int,
        b.den as int,
        c.num as int,
        c.den as int,
        a.num as int,
        a.den as int,
    );
}

proof fn lemma_put_in_order(s: Seq<Item>, x: Item)
    requires
        proper(s),
        x.den > 0,
        in_order(s),
    ensures
        proper(put_in(s, x)),
        in_order(put_in(s, x)),
        forall|y: Item|
            y.den > 0 && !before(y, x) && (forall|i: int| 0 <= i < s.len() ==> !before(y, s[i]))
                ==> (forall|i: int|
                0 <= i < put_in(s, x).len() ==> !before(y, #[trigger] put_in(s, x)[i])),
    decreases s.len(),
{
    let t = put_in(s, x);
    if s.len() == 0 || !before(x, s.last()) {
        assert forall|i: int, j: int| 0 <= i < j < t.len() implies !before(
            #[trigger] t[j],
            #[trigger] t[i],
        ) by {
            if j == s.len() {
                if i < s.len() - 1 {
                    assert(!before(s[s.len() - 1], s[i]));
                    lemma_before_order(s[i], s[s.len() - 1], x);
                }
            } else {
                assert(!before(s[j], s[i]));
            }
        }
    } else {
        let h = s.drop_last();
        let last = s.last();
        assert(proper(h)) by {
            assert forall|i: int| 0 <= i < h.len() implies (#[trigger] h[i]).den > 0 by {
                assert(s[i].den > 0);
            }
        }
        assert forall|i: int, j: int| 0 <= i < j < h.len() implies !before(
            #[trigger] h[j],
            #[trigger] h[i],
        ) by {
            assert(!before(s[j], s[i]));
        }
        lemma_put_in_order(h, x);
        let u = put_in(h, x);
        assert(s[s.len() - 1].den > 0);
        assert(!before(last, x)) by {
            lemma_fraction_order(
                x.num as int,
                x.den as int,
                last.num as int,
                last.den as int,
                x.num as int,
                x.den as int,
            );
        }
        assert forall|i: int| 0 <= i < h.len() implies !before(last, h[i]) by {
            assert(!before(s[s.len() - 1], s[i]));
        }
        assert(forall|i: int| 0 <= i < u.len() ==> !before(last, #[trigger] u[i]));
        assert forall|i: int, j: int| 0 <= i < j < t.len() implies !before(
            #[trigger] t[j],
            #[trigger] t[i],
        ) by {
            assert(t[i] == u[i]);
            if j < u.len() {
                assert(t[j] == u[j]);
            }
        }
        assert forall|y: Item|
            y.den > 0 && !before(y, x) && (forall|i: int| 0 <= i < s.len() ==> !before(y, s[i])) implies (
        forall|i: int| 0 <= i < t.len() ==> !before(y, #[trigger] t[i])) by {
            assert forall|i: int| 0 <= i < h.len() implies !before(y, h[i]) by {
                assert(!before(y, s[i]));
            }
            assert(!before(y, s[s.len() - 1]));
        }
    }
}

/// Sorting puts the items in order.
pub proof fn law_sorting_orders(s: Seq<Item>)
    requires
        proper(s),
    ensures
        in_order(sorted(s)),
        proper(sorted(s)),
    decreases s.len(),
{
    if s.len() > 0 {
        let h = s.drop_last();
        assert forall|i: int| 0 <= i < h.len() implies (#[trigger] h[i]).den > 0 by {
            assert(s[i].den > 0);
        }
        law_sorting_orders(h);
        assert(s[s.len() - 1].den > 0);
        lemma_put_in_order(sorted(h), s.last());
    }
}

} // verus!
