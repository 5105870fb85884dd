//! What is counted as a crossing, and where medians lie.

use vstd::prelude::*;

use crate::layout::minimise::{cross, crossed_by, crossed_pairs, Segment};
use crate::layout::ordering::{left_of, local_crossings, median};

verus! {

/// Whether two edges change sides from one layer to the next.
pub open spec fn change_sides(a: Segment, b: Segment) -> bool {
    (a.0 - b.0) * (a.1 - b.1) < 0
}

/// Two edges cross just where they change sides. Edges that share an end do
/// not cross, and crossing is mutual.
pub proof fn law_crossing_edges_change_sides(a: Segment, b: Segment)
    ensures
        cross(a, b) == change_sides(a, b),
        cross(a, b) == cross(b, a),
        a.0 == b.0 || a.1 == b.1 ==> !cross(a, b),
{
    let (u, v) = (a.0 - b.0, a.1 - b.1);
    assert((u * v < 0) == ((u < 0 && v > 0) || (u > 0 && v < 0))) by (nonlinear_arith);
}

proof fn lemma_crossed_by(s: Seq<Segment>, e: Segment, k: int)
    requires
        0 <= k <= s.len(),
    ensures
        crossed_by(s, e, k) <= k,
        (crossed_by(s, e, k) == 0) == (forall|i: int|
            0 <= i < k ==> !change_sides(#[trigger] s[i], e)),
        (crossed_by(s, e, k) == k) == (forall|i: int|
            0 <= i < k ==> change_sides(#[trigger] s[i], e)),
    decreases k,
{
    if k > 0 {
        lemma_crossed_by(s, e, k - 1);
        law_crossing_edges_change_sides(s[k - 1], e);
        if forall|i: int| 0 <= i < k ==> !change_sides(#[trigger] s[i], e) {
            assert(!change_sides(s[k - 1], e));
        }
        if forall|i: int| 0 <= i < k ==> change_sides(#[trigger] s[i], e) {
            assert(change_sides(s[k - 1], e));
        }
    }
}

/// Nothing is counted of edges just where no two of them change sides, and
/// where all of them do every pair is counted.
pub proof fn law_crossings_are_counted(s: Seq<Segment>, k: int)
    requires
        0 <= k <= s.len(),
    ensures
        (crossed_pairs(s, k) == 0) == (forall|i: int, j: int|
            0 <= i < j < k ==> !change_sides(#[trigger] s[i], #[trigger] s[j])),
        (forall|i: int, j: int|
            0 <= i < j < k ==> change_sides(#[trigger] s[i], #[trigger] s[j])) ==> 2 * crossed_pairs(
            s,
            k,
        ) == k * (k - 1),
    decreases k,
{
    if k > 0 {
        law_crossings_are_counted(s, k - 1);
        lemma_crossed_by(s, s[k - 1], k - 1);
        if crossed_pairs(s, k) == 0 {
            assert forall|i: int, j: int| 0 <= i < j < k implies !change_sides(
                #[trigger] s[i],
                #[trigger] s[j],
            ) by {}
        }
        if forall|i: int, j: int|
            0 <= i < j < k ==> !change_sides(#[trigger] s[i], #[trigger] s[j]) {
            assert forall|i: int| 0 <= i < k - 1 implies !change_sides(#[trigger] s[i], s[k - 1]) by {
                assert(!change_sides(s[i], s[k - 1]));
            }
            assert(forall|i: int, j: int|
                0 <= i < j < k - 1 ==> !change_sides(#[trigger] s[i], #[trigger] s[j]));
        }
        if forall|i: int, j: int|
            0 <= i < j < k ==> change_sides(#[trigger] s[i], #[trigger] s[j]) {
            assert forall|i: int| 0 <= i < k - 1 implies change_sides(#[trigger] s[i], s[k - 1]) by {
                assert(change_sides(s[i], s[k - 1]));
            }
            assert(crossed_by(s, s[k - 1], k - 1) == k - 1);
            assert((k - 1) * (k - 2) + 2 * (k - 1) == k * (k - 1)) by (nonlinear_arith);
        }
    }
}

proof fn lemma_left_of(p: usize, b: Seq<usize>, pos: Seq<usize>, k: int)
    requires
        0 <= k <= b.len(),
    ensures
        (left_of(p, b, pos, k) == 0) == (forall|j: int|
            0 <= j < k ==> p <= pos[(#[trigger] b[j]) as int]),
    decreases k,
{
    if k > 0 {
        lemma_left_of(p, b, pos, k - 1);
        if forall|j: int| 0 <= j < k ==> p <= pos[(#[trigger] b[j]) as int] {
            assert(p <= pos[b[k - 1] as int]);
        }
    }
}

/// A node that stands left of another has no crossings with it just where
/// none of its neighbours stands right of one of the other's.
pub proof fn law_ordered_neighbours_do_not_cross(
    a: Seq<usize>,
    b: Seq<usize>,
    pos: Seq<usize>,
    k: int,
)
    requires
        0 <= k <= a.len(),
    ensures
        (local_crossings(a, b, pos, k) == 0) == (forall|i: int, j: int|
            0 <= i < k && 0 <= j < b.len() ==> pos[(#[trigger] a[i]) as int] <= pos[(
            #[trigger] b[j]) as int]),
    decreases k,
{
    if k > 0 {
        law_ordered_neighbours_do_not_cross(a, b, pos, k - 1);
        let p = pos[a[k - 1] as int];
        lemma_left_of(p, b, pos, b.len() as int);
        if forall|i: int, j: int|
            0 <= i < k && 0 <= j < b.len() ==> pos[(#[trigger] a[i]) as int] <= pos[(
            #[trigger] b[j]) as int] {
            assert forall|j: int| 0 <= j < b.len() implies p <= pos[(#[trigger] b[j]) as int] by {
                assert(pos[a[k - 1] as int] <= pos[b[j] as int]);
            }
        }
    }
}

/// A median lies between the least and the greatest number: on the middle
/// one, or between the two middle ones, nearer to the side where the numbers
/// lie denser.
pub proof fn law_median_lies_in_the_middle(p: Seq<usize>)
    requires
        p.len() > 0,
        forall|i: int, j: int| 0 <= i <= j < p.len() ==> p[i] <= p[j],
    ensures
        ({
            let (num, den) = median(p);
            let m = p.len() as int;
            let mid = m / 2;
            &&& 0 < den
            &&& m % 2 == 1 ==> num == p[mid] * den
            &&& m % 2 == 0 ==> p[mid - 1] * den <= num <= p[mid] * den
            &&& m % 2 == 0 && p[mid - 1] - p[0] <= p[m - 1] - p[mid] ==> 2 * num <= (p[mid - 1]
                + p[mid]) * den
            &&& m % 2 == 0 && p[mid - 1] - p[0] >= p[m - 1] - p[mid] ==> 2 * num >= (p[mid - 1]
                + p[mid]) * den
        }),
{
    let m = p.len() as int;
    let mid = m / 2;
    let (num, den) = median(p);
    if m % 2 == 0 {
        let (x, y) = (p[mid - 1] as int, p[mid] as int);
        assert(x <= y);
        let l = x - p[0];
        let r = p[m - 1] - y;
        assert(0 <= l && 0 <= r);
        if m == 2 || l + r == 0 {
            assert(num == x + y && den == 2);
            lemma_lean(x, y, 1, 1);
            assert(x * 1 == x && y * 1 == y);
            assert(x * den == x * (1 + 1) && y * den == y * (1 + 1));
            assert((x + y) * den == (x + y) * (1 + 1));
            if m == 2 {
                assert(l == 0 && r == 0);
            }
        } else {
            assert(num == x * r + y * l && den == l + r);
            lemma_lean(x, y, l, r);
        }
    } else {
        assert(num == p[mid] && den == 1);
        assert(p[mid] * den == p[mid]) by (nonlinear_arith)
            requires
                den == 1,
        ;
    }
}

proof fn lemma_lean(x: int, y: int, l: int, r: int)
    requires
        x <= y,
        0 <= l,
        0 <= r,
    ensures
        x * (l + r) <= x * r + y * l <= y * (l + r),
        l <= r ==> 2 * (x * r + y * l) <= (x + y) * (l + r),
        l >= r ==> 2 * (x * r + y * l) >= (x + y) * (l + r),
{
    let d = y - x;
    assert(x * r + y * l == x * (l + r) + d * l) by (nonlinear_arith)
        requires
            d == y - x,
    ;
    assert(y * (l + r) == x * (l + r) + d * l + d * r) by (nonlinear_arith)
        requires
            d == y - x,
    ;
    assert((x + y) * (l + r) == 2 * (x * (l + r)) + d * l + d * r) by (nonlinear_arith)
        requires
            d == y - x,
    ;
    assert(0 <= d * l && 0 <= d * r) by (nonlinear_arith)
        requires
            0 <= d,
            0 <= l,
            0 <= r,
    ;
    assert(l <= r ==> d * l <= d * r) by (nonlinear_arith)
        requires
            0 <= d,
    ;
    assert(l >= r ==> d * l >= d * r) by (nonlinear_arith)
        requires
            0 <= d,
    ;
}

} // verus!
