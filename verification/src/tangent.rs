//! Points beside the end of a curve.

use vstd::prelude::*;

use crate::advance::place::lengths::{
    bound, bounded, cut, cut_wide, diff, minus, plus, quotient, sum,
};
use crate::advance::scene::Px;

verus! {

/// Whether `r` is the square root of `n`, rounded down.
pub open spec fn is_root(r: int, n: int) -> bool {
    0 <= r && r * r <= n < (r + 1) * (r + 1)
}

/// The square root, rounded down.
pub open spec fn root(n: int) -> int {
    choose|r: int| is_root(r, n)
}

/// A number has one square root.
pub proof fn law_root_is_unique(a: int, b: int, n: int)
    requires
        is_root(a, n),
        is_root(b, n),
    ensures
        a == b,
        root(n) == a,
{
    lemma_roots_meet(a, b, n);
    let r = root(n);
    assert(is_root(r, n));
    lemma_roots_meet(a, r, n);
}

proof fn lemma_roots_meet(a: int, b: int, n: int)
    requires
        is_root(a, n),
        is_root(b, n),
    ensures
        a == b,
{
    if a < b {
        assert((a + 1) * (a + 1) <= b * b) by (nonlinear_arith)
            requires
                0 <= a,
                a + 1 <= b,
        ;
    }
    if b < a {
        assert((b + 1) * (b + 1) <= a * a) by (nonlinear_arith)
            requires
                0 <= b,
                b + 1 <= a,
        ;
    }
}

/// The square root, rounded down.
fn isqrt(n: u128) -> (r: u128)
    requires
        n < 0x1_0000_0000_0000_0000_0000_0000_0000,
    ensures
        r == root(n as int),
        r < 0x100_0000_0000_0000,
{
    let mut lo: u128 = 0;
    let mut hi: u128 = 0x100_0000_0000_0000;
    while lo + 1 < hi
        invariant
            lo < hi <= 0x100_0000_0000_0000,
            lo * lo <= n < hi * hi,
        decreases hi - lo,
    {
        let mid: u128 = lo + (hi - lo) / 2;
        assert(mid * mid <= 0x1_0000_0000_0000_0000_0000_0000_0000) by (nonlinear_arith)
            requires
                mid <= 0x100_0000_0000_0000,
        ;
        if mid * mid <= n {
            lo = mid;
        } else {
            hi = mid;
        }
    }
    proof {
        assert(hi == lo + 1);
        assert(is_root(lo as int, n as int));
        law_root_is_unique(lo as int, lo as int, n as int);
    }
    lo
}

/// How far apart two points are; at least one grid unit.
pub open spec fn distance(dx: int, dy: int) -> int {
    let r = root(dx * dx + dy * dy);
    if r < 1 {
        1
    } else {
        r
    }
}

/// The point that is `k` from `e` towards `c`, and `t` to the side.
pub open spec fn beside(e: (Px, Px), c: (Px, Px), k: int, t: int) -> (int, int) {
    let x = bound(e.0 as int);
    let y = bound(e.1 as int);
    let dx = minus(bound(c.0 as int), x);
    let dy = minus(bound(c.1 as int), y);
    let len = distance(dx, dy);
    (plus(x, bound((dx * k - dy * t) / len)), plus(y, bound((dy * k + dx * t) / len)))
}

/// The point that is `k` from `e` towards `c`, and `t` to the side.
pub fn point_beside(e: (Px, Px), c: (Px, Px), k: Px, t: Px) -> (r: (Px, Px))
    requires
        -0x1_0000_0000 <= k <= 0x1_0000_0000,
        -0x1_0000_0000 <= t <= 0x1_0000_0000,
    ensures
        (r.0 as int, r.1 as int) == beside(e, c, k as int, t as int),
{
    let x: Px = cut(e.0);
    let y: Px = cut(e.1);
    let dx: i128 = diff(cut(c.0), x) as i128;
    let dy: i128 = diff(cut(c.1), y) as i128;
    proof {
        lemma_square(dx as int);
        lemma_square(dy as int);
        lemma_times(dx as int, k as int);
        lemma_times(dy as int, k as int);
        lemma_times(dx as int, t as int);
        lemma_times(dy as int, t as int);
    }
    let d: u128 = isqrt((dx * dx + dy * dy) as u128);
    let len: i128 = if d < 1 {
        1
    } else {
        d as i128
    };
    let k: i128 = k as i128;
    let t: i128 = t as i128;
    (
        sum(x, cut_wide(quotient(dx * k - dy * t, len))),
        sum(y, cut_wide(quotient(dy * k + dx * t, len))),
    )
}

proof fn lemma_square(a: int)
    requires
        bounded(a),
    ensures
        0 <= a * a <= 0x1000_0000_0000_0000_0000_0000_0000,
{
    assert(0 <= a * a <= 0x1000_0000_0000_0000_0000_0000_0000) by (nonlinear_arith)
        requires
            -0x40_0000_0000_0000 <= a <= 0x40_0000_0000_0000,
    ;
}

proof fn lemma_times(a: int, b: int)
    requires
        bounded(a),
        -0x1_0000_0000 <= b <= 0x1_0000_0000,
    ensures
        -0x40_0000_0000_0000_0000_0000 <= a * b <= 0x40_0000_0000_0000_0000_0000,
{
    assert(-0x40_0000_0000_0000_0000_0000 <= a * b <= 0x40_0000_0000_0000_0000_0000) by (nonlinear_arith)
        requires
            -0x40_0000_0000_0000 <= a <= 0x40_0000_0000_0000,
            -0x1_0000_0000 <= b <= 0x1_0000_0000,
    ;
}

proof fn lemma_root_from(r: int, n: int, m: int)
    requires
        is_root(r, n),
        n <= m,
    ensures
        exists|q: int| is_root(q, m),
    decreases m - n,
{
    if n < m {
        if n + 1 < (r + 1) * (r + 1) {
            assert(is_root(r, n + 1));
            lemma_root_from(r, n + 1, m);
        } else {
            let q = r + 1;
            assert(q * q <= n + 1 < (q + 1) * (q + 1)) by (nonlinear_arith)
                requires
                    q * q == n + 1,
                    q >= 1,
            ;
            assert(is_root(q, n + 1));
            lemma_root_from(q, n + 1, m);
        }
    }
}

/// Every natural number has a square root.
pub proof fn lemma_root(n: int)
    requires
        0 <= n,
    ensures
        is_root(root(n), n),
{
    assert(is_root(0, 0));
    lemma_root_from(0, 0, n);
}

/// Whether a coordinate is far inside the range.
pub open spec fn well_within(v: Px) -> bool {
    -0x10_0000_0000_0000 <= v <= 0x10_0000_0000_0000
}

/// Whether `p` is `k` from `e` towards `c` and `t` to the side, to within
/// one grid unit: `len` is how far apart `e` and `c` are.
#[verifier::opaque]
pub open spec fn is_beside(
    p: (int, int),
    e: (Px, Px),
    c: (Px, Px),
    k: int,
    t: int,
    len: int,
) -> bool {
    let dx = c.0 - e.0;
    let dy = c.1 - e.1;
    &&& 0 < len
    &&& len * len <= dx * dx + dy * dy < (len + 1) * (len + 1) || (dx == 0 && dy == 0)
    &&& 0 <= dx * k - dy * t - (p.0 - e.0) * len < len
    &&& 0 <= dy * k + dx * t - (p.1 - e.1) * len < len
}

proof fn lemma_side(d: int, len: int, n: int)
    requires
        is_root(len, n),
        d * d <= n,
    ensures
        -len <= d <= len,
{
    if d > len {
        assert(d * d >= (len + 1) * (len + 1)) by (nonlinear_arith)
            requires
                d >= len + 1,
                len >= 0,
        ;
    }
    if d < -len {
        assert(d * d >= (len + 1) * (len + 1)) by (nonlinear_arith)
            requires
                -d >= len + 1,
                len >= 0,
        ;
    }
}

proof fn lemma_quotient(a: int, b: int, k: int, t: int, len: int)
    requires
        0 < len,
        -len <= a <= len,
        -len <= b <= len,
        -0x1_0000_0000 <= k <= 0x1_0000_0000,
        -0x1_0000_0000 <= t <= 0x1_0000_0000,
    ensures
        -0x4_0000_0000 <= (a * k + b * t) / len <= 0x4_0000_0000,
        0 <= a * k + b * t - ((a * k + b * t) / len) * len < len,
{
    let v = a * k + b * t;
    let m = 0x1_0000_0000int;
    assert(-(len * m) <= a * k <= len * m) by (nonlinear_arith)
        requires
            -len <= a <= len,
            -m <= k <= m,
            len > 0,
            m > 0,
    ;
    assert(-(len * m) <= b * t <= len * m) by (nonlinear_arith)
        requires
            -len <= b <= len,
            -m <= t <= m,
            len > 0,
            m > 0,
    ;
    let q = v / len;
    assert(0 <= v - q * len < len) by (nonlinear_arith)
        requires
            q == v / len,
            len > 0,
    ;
    assert(-4 * m <= q <= 4 * m) by (nonlinear_arith)
        requires
            0 <= v - q * len < len,
            -2 * (len * m) <= v <= 2 * (len * m),
            len > 0,
            m > 1,
    ;
}

/// Points beside the end of a curve are where they are meant to be: so far
/// along the line towards its next point, and so far across it.
pub proof fn law_points_lie_beside(e: (Px, Px), c: (Px, Px), k: int, t: int)
    requires
        well_within(e.0) && well_within(e.1) && well_within(c.0) && well_within(c.1),
        -0x1_0000_0000 <= k <= 0x1_0000_0000,
        -0x1_0000_0000 <= t <= 0x1_0000_0000,
    ensures
        is_beside(beside(e, c, k, t), e, c, k, t, distance(c.0 - e.0, c.1 - e.1)),
{
    reveal(is_beside);
    let dx = c.0 - e.0;
    let dy = c.1 - e.1;
    let n = dx * dx + dy * dy;
    assert(dx * dx >= 0 && dy * dy >= 0) by (nonlinear_arith);
    lemma_root(n);
    let r = root(n);
    let len = distance(dx, dy);
    lemma_side(dx, r, n);
    lemma_side(dy, r, n);
    if r < 1 {
        assert(r == 0);
        assert(dx == 0 && dy == 0);
    }
    assert(-dy * t == -(dy * t)) by (nonlinear_arith);
    lemma_quotient(dx, -dy, k, t, len);
    lemma_quotient(dy, dx, k, t, len);
    assert(dx * k + (-dy) * t == dx * k - dy * t) by (nonlinear_arith);
}

} // verus!
