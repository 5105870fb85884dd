//! Numbers in double precision.
//!
//! A double that is not negative is known by its rank: how many doubles lie
//! between zero and it.

use vstd::prelude::*;

use crate::num::{digit_value, digits_value, increment, next_integer};
use crate::text::{all_digits, decimal, digit_char, is_digit};
use crate::wide::{lemma_natural, Wide};

verus! {

/// The rank of infinity.
pub const TOP: u64 = 0x7ff0_0000_0000_0000;

/// How many doubles share an exponent, `2^52`.
pub const BINADE: u64 = 0x10_0000_0000_0000;

pub open spec fn power(b: nat, k: nat) -> nat
    decreases k,
{
    if k == 0 {
        1
    } else {
        b * power(b, (k - 1) as nat)
    }
}

/// The mantissa of a double.
pub open spec fn mantissa(r: int) -> nat {
    (if r < BINADE {
        r
    } else {
        r % (BINADE as int) + BINADE
    }) as nat
}

/// The exponent of a double: how often its mantissa is doubled, from
/// `2^-1074` on.
pub open spec fn exponent(r: int) -> nat {
    (if r < BINADE {
        0
    } else {
        r / (BINADE as int) - 1
    }) as nat
}

/// The value of a double, in units of `2^-1074`.
pub open spec fn steps(r: int) -> nat {
    mantissa(r) * power(2, exponent(r))
}

/// The middle between a double and the next, in units of `2^-1075`.
pub open spec fn border(r: int) -> nat {
    (2 * mantissa(r) + 1) * power(2, exponent(r))
}

/// The factor of ten to the power `x` where that is whole.
pub open spec fn over(x: int) -> nat {
    if x > 0 {
        power(10, x as nat)
    } else {
        1
    }
}

/// The divisor of ten to the power `x` where that is a fraction.
pub open spec fn under(x: int) -> nat {
    if x < 0 {
        power(10, (-x) as nat)
    } else {
        1
    }
}

/// Whether `c` times ten to the power `x` is rounded beyond the double of
/// rank `r`: it lies behind the middle between it and the next, or in the
/// middle where the next is even.
pub open spec fn past(c: nat, x: int, r: int) -> bool {
    let v = c * over(x) * power(2, 1075);
    let b = border(r) * under(x);
    v > b || (v == b && r % 2 == 1)
}

/// Whether `r` is the rank of the double nearest to `c` times ten to the
/// power `x`.
pub open spec fn is_nearest(c: nat, x: int, r: int) -> bool {
    &&& 0 <= r <= TOP
    &&& r > 0 ==> past(c, x, r - 1)
    &&& r < TOP ==> !past(c, x, r)
}

/// The rank of the double nearest to `c` times ten to the power `x`.
pub open spec fn nearest(c: nat, x: int) -> int {
    choose|r: int| is_nearest(c, x, r)
}

/// How often a double holds ten to the power `x`.
pub open spec fn floor_at(r: int, x: int) -> nat {
    (steps(r) * under(x)) / (power(2, 1074) * over(x))
}

/// Whether a double is nearer to the next multiple of ten to the power `x`
/// than to the one before, or as near.
pub open spec fn in_upper_half(r: int, x: int) -> bool {
    2 * steps(r) * under(x) >= (2 * floor_at(r, x) + 1) * (power(2, 1074) * over(x))
}

/// Whether a double is in the middle between two multiples of ten to the
/// power `x`.
pub open spec fn in_middle(r: int, x: int) -> bool {
    2 * steps(r) * under(x) == (2 * floor_at(r, x) + 1) * (power(2, 1074) * over(x))
}

/// The greatest exponent up to `x` of which a multiple is rounded to the
/// double.
pub open spec fn coarsest(r: int, x: int) -> int
    decreases x + 1074,
{
    if x <= -1074 || is_nearest(floor_at(r, x), x, r) || is_nearest(floor_at(r, x) + 1, x, r) {
        x
    } else {
        coarsest(r, x - 1)
    }
}

/// The exponent from which on all doubles are smaller.
pub const HIGH: i32 = 342;

/// The decimal with the fewest digits that is rounded to the double, and of
/// several the one nearest to it: a number and the power of ten behind it.
pub open spec fn shortest(r: int) -> (nat, int) {
    let x = coarsest(r, HIGH as int);
    let c = floor_at(r, x);
    let up = is_nearest(c + 1, x, r) && (!is_nearest(c, x, r) || in_upper_half(r, x));
    (if up {
        c + 1
    } else {
        c
    }, x)
}

pub proof fn lemma_power_sum(b: nat, j: nat, k: nat)
    ensures
        power(b, j + k) == power(b, j) * power(b, k),
    decreases j,
{
    if j > 0 {
        lemma_power_sum(b, (j - 1) as nat, k);
        let p = power(b, (j - 1) as nat);
        let q = power(b, k);
        assert(b * (p * q) == (b * p) * q) by (nonlinear_arith);
        assert((j + k - 1) as nat == (j - 1) as nat + k);
    } else {
        assert(1 * power(b, k) == power(b, k)) by (nonlinear_arith);
    }
}

pub proof fn lemma_power_positive(b: nat, k: nat)
    requires
        b > 0,
    ensures
        power(b, k) > 0,
    decreases k,
{
    if k > 0 {
        lemma_power_positive(b, (k - 1) as nat);
        let p = power(b, (k - 1) as nat);
        assert(b * p > 0) by (nonlinear_arith)
            requires
                b > 0,
                p > 0,
        ;
    }
}

pub proof fn lemma_power_grows(b: nat, j: nat, k: nat)
    requires
        b > 1,
        j <= k,
    ensures
        power(b, j) <= power(b, k),
        j < k ==> power(b, j) < power(b, k),
    decreases k - j,
{
    if j < k {
        lemma_power_grows(b, j, (k - 1) as nat);
        lemma_power_positive(b, (k - 1) as nat);
        let p = power(b, (k - 1) as nat);
        assert(b * p > p) by (nonlinear_arith)
            requires
                b > 1,
                p > 0,
        ;
    }
}

/// Eight is less than ten.
proof fn lemma_eights(k: nat)
    ensures
        power(2, 3 * k) <= power(10, k),
    decreases k,
{
    if k > 0 {
        lemma_eights((k - 1) as nat);
        reveal_with_fuel(power, 4);
        let p = power(2, (3 * k - 3) as nat);
        assert(power(2, 3 * k) == 2 * (2 * (2 * p)));
    }
}

/// A thousand is less than `2^10`.
pub proof fn lemma_thousands(k: nat)
    ensures
        power(10, 3 * k) <= power(2, 10 * k),
    decreases k,
{
    if k > 0 {
        lemma_thousands((k - 1) as nat);
        reveal_with_fuel(power, 11);
        let p = power(10, (3 * k - 3) as nat);
        let q = power(2, (10 * k - 10) as nat);
        assert(power(10, 3 * k) == 10 * (10 * (10 * p)));
        assert(power(2, 10 * k) == 2 * (2 * (2 * (2 * (2 * (2 * (2 * (2 * (2 * (2 * q))))))))));
    }
}

/// A double is one mantissa step below the next.
pub proof fn lemma_next(r: int)
    requires
        0 <= r,
    ensures
        steps(r + 1) == (mantissa(r) + 1) * power(2, exponent(r)),
{
    let b = BINADE as int;
    if r + 1 < b {
    } else if r + 1 == b {
        assert((r + 1) % b == 0 && (r + 1) / b == 1);
    } else if (r + 1) % b == 0 {
        assert(r % b == b - 1 && (r + 1) / b == r / b + 1) by {
            assert(r == b * (r / b) + r % b);
            assert(r + 1 == b * ((r + 1) / b));
        }
        let p = power(2, exponent(r));
        assert(exponent(r + 1) == exponent(r) + 1);
        assert(power(2, exponent(r + 1)) == 2 * p);
        assert(b * (2 * p) == (2 * b) * p) by (nonlinear_arith);
    } else {
        assert((r + 1) % b == r % b + 1 && (r + 1) / b == r / b);
    }
}

/// Between two doubles lies the border between them.
pub proof fn lemma_border(r: int)
    requires
        0 <= r,
    ensures
        2 * steps(r) < border(r) < 2 * steps(r + 1),
{
    lemma_next(r);
    lemma_power_positive(2, exponent(r));
    let m = mantissa(r) as int;
    let p = power(2, exponent(r)) as int;
    assert(2 * (m * p) < (2 * m + 1) * p < 2 * ((m + 1) * p)) by (nonlinear_arith)
        requires
            p > 0,
    ;
}

proof fn lemma_borders(q: int, r: int)
    requires
        0 <= q < r,
    ensures
        border(q) < border(r),
    decreases r - q,
{
    lemma_border(r - 1);
    lemma_border(r);
    if q < r - 1 {
        lemma_borders(q, r - 1);
    }
}

/// A number is nearest to one double only.
pub proof fn lemma_nearest_once(c: nat, x: int, q: int, r: int)
    requires
        is_nearest(c, x, q),
        is_nearest(c, x, r),
    ensures
        q == r,
{
    if q < r {
        lemma_past_below(c, x, q, r - 1);
    } else if r < q {
        lemma_past_below(c, x, r, q - 1);
    }
}

proof fn lemma_some_nearest(c: nat, x: int, r: int)
    requires
        0 <= r <= TOP,
        r > 0 ==> past(c, x, r - 1),
    ensures
        exists|q: int| is_nearest(c, x, q),
    decreases TOP - r,
{
    if r < TOP && past(c, x, r) {
        lemma_some_nearest(c, x, r + 1);
    } else {
        assert(is_nearest(c, x, r));
    }
}

/// Every number is nearest to some double.
pub proof fn lemma_nearest(c: nat, x: int)
    ensures
        is_nearest(c, x, nearest(c, x)),
{
    lemma_some_nearest(c, x, 0);
}

pub proof fn lemma_under(x: int)
    ensures
        under(x) > 0,
        over(x) > 0,
{
    lemma_power_positive(10, x as nat);
    lemma_power_positive(10, (-x) as nat);
    if x > 0 {
        lemma_power_positive(10, x as nat);
    }
    if x < 0 {
        lemma_power_positive(10, (-x) as nat);
    }
}

/// What is rounded beyond a double is rounded beyond every smaller one.
pub proof fn lemma_past_below(c: nat, x: int, q: int, r: int)
    requires
        0 <= q <= r,
        past(c, x, r),
    ensures
        past(c, x, q),
{
    if q < r {
        lemma_borders(q, r);
        lemma_under(x);
        let u = under(x);
        assert(border(q) * u < border(r) * u) by (nonlinear_arith)
            requires
                border(q) < border(r),
                u > 0,
        ;
    }
}

/// Ten times a number is that number with the next power of ten.
proof fn lemma_tenfold(c: nat, x: int, r: int)
    ensures
        past(10 * c, x, r) == past(c, x + 1, r),
{
    let p = power(2, 1075);
    if x >= 0 {
        let o = over(x);
        assert(over(x + 1) == 10 * o) by {
            if x == 0 {
                reveal_with_fuel(power, 2);
            }
        }
        assert((10 * c) * o * p == c * (10 * o) * p) by (nonlinear_arith);
    } else {
        let u = under(x + 1);
        assert(under(x) == 10 * u) by {
            if x == -1 {
                reveal_with_fuel(power, 2);
            } else {
                assert((-x - 1) as nat == (-(x + 1)) as nat);
            }
        }
        let b = border(r);
        assert((10 * c) * 1 * p == 10 * (c * 1 * p)) by (nonlinear_arith);
        assert(b * (10 * u) == 10 * (b * u)) by (nonlinear_arith);
    }
}

/// Zeros at the end of a number count as powers of ten.
pub proof fn lemma_scaled(c: nat, x: int, k: nat, r: int)
    ensures
        is_nearest(c * power(10, k), x, r) == is_nearest(c, x + k, r),
    decreases k,
{
    if k > 0 {
        let j = (k - 1) as nat;
        lemma_scaled(c, x + 1, j, r);
        let p = power(10, j);
        assert(c * (10 * p) == 10 * (c * p)) by (nonlinear_arith);
        lemma_tenfold(c * p, x, r);
        lemma_tenfold(c * p, x, r - 1);
    } else {
        assert(c * 1 == c) by (nonlinear_arith);
    }
}

/// A double is its own nearest, written out in full.
proof fn lemma_exact(r: int)
    requires
        0 < r < TOP,
    ensures
        is_nearest(floor_at(r, -1074), -1074, r),
{
    let n = steps(r);
    let t = power(10, 1074);
    let d = power(2, 1074);
    lemma_fives(1074);
    let f = power(5, 1074);
    lemma_power_positive(2, 1074);
    assert(t == d * f);
    assert(n * t == (n * f) * d) by (nonlinear_arith)
        requires
            t == d * f,
    ;
    let c = n * f;
    assert((c * d) / d == c) by (nonlinear_arith)
        requires
            d > 0,
    ;
    assert(d * 1 == d) by (nonlinear_arith);
    assert(floor_at(r, -1074) == c);
    let p = power(2, 1075);
    assert(p == 2 * d);
    assert(c * 1 * p == (2 * n) * t) by (nonlinear_arith)
        requires
            p == 2 * d,
            n * t == c * d,
    ;
    lemma_power_positive(10, 1074);
    lemma_border(r);
    lemma_border(r - 1);
    let (a, b) = (border(r - 1), border(r));
    assert(a * t < (2 * n) * t < b * t) by (nonlinear_arith)
        requires
            a < 2 * n < b,
            t > 0,
    ;
}

proof fn lemma_fives(k: nat)
    ensures
        power(10, k) == power(2, k) * power(5, k),
    decreases k,
{
    if k > 0 {
        lemma_fives((k - 1) as nat);
        let a = power(2, (k - 1) as nat);
        let b = power(5, (k - 1) as nat);
        assert(10 * (a * b) == (2 * a) * (5 * b)) by (nonlinear_arith);
    } else {
        assert(power(2, 0) * power(5, 0) == 1) by (nonlinear_arith)
            requires
                power(2, 0) == 1,
                power(5, 0) == 1,
        ;
    }
}

proof fn lemma_coarsest(r: int, x: int)
    requires
        0 < r < TOP,
        x >= -1074,
    ensures
        ({
            let y = coarsest(r, x);
            &&& -1074 <= y <= x
            &&& is_nearest(floor_at(r, y), y, r) || is_nearest(floor_at(r, y) + 1, y, r)
        }),
    decreases x + 1074,
{
    if x <= -1074 {
        lemma_exact(r);
    } else if !is_nearest(floor_at(r, x), x, r) && !is_nearest(floor_at(r, x) + 1, x, r) {
        lemma_coarsest(r, x - 1);
    }
}

/// The shortest decimal of a double is rounded to it.
pub proof fn law_shortest_reads_back(r: int)
    requires
        0 < r < TOP,
    ensures
        is_nearest(shortest(r).0, shortest(r).1, r),
        -1074 <= shortest(r).1 <= HIGH,
        shortest(r).0 > 0,
{
    lemma_coarsest(r, HIGH as int);
    let (c, x) = shortest(r);
    if c == 0 {
        assert(0 * over(x) * power(2, 1075) == 0) by (nonlinear_arith);
        assert(border(r - 1) * under(x) >= 0) by (nonlinear_arith);
        assert(past(0, x, r - 1));
        lemma_border(r - 1);
        lemma_under(x);
        let (b, u) = (border(r - 1), under(x));
        assert(b * u > 0) by (nonlinear_arith)
            requires
                b > 0,
                u > 0,
        ;
    }
}

pub proof fn lemma_floor(r: int, x: int, n: nat)
    ensures
        floor_at(r, x) == n <==> n * (power(2, 1074) * over(x)) <= steps(r) * under(x) < (n + 1) * (
        power(2, 1074) * over(x)),
{
    lemma_power_positive(2, 1074);
    lemma_under(x);
    let o = over(x);
    let p = power(2, 1074);
    let b = p * o;
    let a = steps(r) * under(x);
    assert(b > 0) by (nonlinear_arith)
        requires
            b == p * o,
            p > 0,
            o > 0,
    ;
    let f = a / b;
    assert(f * b <= a < (f + 1) * b) by (nonlinear_arith)
        requires
            b > 0,
            f == a / b,
    ;
    if n < f {
        assert((n + 1) * b <= f * b) by (nonlinear_arith)
            requires
                n + 1 <= f,
        ;
    } else if f < n {
        assert((f + 1) * b <= n * b) by (nonlinear_arith)
            requires
                f + 1 <= n,
        ;
    }
}

/// One power of ten lower, one digit more.
proof fn lemma_digit_more(r: int, x: int)
    ensures
        10 * floor_at(r, x) <= floor_at(r, x - 1) <= 10 * floor_at(r, x) + 9,
{
    let n = floor_at(r, x);
    let m = floor_at(r, x - 1);
    lemma_floor(r, x, n);
    lemma_floor(r, x - 1, m);
    let p = power(2, 1074);
    let a = steps(r) * under(x);
    let c = steps(r) * under(x - 1);
    let b = p * over(x);
    let d = p * over(x - 1);
    lemma_power_positive(2, 1074);
    lemma_under(x - 1);
    let o = over(x - 1);
    assert(d > 0) by (nonlinear_arith)
        requires
            d == p * o,
            p > 0,
            o > 0,
    ;
    if x > 0 {
        assert(over(x) == 10 * o) by {
            if x == 1 {
                reveal_with_fuel(power, 2);
            }
        }
        assert(p * (10 * o) == 10 * (p * o)) by (nonlinear_arith);
        assert(b == 10 * d && a == c);
        assert(10 * n * d <= c < (10 * n + 10) * d) by (nonlinear_arith)
            requires
                n * b <= a < (n + 1) * b,
                b == 10 * d,
                a == c,
        ;
    } else {
        let u = under(x);
        assert(under(x - 1) == 10 * u) by {
            if x == 0 {
                reveal_with_fuel(power, 2);
            } else {
                assert((-(x - 1) - 1) as nat == (-x) as nat);
            }
        }
        let v = steps(r);
        assert(v * (10 * u) == 10 * (v * u)) by (nonlinear_arith);
        assert(b == d && c == 10 * a);
        assert(10 * n * d <= c < (10 * n + 10) * d) by (nonlinear_arith)
            requires
                n * b <= a < (n + 1) * b,
                b == d,
                c == 10 * a,
        ;
    }
    assert(10 * n < m + 1) by (nonlinear_arith)
        requires
            10 * n * d <= c,
            c < (m + 1) * d,
            d > 0,
    ;
    assert(m < 10 * n + 10) by (nonlinear_arith)
        requires
            m * d <= c,
            c < (10 * n + 10) * d,
            d > 0,
    ;
}

/// No double is as large as ten to the power `HIGH`.
proof fn lemma_high(r: int)
    requires
        0 <= r < TOP,
    ensures
        steps(r) < power(2, 2098),
        border(r) < power(2, 2099),
        floor_at(r, HIGH as int) == 0,
{
    let m = mantissa(r);
    let e = exponent(r);
    assert(m < 0x20_0000_0000_0000);
    assert(e <= 2045) by {
        assert(r / (BINADE as int) <= 2046);
    }
    lemma_power_grows(2, e, 2045);
    lemma_power_positive(2, e);
    lemma_power_sum(2, 53, 2045);
    lemma_power_sum(2, 1, 2098);
    lemma_small_powers();
    let p = power(2, e);
    let q = power(2, 2045);
    assert(m * p < 0x20_0000_0000_0000 * q) by (nonlinear_arith)
        requires
            m < 0x20_0000_0000_0000,
            0 < p <= q,
    ;
    assert((2 * m + 1) * p < 0x40_0000_0000_0000 * q) by (nonlinear_arith)
        requires
            m < 0x20_0000_0000_0000,
            0 < p <= q,
    ;
    lemma_eights(342);
    lemma_power_sum(2, 1074, 1026);
    lemma_power_grows(2, 2098, 2100);
    let d = power(2, 1074);
    let t = power(10, 342);
    assert(d * t >= d * power(2, 1026)) by (nonlinear_arith)
        requires
            t >= power(2, 1026),
    ;
    lemma_floor(r, HIGH as int, 0);
    assert(0 * (d * t) == 0) by (nonlinear_arith);
    assert(1 * (d * t) == d * t) by (nonlinear_arith);
    assert(steps(r) * 1 == steps(r)) by (nonlinear_arith);
}

pub proof fn lemma_small_powers()
    ensures
        power(2, 1) == 2,
        power(2, 16) == 65536,
        power(2, 53) == 0x20_0000_0000_0000,
{
    reveal_with_fuel(power, 18);
    lemma_power_sum(2, 16, 16);
    lemma_power_sum(2, 32, 16);
    lemma_power_sum(2, 48, 5);
}

fn raise_two(w: &mut Wide, n: u32)
    ensures
        final(w)@ == old(w)@ * power(2, n as nat),
{
    let ghost v = w@;
    let mut i: u32 = 0;
    proof {
        lemma_small_powers();
        assert(v * 1 == v) by (nonlinear_arith);
    }
    while i < n
        invariant
            i <= n,
            power(2, 16) == 65536,
            w@ == v * power(2, i as nat),
        decreases n - i,
    {
        let ghost p = power(2, i as nat);
        if n - i >= 16 {
            w.scale(65536, 0);
            proof {
                lemma_power_sum(2, i as nat, 16);
                assert(v * p * 65536 == v * (p * 65536)) by (nonlinear_arith);
            }
            i += 16;
        } else {
            w.scale(2, 0);
            assert(v * p * 2 == v * (2 * p)) by (nonlinear_arith);
            i += 1;
        }
    }
}

fn raise_ten(w: &mut Wide, n: u128)
    ensures
        final(w)@ == old(w)@ * power(10, n as nat),
{
    let ghost v = w@;
    let mut i: u128 = 0;
    assert(v * 1 == v) by (nonlinear_arith);
    while i < n
        invariant
            i <= n,
            w@ == v * power(10, i as nat),
        decreases n - i,
    {
        let ghost p = power(10, i as nat);
        w.scale(10, 0);
        assert(v * p * 10 == v * (10 * p)) by (nonlinear_arith);
        i += 1;
    }
}

fn mantissa_of(r: u64) -> (m: u64)
    requires
        r < TOP,
    ensures
        m == mantissa(r as int),
        m < 0x20_0000_0000_0000,
{
    if r < BINADE {
        r
    } else {
        r % BINADE + BINADE
    }
}

fn exponent_of(r: u64) -> (e: u32)
    requires
        r < TOP,
    ensures
        e == exponent(r as int),
{
    if r < BINADE {
        0
    } else {
        (r / BINADE - 1) as u32
    }
}

/// Whether a number of units of `2^-1075` and ten to the power `-q` is
/// rounded beyond the double of rank `r`.
fn is_past(v: &Wide, q: u128, r: u64) -> (b: bool)
    requires
        r < TOP,
    ensures
        b == (v@ > border(r as int) * power(10, q as nat) || (v@ == border(r as int) * power(
            10,
            q as nat,
        ) && r % 2 == 1)),
{
    let mut w = Wide::of((2 * mantissa_of(r) + 1) as u128);
    raise_two(&mut w, exponent_of(r));
    raise_ten(&mut w, q);
    if w.less(v) {
        true
    } else if v.less(&w) {
        false
    } else {
        r % 2 == 1
    }
}

/// How far ten to the power `x` reaches above the point.
fn above(x: i128) -> (n: u128)
    ensures
        power(10, n as nat) == over(x as int),
{
    if x > 0 {
        x as u128
    } else {
        0
    }
}

/// How far ten to the power `x` reaches below the point.
fn below(x: i128) -> (n: u128)
    requires
        x > -0x7fff_ffff_ffff_ffff_ffff_ffff_ffff_ffff,
    ensures
        power(10, n as nat) == under(x as int),
{
    if x < 0 {
        (-x) as u128
    } else {
        0
    }
}

/// A number and a power of ten in units of `2^-1075`.
fn in_units(c: &Wide, x: i128) -> (v: Wide)
    ensures
        v@ == c@ * over(x as int) * power(2, 1075),
{
    let mut v = c.copy();
    raise_ten(&mut v, above(x));
    raise_two(&mut v, 1075);
    v
}

fn wide_of(digits: &[char]) -> (c: Wide)
    requires
        all_digits(digits@),
    ensures
        c@ == digits_value(digits@),
{
    let mut c = Wide::of(0);
    let mut i: usize = 0;
    assert(digits@.take(0) =~= Seq::empty());
    while i < digits.len()
        invariant
            i <= digits@.len(),
            all_digits(digits@),
            c@ == digits_value(digits@.take(i as int)),
        decreases digits@.len() - i,
    {
        assert(is_digit(digits@[i as int]));
        assert(digits@.take(i + 1).drop_last() =~= digits@.take(i as int));
        c.scale(10, digits[i] as u32 - 48);
        i += 1;
    }
    assert(digits@.take(digits@.len() as int) =~= digits@);
    c
}

/// The rank of the double nearest to a decimal.
pub fn find_nearest(digits: &[char], x: i128) -> (r: u64)
    requires
        all_digits(digits@),
        x > -0x7fff_ffff_ffff_ffff_ffff_ffff_ffff_ffff,
    ensures
        is_nearest(digits_value(digits@), x as int, r as int),
        r == nearest(digits_value(digits@), x as int),
{
    let ghost n = digits_value(digits@);
    let v = in_units(&wide_of(digits), x);
    let q: u128 = below(x);
    let mut lo: u64 = 0;
    let mut hi: u64 = TOP;
    while lo < hi
        invariant
            lo <= hi <= TOP,
            power(10, q as nat) == under(x as int),
            v@ == n * over(x as int) * power(2, 1075),
            lo > 0 ==> past(n, x as int, lo - 1),
            hi < TOP ==> !past(n, x as int, hi as int),
        decreases hi - lo,
    {
        let mid: u64 = lo + (hi - lo) / 2;
        if is_past(&v, q, mid) {
            lo = mid + 1;
        } else {
            hi = mid;
        }
    }
    proof {
        assert(is_nearest(n, x as int, lo as int));
        lemma_nearest_once(n, x as int, lo as int, nearest(n, x as int));
    }
    lo
}

/// Whether a number and a power of ten are rounded to the double of rank
/// `r`.
fn rounds_to(c: &Wide, x: i32, r: u64) -> (b: bool)
    requires
        0 < r < TOP,
    ensures
        b == is_nearest(c@ as nat, x as int, r as int),
{
    proof {
        lemma_natural(*c);
    }
    let v = in_units(c, x as i128);
    let q: u128 = below(x as i128);
    is_past(&v, q, r - 1) && !is_past(&v, q, r)
}

/// Whether a number of powers of ten is within the double of rank `r`.
fn is_within(c: &Wide, x: i32, r: u64) -> (b: bool)
    requires
        r < TOP,
        -2000 <= x <= 2000,
    ensures
        b == (c@ * (power(2, 1074) * over(x as int)) <= steps(r as int) * under(x as int)),
{
    let mut v = c.copy();
    raise_ten(&mut v, above(x as i128));
    raise_two(&mut v, 1074);
    let mut w = Wide::of(mantissa_of(r) as u128);
    raise_two(&mut w, exponent_of(r));
    raise_ten(&mut w, below(x as i128));
    proof {
        let (n, o, p) = (c@, over(x as int) as int, power(2, 1074) as int);
        assert(n * o * p == n * (p * o)) by (nonlinear_arith);
    }
    !w.less(&v)
}

/// Whether digits and a number are what a double holds of ten to the power
/// `x`.
spec fn floors(d: Seq<char>, c: int, r: int, x: int) -> bool {
    &&& all_digits(d)
    &&& d.len() > 0 ==> d[0] != '0'
    &&& digits_value(d) == floor_at(r, x)
    &&& c == floor_at(r, x)
}

/// Go down to the next power of ten.
fn descend(d: &mut Vec<char>, c: &mut Wide, r: u64, x: i32)
    requires
        r < TOP,
        -1999 <= x <= 2000,
        floors(old(d)@, old(c)@, r as int, x as int),
    ensures
        floors(final(d)@, final(c)@, r as int, x - 1),
{
    let ghost n = floor_at(r as int, x as int);
    let ghost m = floor_at(r as int, x - 1);
    let ghost a = steps(r as int) * under(x - 1);
    let ghost b = power(2, 1074) * over(x - 1);
    proof {
        lemma_digit_more(r as int, x as int);
        lemma_floor(r as int, x - 1, m);
        assert((10 * n) * b <= m * b) by (nonlinear_arith)
            requires
                10 * n <= m,
        ;
    }
    c.scale(10, 0);
    let mut k: u32 = 0;
    let mut more = true;
    while more && k < 9
        invariant
            r < TOP,
            -1999 <= x <= 2000,
            k <= 9,
            c@ == 10 * n,
            a == steps(r as int) * under(x - 1),
            b == power(2, 1074) * over(x - 1),
            (10 * n + k) * b <= a,
            !more ==> a < (10 * n + k + 1) * b,
        decreases (if more {
            10 - k
        } else {
            9 - k
        }),
    {
        let mut t = c.copy();
        t.scale(1, k + 1);
        if is_within(&t, x - 1, r) {
            k += 1;
        } else {
            more = false;
        }
    }
    proof {
        assert(b > 0) by (nonlinear_arith)
            requires
                m * b <= a < (m + 1) * b,
        ;
        assert(10 * n + k < m + 1) by (nonlinear_arith)
            requires
                (10 * n + k) * b <= a,
                a < (m + 1) * b,
                b > 0,
        ;
        if !more {
            assert(m < 10 * n + k + 1) by (nonlinear_arith)
                requires
                    m * b <= a,
                    a < (10 * n + k + 1) * b,
                    b > 0,
            ;
        }
        assert(m == 10 * n + k);
    }
    c.scale(1, k);
    if d.len() > 0 || k > 0 {
        let ghost before = d@;
        d.push((48 + k as u8) as char);
        assert(d@.drop_last() =~= before);
        assert(all_digits(d@)) by {
            assert forall|i: int| 0 <= i < d@.len() implies is_digit(#[trigger] d@[i]) by {
                if i < before.len() {
                    assert(is_digit(before[i]));
                }
            }
        }
    }
}

/// The digits of how often a double holds ten to the power `x`.
fn floor_digits(r: u64, x: i32) -> (res: (Vec<char>, Wide))
    requires
        r < TOP,
        -1074 <= x <= HIGH,
    ensures
        floors(res.0@, res.1@, r as int, x as int),
{
    let mut d: Vec<char> = Vec::new();
    let mut c = Wide::of(0);
    let mut y: i32 = HIGH;
    proof {
        lemma_high(r as int);
    }
    while y > x
        invariant
            r < TOP,
            -1074 <= x <= y <= HIGH,
            floors(d@, c@, r as int, y as int),
        decreases y - x,
    {
        descend(&mut d, &mut c, r, y);
        y -= 1;
    }
    (d, c)
}

/// Whether a double is in the upper half of its power of ten, and whether
/// it is in the middle.
fn halves(c: &Wide, r: u64, x: i32) -> (b: (bool, bool))
    requires
        r < TOP,
        -1074 <= x <= HIGH,
        c@ == floor_at(r as int, x as int),
    ensures
        b.0 == in_upper_half(r as int, x as int),
        b.1 == in_middle(r as int, x as int),
{
    let mut v = c.copy();
    v.scale(2, 1);
    raise_ten(&mut v, above(x as i128));
    raise_two(&mut v, 1074);
    let mut w = Wide::of((2 * mantissa_of(r)) as u128);
    raise_two(&mut w, exponent_of(r));
    raise_ten(&mut w, below(x as i128));
    proof {
        let (n, o, p) = (2 * c@ + 1, over(x as int) as int, power(2, 1074) as int);
        assert(n * o * p == n * (p * o)) by (nonlinear_arith);
        assert(c@ * 2 + 1 == n);
        let (m, e) = (mantissa(r as int) as int, power(2, exponent(r as int)) as int);
        assert(2 * m * e == 2 * (m * e)) by (nonlinear_arith);
    }
    let upper = !w.less(&v);
    (upper, upper && !v.less(&w))
}

/// The digits of the next number.
pub proof fn lemma_increment_value(d: Seq<char>)
    requires
        all_digits(d),
    ensures
        all_digits(increment(d)),
        digits_value(increment(d)) == digits_value(d) + 1,
        d.len() == 0 || d[0] != '0' ==> increment(d)[0] != '0',
        increment(d).len() > 0,
    decreases d.len(),
{
    let s = increment(d);
    if d.len() == 0 {
        assert(s.drop_last() =~= Seq::empty());
        assert(digits_value(s.drop_last()) == 0);
    } else {
        let h = d.drop_last();
        assert forall|i: int| 0 <= i < h.len() implies is_digit(#[trigger] h[i]) by {
            assert(is_digit(d[i]));
        }
        assert(is_digit(d.last()));
        lemma_increment_value(h);
        if d.last() == '9' {
            assert(s.drop_last() =~= increment(h));
            assert forall|i: int| 0 <= i < s.len() implies is_digit(#[trigger] s[i]) by {
                if i < s.len() - 1 {
                    assert(is_digit(increment(h)[i]));
                }
            }
            if h.len() > 0 {
                assert(h[0] == d[0]);
            }
            assert(s[0] == increment(h)[0]);
        } else {
            assert(s.drop_last() =~= h);
            assert forall|i: int| 0 <= i < s.len() implies is_digit(#[trigger] s[i]) by {
                if i < s.len() - 1 {
                    assert(is_digit(h[i]));
                }
            }
        }
    }
}

/// Digits without a leading zero are how their number is written.
pub proof fn lemma_decimal_of(d: Seq<char>)
    requires
        all_digits(d),
        d.len() > 0,
        d[0] != '0',
    ensures
        decimal(digits_value(d)) == d,
        digits_value(d) > 0,
    decreases d.len(),
{
    let h = d.drop_last();
    let v = digits_value(d);
    assert(is_digit(d.last()));
    assert(digit_char((v % 10) as int) == d.last());
    if h.len() > 0 {
        assert forall|i: int| 0 <= i < h.len() implies is_digit(#[trigger] h[i]) by {
            assert(is_digit(d[i]));
        }
        assert(h[0] == d[0]);
        lemma_decimal_of(h);
        assert(v / 10 == digits_value(h));
        assert(h.push(d.last()) =~= d);
    } else {
        assert(digits_value(h) == 0);
        assert(seq![d.last()] =~= d);
    }
}

/// The digits of the shortest decimal of a double, and the power of ten
/// behind it.
pub fn find_shortest(r: u64) -> (res: (Vec<char>, i32))
    requires
        0 < r < TOP,
    ensures
        all_digits(res.0@),
        res.0@ == decimal(shortest(r as int).0),
        res.1 == shortest(r as int).1,
{
    let (mut d, mut c) = floor_digits(r, HIGH);
    let mut x: i32 = HIGH;
    let mut next = c.copy();
    next.scale(1, 1);
    let mut low = rounds_to(&c, x, r);
    let mut high = rounds_to(&next, x, r);
    while !low && !high
        invariant
            0 < r < TOP,
            -1074 <= x <= HIGH,
            floors(d@, c@, r as int, x as int),
            low == is_nearest(floor_at(r as int, x as int), x as int, r as int),
            high == is_nearest(floor_at(r as int, x as int) + 1, x as int, r as int),
            coarsest(r as int, HIGH as int) == coarsest(r as int, x as int),
        decreases x + 1074,
    {
        proof {
            lemma_exact(r as int);
        }
        descend(&mut d, &mut c, r, x);
        x -= 1;
        next = c.copy();
        next.scale(1, 1);
        low = rounds_to(&c, x, r);
        high = rounds_to(&next, x, r);
    }
    let up = high && (!low || halves(&c, r, x).0);
    proof {
        law_shortest_reads_back(r as int);
        lemma_increment_value(d@);
        if up {
            lemma_decimal_of(increment(d@));
        } else {
            assert(d@.len() > 0);
            lemma_decimal_of(d@);
        }
    }
    if up {
        next_integer(&mut d);
    }
    (d, x)
}

/// A double in tenths, rounded to the nearest, and to the even one from the
/// middle.
pub open spec fn rounded_tenths(r: int) -> nat {
    let n = floor_at(r, -1);
    if in_upper_half(r, -1) && (!in_middle(r, -1) || n % 2 == 1) {
        n + 1
    } else {
        n
    }
}

/// The digits of a double in tenths; none where it is zero.
pub fn tenth_digits(r: u64) -> (d: Vec<char>)
    requires
        r < TOP,
    ensures
        all_digits(d@),
        d@.len() > 0 ==> d@ == decimal(rounded_tenths(r as int)),
        d@.len() == 0 ==> rounded_tenths(r as int) == 0,
{
    let (mut d, c) = floor_digits(r, -1);
    let (upper, middle) = halves(&c, r, -1);
    let n: usize = d.len();
    let odd = n > 0 && (d[n - 1] as u32) % 2 == 1;
    proof {
        if n > 0 {
            assert(is_digit(d@.last()));
            assert(digits_value(d@) % 2 == digit_value(d@.last()) % 2);
        }
        assert(odd == (floor_at(r as int, -1) % 2 == 1));
        lemma_increment_value(d@);
        if n > 0 {
            lemma_decimal_of(d@);
        }
        lemma_decimal_of(increment(d@));
    }
    if upper && (!middle || odd) {
        next_integer(&mut d);
    }
    d
}

/// How many digits a number is written with.
pub proof fn lemma_written(c: nat)
    ensures
        decimal(c).len() > 0,
        all_digits(decimal(c)),
        digits_value(decimal(c)) == c,
        c < power(10, decimal(c).len()),
        c > 0 ==> power(10, (decimal(c).len() - 1) as nat) <= c && decimal(c)[0] != '0',
    decreases c,
{
    let s = decimal(c);
    if c >= 10 {
        lemma_written(c / 10);
        let h = decimal(c / 10);
        assert(s.drop_last() =~= h);
        assert(s[0] == h[0]);
        let k = h.len();
        assert(power(10, (k - 1) as nat) <= c / 10 < power(10, k));
        assert forall|i: int| 0 <= i < s.len() implies is_digit(#[trigger] s[i]) by {
            if i < h.len() {
                assert(is_digit(h[i]));
            }
        }
    } else {
        assert(s.drop_last() =~= Seq::empty());
        assert(digits_value(s.drop_last()) == 0);
        reveal_with_fuel(power, 2);
    }
}

/// A decimal that is rounded to a double other than zero and infinity has
/// its point near its digits.
pub proof fn lemma_magnitude(c: nat, x: int, r: int)
    requires
        is_nearest(c, x, r),
        0 < r < TOP,
        c > 0,
    ensures
        -400 <= decimal(c).len() + x <= 400,
{
    let k = decimal(c).len();
    lemma_written(c);
    let (o, u, p) = (over(x) as int, under(x) as int, power(2, 1075) as int);
    let v = c * o * p;
    lemma_high(r);
    lemma_border(r - 1);
    lemma_under(x);
    lemma_power_positive(2, 1075);
    // Not too far above.
    lemma_eights(342);
    lemma_power_grows(2, 1024, 1026);
    lemma_power_sum(2, 1024, 1075);
    let h = power(2, 1024) as int;
    let t = power(10, 342) as int;
    let b = border(r) as int;
    assert(v <= b * u);
    assert(c * o <= t * u) by (nonlinear_arith)
        requires
            v == c * o * p,
            v <= b * u,
            b < h * p,
            h <= t,
            p > 0,
            u > 0,
    ;
    let low = power(10, (k - 1) as nat) as int;
    assert(low * o <= t * u) by (nonlinear_arith)
        requires
            low <= c,
            c * o <= t * u,
            o > 0,
    ;
    if x >= 0 {
        lemma_power_sum(10, (k - 1) as nat, x as nat);
        if k - 1 + x > 342 {
            lemma_power_grows(10, 342, (k - 1 + x) as nat);
        }
    } else {
        lemma_power_sum(10, 342, (-x) as nat);
        if k - 1 > 342 - x {
            lemma_power_grows(10, (342 - x) as nat, (k - 1) as nat);
        }
    }
    // Not too far below.
    let a = border(r - 1) as int;
    lemma_eights(359);
    lemma_power_grows(2, 1075, 1077);
    let s = power(10, 359) as int;
    assert(v >= a * u);
    assert(u <= c * o * s) by (nonlinear_arith)
        requires
            v == c * o * p,
            v >= a * u,
            a >= 1,
            p <= s,
            c * o >= 0,
            u > 0,
    ;
    if x < 0 {
        let high = power(10, k) as int;
        assert(u < high * s) by (nonlinear_arith)
            requires
                u <= c * o * s,
                o == 1,
                c < high,
                s > 0,
        ;
        lemma_power_sum(10, k, 359);
        if -x >= k + 359 {
            lemma_power_grows(10, k + 359, (-x) as nat);
        }
    }
}

/// Decimals below ten to the power 300 are finite.
pub proof fn lemma_finite(c: nat, k: nat, x: int, r: int)
    requires
        is_nearest(c, x, r),
        c < power(10, k),
        k + x <= 300,
    ensures
        r < TOP,
{
    let (o, u, p) = (over(x) as int, under(x) as int, power(2, 1075) as int);
    let t = power(10, 300) as int;
    lemma_under(x);
    lemma_power_positive(10, 300);
    lemma_power_positive(2, 1075);
    let high = power(10, k) as int;
    assert(high * o <= t * u) by {
        if x >= 0 {
            lemma_power_sum(10, k, x as nat);
            lemma_power_grows(10, (k + x) as nat, 300);
            if x == 0 {
                assert(high * 1 == high) by (nonlinear_arith);
            }
            assert(t * 1 == t) by (nonlinear_arith);
        } else {
            lemma_power_sum(10, 300, (-x) as nat);
            lemma_power_grows(10, k, (300 - x) as nat);
            assert(high * 1 == high) by (nonlinear_arith);
        }
    }
    lemma_thousands(100);
    lemma_power_grows(2, 1000, 1023);
    lemma_power_sum(2, 1023, 1075);
    let h = power(2, 1023) as int;
    let top = TOP as int - 1;
    let b = border(top) as int;
    lemma_power_sum(2, 53, 2045);
    lemma_small_powers();
    let q = power(2, 2045) as int;
    assert(mantissa(top) == 0x1f_ffff_ffff_ffff && exponent(top) == 2045);
    assert(b >= 0x20_0000_0000_0000 * q) by (nonlinear_arith)
        requires
            b == (2 * 0x1f_ffff_ffff_ffff + 1) * q,
            q >= 0,
    ;
    assert(b >= h * p);
    assert(c * o * p < b * u) by (nonlinear_arith)
        requires
            c < high,
            high * o <= t * u,
            t <= h,
            b >= h * p,
            o > 0,
            p > 0,
            u > 0,
    ;
}

} // verus!
