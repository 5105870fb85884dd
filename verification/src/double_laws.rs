//! Decimals of few digits and doubles tell each other apart.

use vstd::prelude::*;

use crate::double::{
    border, coarsest, exponent, floor_at, is_nearest, lemma_finite, lemma_floor, lemma_nearest,
    lemma_next, lemma_past_below, lemma_power_grows, lemma_power_positive, lemma_power_sum,
    lemma_small_powers, lemma_thousands, lemma_under, mantissa, nearest, over, past, power,
    shortest, steps, under, BINADE, HIGH, TOP,
};

verus! {

/// `k` times ten to the power `y`, counted in a fine unit that all decimals
/// and doubles here are multiples of.
spec fn fine(k: nat, y: int) -> int {
    ((k * power(10, (y + 1100) as nat)) * power(2, 1075)) as int
}

/// A double in that unit.
spec fn fine_double(r: int) -> int {
    (2 * steps(r) * power(10, 1100)) as int
}

/// The middle between a double and the next in that unit.
spec fn fine_border(r: int) -> int {
    (border(r) * power(10, 1100)) as int
}

proof fn lemma_lift(y: int)
    requires
        -1100 <= y,
    ensures
        power(10, (y + 1100) as nat) * under(y) == over(y) * power(10, 1100),
{
    if y >= 0 {
        lemma_power_sum(10, y as nat, 1100);
        let p = power(10, (y + 1100) as nat);
        assert(p * 1 == p) by (nonlinear_arith);
    } else {
        lemma_power_sum(10, (y + 1100) as nat, (-y) as nat);
        let p = power(10, 1100);
        assert(1 * p == p) by (nonlinear_arith);
    }
}

/// Common factors do not change an order.
proof fn lemma_order(f: int, g: int, v: int, w: int, u: int, s: int)
    requires
        f * u == v * s,
        g * u == w * s,
        u > 0,
        s > 0,
    ensures
        (f > g) == (v > w),
        (f == g) == (v == w),
{
    if v > w {
        assert(f > g) by (nonlinear_arith)
            requires
                f * u == v * s,
                g * u == w * s,
                u > 0,
                s > 0,
                v > w,
        ;
    } else if v < w {
        assert(f < g) by (nonlinear_arith)
            requires
                f * u == v * s,
                g * u == w * s,
                u > 0,
                s > 0,
                v < w,
        ;
    } else {
        assert(f == g) by (nonlinear_arith)
            requires
                f * u == g * u,
                u > 0,
        ;
    }
}

proof fn lemma_fine_past(k: nat, y: int, r: int)
    requires
        -1100 <= y,
    ensures
        past(k, y, r) == (fine(k, y) > fine_border(r) || (fine(k, y) == fine_border(r) && r % 2
            == 1)),
{
    lemma_lift(y);
    lemma_under(y);
    lemma_power_positive(10, 1100);
    let l = power(10, (y + 1100) as nat) as int;
    let (u, o, s, p) = (under(y) as int, over(y) as int, power(10, 1100) as int, power(
        2,
        1075,
    ) as int);
    let b = border(r) as int;
    assert(((k * l) * p) * u == (k * o * p) * s) by (nonlinear_arith)
        requires
            l * u == o * s,
    ;
    assert((b * s) * u == (b * u) * s) by (nonlinear_arith);
    lemma_order(fine(k, y), fine_border(r), k * o * p, b * u, u, s);
}

/// What is rounded to a double is at most half a mantissa step from it.
proof fn lemma_half_step(k: nat, y: int, r: int)
    requires
        -1100 <= y,
        0 < r < TOP,
        is_nearest(k, y, r),
    ensures
        ({
            let u = power(2, exponent(r)) * power(10, 1100);
            fine_double(r) - u <= fine(k, y) <= fine_double(r) + u
        }),
{
    lemma_fine_past(k, y, r);
    lemma_fine_past(k, y, r - 1);
    lemma_next(r - 1);
    assert(exponent(r - 1) <= exponent(r)) by {
        let b = BINADE as int;
        if r - 1 >= b {
            assert((r - 1) / b <= r / b);
        }
    }
    lemma_power_grows(2, exponent(r - 1), exponent(r));
    let (m, p) = (mantissa(r) as int, power(2, exponent(r)) as int);
    let (n, q) = (mantissa(r - 1) as int, power(2, exponent(r - 1)) as int);
    assert((2 * m + 1) * p == 2 * (m * p) + p) by (nonlinear_arith);
    assert((2 * n + 1) * q == 2 * ((n + 1) * q) - q) by (nonlinear_arith);
    let s = power(10, 1100) as int;
    lemma_power_positive(10, 1100);
    let d = 2 * steps(r);
    assert((d + p) * s == d * s + p * s) by (nonlinear_arith);
    assert((d - q) * s >= d * s - p * s) by (nonlinear_arith)
        requires
            q <= p,
            s > 0,
    ;
}

/// How far half a mantissa step of a double reaches beside a decimal of few
/// digits that is rounded to it: less than half a unit of its last digit.
proof fn lemma_narrow(c: nat, x: int, r: int)
    requires
        -1100 <= x,
        BINADE <= r < TOP,
        is_nearest(c, x, r),
        c < 1_000_000_000_000_000,
    ensures
        2 * (power(2, exponent(r)) * power(10, 1100)) < fine(1, x),
{
    lemma_half_step(c, x, r);
    let (m, p, s) = (mantissa(r) as int, power(2, exponent(r)) as int, power(10, 1100) as int);
    let u = p * s;
    let t = fine(1, x);
    let l = power(10, (x + 1100) as nat) as int;
    let q = power(2, 1075) as int;
    lemma_power_positive(2, exponent(r));
    lemma_power_positive(10, 1100);
    assert(u > 0) by (nonlinear_arith)
        requires
            u == p * s,
            p > 0,
            s > 0,
    ;
    assert((c * l) * q == c * ((1 * l) * q)) by (nonlinear_arith);
    assert(2 * (m * p) * s == 2 * m * u) by (nonlinear_arith)
        requires
            u == p * s,
    ;
    assert(m >= BINADE);
    assert(2 * m * u >= 0x20_0000_0000_0000 * u) by (nonlinear_arith)
        requires
            2 * m >= 0x20_0000_0000_0000,
            u > 0,
    ;
    assert(c * t <= 1_000_000_000_000_000 * t) by (nonlinear_arith)
        requires
            c <= 1_000_000_000_000_000,
            t >= 0,
    ;
}

/// Of all decimals with no more decimals, only one of few digits is rounded
/// to its double.
proof fn lemma_alone(c: nat, x: int, r: int, k: nat, y: int)
    requires
        -1100 <= x <= y,
        BINADE <= r < TOP,
        is_nearest(c, x, r),
        c < 1_000_000_000_000_000,
        c % 10 != 0,
        is_nearest(k, y, r),
    ensures
        k == c,
        y == x,
{
    lemma_narrow(c, x, r);
    lemma_half_step(c, x, r);
    lemma_half_step(k, y, r);
    let t = fine(1, x);
    let z = (y - x) as nat;
    lemma_power_sum(10, z, (x + 1100) as nat);
    let l = power(10, (x + 1100) as nat) as int;
    let (q, w) = (power(2, 1075) as int, power(10, z) as int);
    assert((k * (w * l)) * q == (k * w) * ((1 * l) * q)) by (nonlinear_arith);
    assert((c * l) * q == c * ((1 * l) * q)) by (nonlinear_arith);
    let n = k * w;
    assert(n == c) by (nonlinear_arith)
        requires
            -t < n * t - c * t < t,
            t > 0,
    ;
    if z > 0 {
        let v = power(10, (z - 1) as nat) as int;
        assert(k * (10 * v) == 10 * (k * v)) by (nonlinear_arith);
    } else {
        assert(k * 1 == k) by (nonlinear_arith);
    }
}

proof fn lemma_fine_floor(r: int, x: int)
    requires
        -1100 <= x,
    ensures
        floor_at(r, x) * fine(1, x) <= fine_double(r) < (floor_at(r, x) + 1) * fine(1, x),
{
    let f = floor_at(r, x);
    lemma_floor(r, x, f);
    lemma_lift(x);
    lemma_under(x);
    lemma_power_positive(10, 1100);
    let l = power(10, (x + 1100) as nat) as int;
    let (u, o, s) = (under(x) as int, over(x) as int, power(10, 1100) as int);
    let (p, d) = (power(2, 1075) as int, power(2, 1074) as int);
    assert(p == 2 * d);
    let v = steps(r) as int;
    lemma_floor_side(f as int, l, p, d, o, u, s, v);
    lemma_floor_side(f as int + 1, l, p, d, o, u, s, v);
}

proof fn lemma_floor_side(n: int, l: int, p: int, d: int, o: int, u: int, s: int, v: int)
    requires
        l * u == o * s,
        p == 2 * d,
        u > 0,
        s > 0,
    ensures
        (n * ((1 * l) * p) <= 2 * v * s) == (n * (d * o) <= v * u),
{
    assert((n * ((1 * l) * p)) * u == (2 * (n * (d * o))) * s) by (nonlinear_arith)
        requires
            l * u == o * s,
            p == 2 * d,
    ;
    assert((2 * v * s) * u == (2 * (v * u)) * s) by (nonlinear_arith);
    lemma_order(n * ((1 * l) * p), 2 * v * s, 2 * (n * (d * o)), 2 * (v * u), u, s);
}

proof fn lemma_not_coarser(c: nat, x: int, r: int, y: int)
    requires
        -1074 <= x <= y,
        BINADE <= r < TOP,
        is_nearest(c, x, r),
        c < 1_000_000_000_000_000,
        c % 10 != 0,
        floor_at(r, x) == c || floor_at(r, x) + 1 == c,
    ensures
        coarsest(r, y) == x,
    decreases y - x,
{
    if y > x {
        let f = floor_at(r, y);
        if is_nearest(f, y, r) {
            lemma_alone(c, x, r, f, y);
        }
        if is_nearest(f + 1, y, r) {
            lemma_alone(c, x, r, f + 1, y);
        }
        lemma_not_coarser(c, x, r, y - 1);
    }
}

/// A decimal of at most fifteen digits, the last of them not zero, is the
/// shortest that is rounded to its double, as long as it is far from the
/// ends of the range.
pub proof fn law_few_digits_are_kept(c: nat, n: nat, x: int)
    requires
        0 < n <= 15,
        power(10, (n - 1) as nat) <= c < power(10, n),
        c % 10 != 0,
        -290 <= n + x <= 300,
    ensures
        0 < nearest(c, x) < TOP,
        shortest(nearest(c, x)) == (c, x),
{
    let r = nearest(c, x);
    lemma_nearest(c, x);
    lemma_finite(c, n, x, r);
    lemma_power_grows(10, n, 15);
    assert(power(10, 15) == 1_000_000_000_000_000) by {
        reveal_with_fuel(power, 16);
    }
    lemma_normal(c, n, x);
    lemma_narrow(c, x, r);
    lemma_half_step(c, x, r);
    lemma_fine_floor(r, x);
    let t = fine(1, x);
    let l = power(10, (x + 1100) as nat) as int;
    let q = power(2, 1075) as int;
    assert((c * l) * q == c * ((1 * l) * q)) by (nonlinear_arith);
    let f = floor_at(r, x) as int;
    let d = fine_double(r);
    assert(f == c || f + 1 == c) by {
        assert(f < c + 1) by (nonlinear_arith)
            requires
                f * t <= d,
                d < c * t + t,
                t > 0,
        ;
        assert(c - 1 < f + 1) by (nonlinear_arith)
            requires
                d < (f + 1) * t,
                d > c * t - t,
                t > 0,
        ;
    }
    lemma_not_coarser(c, x, r, HIGH as int);
    if is_nearest(floor_at(r, x), x, r) {
        lemma_alone(c, x, r, floor_at(r, x), x);
    }
    if is_nearest(floor_at(r, x) + 1, x, r) {
        lemma_alone(c, x, r, floor_at(r, x) + 1, x);
    }
}

/// Decimals that are not too small have all their binary digits.
proof fn lemma_normal(c: nat, n: nat, x: int)
    requires
        0 < n <= 15,
        power(10, (n - 1) as nat) <= c,
        -290 <= n + x <= 300,
    ensures
        nearest(c, x) >= BINADE,
{
    let r = nearest(c, x);
    let b = BINADE as int - 1;
    lemma_nearest(c, x);
    lemma_fine_past(c, x, b);
    lemma_small_powers();
    let s = power(10, 1100) as int;
    let (l, q) = (power(10, (x + 1100) as nat) as int, power(2, 1075) as int);
    assert(mantissa(b) == BINADE - 1 && exponent(b) == 0);
    assert(border(b) < 0x20_0000_0000_0000) by (nonlinear_arith)
        requires
            border(b) == (2 * (BINADE - 1) + 1) * power(2, 0),
            power(2, 0) == 1,
    ;
    // c * l >= 10^(n + x + 1099) >= 10^809
    lemma_power_sum(10, (n - 1) as nat, (x + 1100) as nat);
    lemma_power_grows(10, 809, (n - 1 + x + 1100) as nat);
    let low = power(10, (n - 1) as nat) as int;
    let z = power(10, 809) as int;
    lemma_power_positive(10, (x + 1100) as nat);
    assert(c * l >= low * l) by (nonlinear_arith)
        requires
            c >= low,
            l > 0,
    ;
    // 10^1100 == 10^809 * 10^291, and 10^291 < 2^1022
    lemma_power_sum(10, 809, 291);
    lemma_thousands(97);
    lemma_power_grows(2, 970, 1022);
    lemma_power_sum(2, 53, 1022);
    let (k, h) = (power(10, 291) as int, power(2, 1022) as int);
    let g = border(b) as int;
    lemma_power_positive(10, 809);
    assert((c * l) * q > g * s) by (nonlinear_arith)
        requires
            c * l >= z,
            s == z * k,
            k < h,
            q == 0x20_0000_0000_0000 * h,
            0 <= g < 0x20_0000_0000_0000,
            z > 0,
            k >= 0,
    ;
    if r <= b {
        lemma_past_below(c, x, r, b);
    }
}

} // verus!
