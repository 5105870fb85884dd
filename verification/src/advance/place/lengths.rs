//! Arithmetic on lengths that stay in range.

use vstd::prelude::*;

use crate::advance::route::geometry::FAR;
use crate::advance::scene::Px;

verus! {

/// `v`, cut off at the ends of the range.
pub open spec fn bound(v: int) -> int {
    if v < -FAR {
        -FAR as int
    } else if v > FAR {
        FAR as int
    } else {
        v
    }
}

/// Whether a length is in range.
pub open spec fn bounded(v: int) -> bool {
    -FAR <= v <= FAR
}

/// The sum of two lengths.
pub open spec fn plus(a: int, b: int) -> int {
    bound(a + b)
}

/// The difference of two lengths.
pub open spec fn minus(a: int, b: int) -> int {
    bound(a - b)
}

/// `n` times a length.
pub open spec fn times(n: int, v: int) -> int {
    bound(n * v)
}

/// A length, `num` times and divided by `den`.
pub open spec fn scaled(v: int, num: int, den: int) -> int {
    bound(v * num / den)
}

pub fn cut(v: Px) -> (r: Px)
    ensures
        r == bound(v as int),
        bounded(r as int),
{
    if v < -FAR {
        -FAR
    } else if v > FAR {
        FAR
    } else {
        v
    }
}

pub fn sum(a: Px, b: Px) -> (r: Px)
    requires
        bounded(a as int),
        bounded(b as int),
    ensures
        r == plus(a as int, b as int),
        bounded(r as int),
{
    cut(a + b)
}

pub fn diff(a: Px, b: Px) -> (r: Px)
    requires
        bounded(a as int),
        bounded(b as int),
    ensures
        r == minus(a as int, b as int),
        bounded(r as int),
{
    cut(a - b)
}

pub fn cut_wide(v: i128) -> (r: Px)
    ensures
        r == bound(v as int),
        bounded(r as int),
{
    if v < -0x40_0000_0000_0000 {
        -FAR
    } else if v > 0x40_0000_0000_0000 {
        FAR
    } else {
        v as i64
    }
}

pub fn multiple(n: usize, v: Px) -> (r: Px)
    requires
        bounded(v as int),
    ensures
        r == times(n as int, v as int),
        bounded(r as int),
{
    assert(-(0xffff_ffff_ffff_ffff * 0x40_0000_0000_0000) <= n * v <= 0xffff_ffff_ffff_ffff
        * 0x40_0000_0000_0000) by (nonlinear_arith)
        requires
            0 <= n <= 0xffff_ffff_ffff_ffff,
            -0x40_0000_0000_0000 <= v <= 0x40_0000_0000_0000,
    ;
    cut_wide(n as i128 * v as i128)
}

/// Division that rounds down.
pub fn quotient(a: i128, b: i128) -> (r: i128)
    requires
        b > 0,
        -0x4000_0000_0000_0000_0000_0000_0000_0000 <= a
            <= 0x4000_0000_0000_0000_0000_0000_0000_0000,
        b <= 0x400_0000_0000_0000,
    ensures
        r == a as int / b as int,
{
    if a >= 0 {
        (a as u128 / b as u128) as i128
    } else {
        let m: u128 = (-a) as u128;
        let q: u128 = (m + (b as u128 - 1)) / b as u128;
        proof {
            let k = q as int;
            let n = m + (b - 1);
            vstd::arithmetic::div_mod::lemma_fundamental_div_mod(n, b as int);
            vstd::arithmetic::div_mod::lemma_mod_bound(n, b as int);
            // n == b * k + rest with 0 <= rest < b, so a == b * -k + (b - 1 - rest).
            let rest = n % (b as int);
            assert(a == (-k) * b + (b - 1 - rest)) by (nonlinear_arith)
                requires
                    n == b * k + rest,
                    n == m + (b - 1),
                    m == -a,
            ;
            vstd::arithmetic::div_mod::lemma_fundamental_div_mod_converse(
                a as int,
                b as int,
                -k,
                b - 1 - rest,
            );
        }
        -(q as i128)
    }
}

pub fn scale(v: Px, num: Px, den: Px) -> (r: Px)
    requires
        bounded(v as int),
        0 <= num <= 0x1_0000_0000,
        0 < den <= 0x1_0000_0000,
    ensures
        r == scaled(v as int, num as int, den as int),
        bounded(r as int),
{
    assert(-(0x40_0000_0000_0000 * 0x1_0000_0000) <= v * num <= 0x40_0000_0000_0000
        * 0x1_0000_0000) by (nonlinear_arith)
        requires
            -0x40_0000_0000_0000 <= v <= 0x40_0000_0000_0000,
            0 <= num <= 0x1_0000_0000,
    ;
    cut_wide(quotient(v as i128 * num as i128, den as i128))
}

} // verus!
