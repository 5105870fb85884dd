//! Decimal numbers as they are written in diagrams.
//!
//! A [`Num`] is a number in double precision, by its canonical text: the
//! shortest decimal that is rounded to it, with no exponent and no
//! superfluous zeros, or `NaN`, `inf` or `-inf`.

use vstd::prelude::*;

use crate::double::{
    find_nearest, find_shortest, is_nearest, law_shortest_reads_back, lemma_magnitude,
    lemma_written, nearest, rounded_tenths, shortest, tenth_digits, TOP,
};
use crate::num_laws::{lemma_strip_prefix, lemma_strip_suffix, lemma_told_apart};
use crate::text::{
    all_digits, chars_of, decimal, digit, digit_char, eq, eq_ignore_case, find_char, first_index,
    has_prefix, is_digit, lower, starts_with, str_eq, string_of, strip_all_prefix,
    strip_all_suffix, trim_end_matches, trim_start_matches,
};

verus! {

/// The decimals of the greatest value that rounds to one in double
/// precision, `1 + 2^-53`.
pub const UNIT_DIGITS: &'static str = "00000000000000011102230246251565404236316680908203125";

/// A number, by its canonical text.
#[derive(Debug, PartialEq)]
pub struct Num {
    pub text: String,
}

impl View for Num {
    type V = Seq<char>;

    open spec fn view(&self) -> Seq<char> {
        self.text@
    }
}

impl Clone for Num {
    fn clone(&self) -> (r: Self)
        ensures
            r@ == self@,
    {
        Num { text: self.text.clone() }
    }
}

/// What a number literal says: not a number, an infinity, or the integer
/// `digits` scaled by ten to the power `exp`.
pub enum Literal {
    NotANumber,
    Infinite { neg: bool },
    Finite { neg: bool, digits: Seq<char>, exp: int },
}

/// Whether a sign stands in front, and what follows it.
pub open spec fn cut_sign(s: Seq<char>) -> (bool, Seq<char>) {
    if s.len() > 0 && s[0] == '-' {
        (true, s.skip(1))
    } else if s.len() > 0 && s[0] == '+' {
        (false, s.skip(1))
    } else {
        (false, s)
    }
}

/// The value of a digit.
pub open spec fn digit_value(c: char) -> nat {
    (c as u32 - '0' as u32) as nat
}

/// The integer that a digit string denotes.
pub open spec fn digits_value(s: Seq<char>) -> nat
    decreases s.len(),
{
    if s.len() == 0 {
        0
    } else {
        digits_value(s.drop_last()) * 10 + digit_value(s.last())
    }
}

/// The position of the exponent mark of `s`, or its length.
pub open spec fn exponent_at(s: Seq<char>, i: int) -> int
    decreases s.len() - i,
{
    if i < 0 || i >= s.len() || s[i] == 'e' || s[i] == 'E' {
        i
    } else {
        exponent_at(s, i + 1)
    }
}

/// The exponent written after the mark: an optional sign and digits.
pub open spec fn exponent_value(s: Seq<char>) -> Option<int> {
    let (neg, d) = cut_sign(s);
    if d.len() > 0 && all_digits(d) {
        Some(if neg {
            -(digits_value(d) as int)
        } else {
            digits_value(d) as int
        })
    } else {
        None
    }
}

/// The digits before and after the decimal point.
pub open spec fn cut_point(s: Seq<char>) -> (Seq<char>, Seq<char>) {
    match first_index(s, '.') {
        Some(k) => (s.take(k), s.skip(k + 1)),
        None => (s, Seq::empty()),
    }
}

/// The number literal without its sign: digits with an optional decimal
/// point among or around them, at least one digit in all, and an optional
/// exponent.
pub open spec fn unsigned_literal(neg: bool, s: Seq<char>) -> Option<Literal> {
    let k = exponent_at(s, 0);
    let (whole, frac) = cut_point(s.take(k));
    let exp = if k < s.len() {
        exponent_value(s.skip(k + 1))
    } else {
        Some(0)
    };
    if whole.len() + frac.len() > 0 && all_digits(whole) && all_digits(frac) && exp is Some {
        Some(Literal::Finite { neg, digits: whole + frac, exp: exp->Some_0 - frac.len() })
    } else {
        None
    }
}

/// The number literals: a sign, then `inf`, `infinity` or `nan` in any
/// case, or a decimal number.
pub open spec fn literal(s: Seq<char>) -> Option<Literal> {
    let (neg, body) = cut_sign(s);
    if lower(body) == lower("inf"@) || lower(body) == lower("infinity"@) {
        Some(Literal::Infinite { neg })
    } else if lower(body) == lower("nan"@) {
        Some(Literal::NotANumber)
    } else {
        unsigned_literal(neg, body)
    }
}

pub open spec fn rest_or_empty(b: Seq<char>) -> Seq<char> {
    if b.len() > 0 {
        b.skip(1)
    } else {
        b
    }
}

/// Whether `0.a` is at most `0.b`, digit by digit.
pub open spec fn digits_le(a: Seq<char>, b: Seq<char>) -> bool
    decreases a.len(),
{
    if a.len() == 0 {
        true
    } else {
        let c = if b.len() > 0 && b[0] >= '0' {
            b[0]
        } else {
            '0'
        };
        a[0] < c || (a[0] == c && digits_le(a.skip(1), rest_or_empty(b)))
    }
}

pub open spec fn zeros(n: nat) -> Seq<char> {
    Seq::new(n, |i: int| '0')
}

/// `0.d` scaled by ten to the power `a`, without an exponent.
pub open spec fn place_point(d: Seq<char>, a: int) -> Seq<char> {
    if a <= 0 {
        "0."@ + zeros((-a) as nat) + d
    } else if a >= d.len() {
        d + zeros((a - d.len()) as nat)
    } else {
        d.take(a) + "."@ + d.skip(a)
    }
}

pub open spec fn sign_text(neg: bool) -> Seq<char> {
    if neg {
        "-"@
    } else {
        Seq::empty()
    }
}

/// The rank of the double nearest to `0.e` scaled by ten to the power `a`.
pub open spec fn rank(e: Seq<char>, a: int) -> int {
    if a > 400 {
        TOP as int
    } else if a < -400 {
        0
    } else {
        nearest(digits_value(e), a - e.len())
    }
}

/// A double that is not negative, with the fewest digits that tell it from
/// all others.
pub open spec fn double_text(r: int) -> Seq<char> {
    if r == 0 {
        "0"@
    } else if r == TOP {
        "inf"@
    } else {
        let (c, x) = shortest(r);
        place_point(strip_all_suffix(decimal(c), "0"@), decimal(c).len() + x)
    }
}

/// Whether `0.e` scaled by ten to the power `a` is the shortest decimal of
/// its double: it has at most fifteen digits.
pub open spec fn told_apart(e: Seq<char>, a: int) -> bool {
    e.len() <= 15 && -290 <= a <= 300
}

/// The canonical text of `0.e` scaled by ten to the power `a`, where `e`
/// neither starts nor ends with zero.
#[verifier::opaque]
pub open spec fn canonical_decimal(e: Seq<char>, a: int) -> Seq<char> {
    double_text(rank(e, a))
}

/// The canonical text of a number literal.
pub open spec fn canonical(l: Literal) -> Seq<char> {
    match l {
        Literal::NotANumber => "NaN"@,
        Literal::Infinite { neg } => sign_text(neg) + "inf"@,
        Literal::Finite { neg, digits, exp } => {
            let d = strip_all_prefix(digits, "0"@);
            sign_text(neg) + if d.len() == 0 {
                "0"@
            } else {
                canonical_decimal(strip_all_suffix(d, "0"@), d.len() + exp)
            }
        },
    }
}

/// The canonical text of the number that `s` writes, if it writes one.
pub open spec fn number(s: Seq<char>) -> Option<Seq<char>> {
    match literal(s) {
        Some(l) => Some(canonical(l)),
        None => None,
    }
}

fn digits_at_most(a: &[char], b: &[char]) -> (r: bool)
    ensures
        r == digits_le(a@, b@),
{
    let mut i: usize = 0;
    let ghost rest = b@;
    assert(a@.skip(0) =~= a@);
    while i < a.len()
        invariant
            i <= a@.len(),
            digits_le(a@, b@) == digits_le(a@.skip(i as int), rest),
            i <= b@.len() ==> rest == b@.skip(i as int),
            i > b@.len() ==> rest.len() == 0,
        decreases a@.len() - i,
    {
        let c = if i < b.len() && b[i] >= '0' {
            b[i]
        } else {
            '0'
        };
        if a[i] < c {
            return true;
        }
        if a[i] != c {
            return false;
        }
        assert(a@.skip(i as int).skip(1) =~= a@.skip(i as int + 1));
        proof {
            if i < b@.len() {
                assert(b@.skip(i as int).skip(1) =~= b@.skip(i as int + 1));
            }
            rest = rest_or_empty(rest);
        }
        i += 1;
    }
    true
}

fn only_digits(s: &[char]) -> (r: bool)
    ensures
        r == all_digits(s@),
{
    let mut i: usize = 0;
    while i < s.len()
        invariant
            i <= s@.len(),
            forall|j: int| 0 <= j < i ==> is_digit(#[trigger] s@[j]),
        decreases s@.len() - i,
    {
        if !digit(s[i]) {
            assert(!is_digit(s@[i as int]));
            return false;
        }
        i += 1;
    }
    true
}

/// An exponent beyond every length a text can have.
const EXPONENT_CAP: i128 = 1_000_000_000_000_000_000_000_000_000_000;

/// The integer that `s` denotes, or `EXPONENT_CAP` when that is greater.
fn capped_value(s: &[char]) -> (r: i128)
    requires
        all_digits(s@),
    ensures
        0 <= r <= EXPONENT_CAP,
        r < EXPONENT_CAP ==> r == digits_value(s@),
        r == EXPONENT_CAP ==> digits_value(s@) >= EXPONENT_CAP,
{
    let mut v: i128 = 0;
    let mut i: usize = 0;
    assert(s@.subrange(0, 0) =~= Seq::<char>::empty());
    while i < s.len()
        invariant
            i <= s@.len(),
            all_digits(s@),
            0 <= v <= EXPONENT_CAP,
            v < EXPONENT_CAP ==> v == digits_value(s@.subrange(0, i as int)),
            v == EXPONENT_CAP ==> digits_value(s@.subrange(0, i as int)) >= EXPONENT_CAP,
        decreases s@.len() - i,
    {
        assert(is_digit(s@[i as int]));
        let d: i128 = (s[i] as u32 - 48) as i128;
        assert(s@.subrange(0, i as int + 1).drop_last() =~= s@.subrange(0, i as int));
        v = v * 10 + d;
        if v > EXPONENT_CAP {
            v = EXPONENT_CAP;
        }
        i += 1;
    }
    assert(s@.subrange(0, s@.len() as int) =~= s@);
    v
}

fn split_sign<'a>(s: &'a [char]) -> (r: (bool, &'a [char]))
    ensures
        (r.0, r.1@) == cut_sign(s@),
{
    if s.len() > 0 && (s[0] == '-' || s[0] == '+') {
        let rest = &s[1..s.len()];
        assert(rest@ =~= s@.skip(1));
        (s[0] == '-', rest)
    } else {
        (false, s)
    }
}

fn push_zeros(out: &mut String, n: usize)
    ensures
        final(out)@ == old(out)@ + zeros(n as nat),
{
    let mut i: usize = 0;
    assert(out@ =~= old(out)@ + zeros(0));
    while i < n
        invariant
            i <= n,
            out@ == old(out)@ + zeros(i as nat),
        decreases n - i,
    {
        out.push('0');
        i += 1;
        assert(out@ =~= old(out)@ + zeros(i as nat));
    }
}

/// `0.d` scaled by ten to the power `a`, after `sign`.
fn write_decimal(neg: bool, d: &[char], a: i128) -> (r: String)
    requires
        -400 <= a <= 400,
    ensures
        r@ == sign_text(neg) + place_point(d@, a as int),
{
    let mut out = String::new();
    if neg {
        out.append("-");
    }
    assert(out@ =~= sign_text(neg));
    if a <= 0 {
        out.append("0.");
        push_zeros(&mut out, (-a) as usize);
        out.append(string_of(d).as_str());
    } else if a >= d.len() as i128 {
        out.append(string_of(d).as_str());
        push_zeros(&mut out, (a - d.len() as i128) as usize);
    } else {
        let k: usize = a as usize;
        let head = &d[0..k];
        let tail = &d[k..d.len()];
        assert(head@ =~= d@.take(a as int));
        assert(tail@ =~= d@.skip(a as int));
        out.append(string_of(head).as_str());
        out.append(".");
        out.append(string_of(tail).as_str());
    }
    assert(out@ =~= sign_text(neg) + place_point(d@, a as int));
    out
}

fn signed(neg: bool, s: &str) -> (r: Num)
    ensures
        r@ == sign_text(neg) + s@,
{
    let mut out = String::new();
    if neg {
        out.append("-");
    }
    out.append(s);
    assert(out@ =~= sign_text(neg) + s@);
    Num { text: out }
}

fn split_point<'a>(s: &'a [char]) -> (r: (&'a [char], &'a [char]))
    ensures
        (r.0@, r.1@) == cut_point(s@),
{
    let n: usize = s.len();
    match find_char(s, '.') {
        Some(k) => {
            let a = &s[0..k];
            let b = &s[k + 1..n];
            assert(a@ =~= s@.take(k as int));
            assert(b@ =~= s@.skip(k as int + 1));
            (a, b)
        },
        None => {
            let b = &s[0..0];
            assert(b@ =~= Seq::<char>::empty());
            (s, b)
        },
    }
}

/// Stripping zeros leaves digits that neither start nor end with one.
proof fn lemma_trimmed_digits(digits: Seq<char>)
    requires
        all_digits(digits),
    ensures
        ({
            let d = strip_all_prefix(digits, "0"@);
            let e = strip_all_suffix(d, "0"@);
            &&& all_digits(d)
            &&& all_digits(e)
            &&& d.len() > 0 ==> e.len() > 0 && e[0] != '0' && e.last() != '0'
        }),
{
    lemma_strip_prefix(digits);
    let d = strip_all_prefix(digits, "0"@);
    let k = lemma_strip_suffix(d);
    let e = strip_all_suffix(d, "0"@);
    if d.len() > 0 {
        if e.len() == 0 {
            assert(d =~= zeros(k));
        }
        assert(e[0] == d[0]);
    }
}

fn find_rank(e: &[char], a: i128) -> (r: u64)
    requires
        all_digits(e@),
    ensures
        r == rank(e@, a as int),
        r <= TOP,
        a <= 400 && a >= -400 ==> is_nearest(digits_value(e@), a - e@.len(), r as int),
{
    if a > 400 {
        TOP
    } else if a < -400 {
        0
    } else {
        find_nearest(e, a - e.len() as i128)
    }
}

/// A double, after its sign.
fn write_double(neg: bool, r: u64) -> (n: Num)
    requires
        r <= TOP,
    ensures
        n@ == sign_text(neg) + double_text(r as int),
{
    if r == 0 {
        return signed(neg, "0");
    }
    if r == TOP {
        return signed(neg, "inf");
    }
    let (d, x) = find_shortest(r);
    proof {
        law_shortest_reads_back(r as int);
        lemma_magnitude(shortest(r as int).0, x as int, r as int);
    }
    let e = trim_end_matches(d.as_slice(), "0");
    Num { text: write_decimal(neg, e, d.len() as i128 + x as i128) }
}

fn parse_unsigned(neg: bool, s: &[char]) -> (r: Option<Num>)
    ensures
        match unsigned_literal(neg, s@) {
            Some(l) => r is Some && r->Some_0@ == canonical(l),
            None => r is None,
        },
{
    let n: usize = s.len();
    let mut k: usize = 0;
    while k < n && s[k] != 'e' && s[k] != 'E'
        invariant
            n == s@.len(),
            k <= n,
            exponent_at(s@, 0) == exponent_at(s@, k as int),
        decreases n - k,
    {
        k += 1;
    }
    let mantissa = &s[0..k];
    assert(mantissa@ =~= s@.take(k as int));
    let (whole, frac) = split_point(mantissa);
    let mut exp: i128 = 0;
    let ghost mut exp_spec: int = 0;
    if k < n {
        let tail = &s[k + 1..n];
        assert(tail@ =~= s@.skip(k as int + 1));
        let (eneg, ed) = split_sign(tail);
        if ed.len() == 0 || !only_digits(ed) {
            return None;
        }
        let v: i128 = capped_value(ed);
        exp = if eneg {
            -v
        } else {
            v
        };
        proof {
            exp_spec = exponent_value(tail@)->Some_0;
        }
    }
    if (whole.len() == 0 && frac.len() == 0) || !only_digits(whole) || !only_digits(frac) {
        return None;
    }
    let mut digits: Vec<char> = Vec::new();
    digits.extend_from_slice(whole);
    digits.extend_from_slice(frac);
    assert(digits@ =~= whole@ + frac@);
    let d = trim_start_matches(digits.as_slice(), "0");
    let a: i128 = d.len() as i128 + exp - frac.len() as i128;
    let ghost a_spec = d@.len() + (exp_spec - frac@.len());
    assert(-400 <= a <= 400 ==> a == a_spec);
    assert(a > 400 ==> a_spec > 400);
    assert(a < -400 ==> a_spec < -400);
    if d.len() == 0 {
        return Some(signed(neg, "0"));
    }
    proof {
        reveal(canonical_decimal);
        lemma_trimmed_digits(whole@ + frac@);
    }
    let e = trim_end_matches(d, "0");
    if e.len() <= 15 && -290 <= a && a <= 300 {
        proof {
            lemma_told_apart(e@, a as int);
        }
        return Some(Num { text: write_decimal(neg, e, a) });
    }
    Some(write_double(neg, find_rank(e, a)))
}

/// The number that `s` writes, in the notation of [`literal`].
pub fn parse_num(s: &[char]) -> (r: Option<Num>)
    ensures
        match number(s@) {
            Some(t) => r is Some && r->Some_0@ == t,
            None => r is None,
        },
{
    let (neg, body) = split_sign(s);
    if eq_ignore_case(body, "inf") || eq_ignore_case(body, "infinity") {
        Some(signed(neg, "inf"))
    } else if eq_ignore_case(body, "nan") {
        let mut out = String::new();
        out.append("NaN");
        assert(out@ =~= "NaN"@);
        Some(Num { text: out })
    } else {
        parse_unsigned(neg, body)
    }
}

/// The digit string of the next integer.
pub open spec fn increment(d: Seq<char>) -> Seq<char>
    decreases d.len(),
{
    if d.len() == 0 {
        seq!['1']
    } else if d.last() == '9' {
        increment(d.drop_last()).push('0')
    } else {
        d.drop_last().push((d.last() as u32 + 1) as char)
    }
}

/// Twenty times a double-precision mantissa at least `2^52`.
pub const MANTISSA: u64 = 90071992547409920;

/// `n` doubled until it is at least twenty times `2^52`.
pub open spec fn scaled(n: nat) -> nat
    decreases 2 * MANTISSA - n,
{
    if n == 0 || n >= MANTISSA {
        n
    } else {
        scaled(2 * n)
    }
}

/// Whether the double nearest to `t` tenths and one twentieth is shown with
/// the next tenth: it lies above that sum, or it is that sum and `t` is odd.
pub open spec fn twentieth_up(t: nat) -> bool {
    let rest = scaled(2 * t + 1) % 20;
    rest > 10 || (rest == 0 && t % 2 == 1)
}

pub fn is_twentieth_up(t: u128) -> (r: bool)
    requires
        t < 0x4000_0000_0000_0000_0000_0000_0000_0000,
    ensures
        r == twentieth_up(t as nat),
{
    let rest: u128 = scale(2 * t + 1) % 20;
    rest > 10 || (rest == 0 && t % 2 == 1)
}

/// Whether the double nearest to `whole` plus `tenth` tenths plus one
/// twentieth is shown with the next tenth.
pub open spec fn tie_up(whole: Seq<char>, tenth: nat) -> bool {
    twentieth_up(10 * digits_value(whole) + tenth)
}

/// Whether `whole` and the decimals `frac`, at least two of them, round up
/// to the next tenth.
pub open spec fn rounds_up(whole: Seq<char>, frac: Seq<char>) -> bool {
    frac[1] > '5' || (frac[1] == '5' && (frac.len() > 2 || tie_up(whole, digit_value(frac[0]))))
}

/// Digits with a decimal point before the last one.
pub open spec fn point_before_last(d: Seq<char>) -> Seq<char> {
    d.drop_last() + "."@ + seq![d.last()]
}

/// Whether every character but the sign and the point is a digit.
pub open spec fn plain(t: Seq<char>) -> bool {
    let body = cut_sign(t).1;
    let (whole, frac) = cut_point(body);
    all_digits(whole) && all_digits(frac)
}

/// The digits of a decimal without zeros at either end.
pub open spec fn significant(whole: Seq<char>, frac: Seq<char>) -> Seq<char> {
    strip_all_suffix(strip_all_prefix(whole + frac, "0"@), "0"@)
}

/// Where the point of a decimal stands, from the first digit that is not
/// zero on.
pub open spec fn point_at(whole: Seq<char>, frac: Seq<char>) -> int {
    strip_all_prefix(whole + frac, "0"@).len() - frac.len()
}

/// A double that is not negative, with one decimal.
#[verifier::opaque]
pub open spec fn tenths_of(r: int) -> Seq<char> {
    if r == TOP {
        "inf"@
    } else {
        let n = rounded_tenths(r);
        decimal(n / 10) + "."@ + seq![digit_char((n % 10) as int)]
    }
}

/// A number of at most fifteen digits with one decimal.
pub open spec fn short_tenths(whole: Seq<char>, frac: Seq<char>) -> Seq<char> {
    if frac.len() == 0 {
        whole + ".0"@
    } else if frac.len() == 1 {
        whole + "."@ + frac
    } else {
        let d = whole.push(frac[0]);
        point_before_last(
            if rounds_up(whole, frac) {
                increment(d)
            } else {
                d
            },
        )
    }
}

/// A number with one decimal, as double precision shows it. Of a number of
/// at most fifteen digits the digits themselves tell how it is rounded, but
/// for where it is in the middle between two tenths.
pub open spec fn tenths(t: Seq<char>) -> Seq<char> {
    let (neg, body) = cut_sign(t);
    let (whole, frac) = cut_point(body);
    if !finite(t) || !plain(t) {
        t
    } else if whole.len() > 15 || significant(whole, frac).len() > 15 {
        sign_text(neg) + tenths_of(rank(significant(whole, frac), point_at(whole, frac)))
    } else {
        sign_text(neg) + short_tenths(whole, frac)
    }
}

/// Count digits up by one.
pub fn next_integer(d: &mut Vec<char>)
    requires
        all_digits(old(d)@),
    ensures
        final(d)@ == increment(old(d)@),
    decreases old(d)@.len(),
{
    match d.pop() {
        None => {
            d.push('1');
            assert(d@ =~= increment(old(d)@));
        },
        Some(c) => {
            assert(is_digit(old(d)@.last()));
            assert(d@ =~= old(d)@.drop_last());
            if c == '9' {
                assert(forall|i: int| 0 <= i < d@.len() ==> d@[i] == old(d)@[i]);
                assert(all_digits(d@)) by {
                    assert forall|i: int| 0 <= i < d@.len() implies is_digit(#[trigger] d@[i]) by {
                        assert(is_digit(old(d)@[i]));
                    }
                }
                next_integer(d);
                d.push('0');
            } else {
                let u: u8 = c as u8;
                d.push((u + 1) as char);
            }
        },
    }
}

fn scale(n: u128) -> (r: u128)
    requires
        0 < n,
    ensures
        r == scaled(n as nat),
{
    let mut m: u128 = n;
    while m < MANTISSA as u128
        invariant
            0 < m,
            scaled(n as nat) == scaled(m as nat),
        decreases 2 * MANTISSA - m,
    {
        m = 2 * m;
    }
    m
}

proof fn lemma_digits_bound(s: Seq<char>, k: nat)
    requires
        all_digits(s),
        s.len() <= k <= 16,
    ensures
        digits_value(s) < 10_000_000_000_000_000,
        k == 0 ==> digits_value(s) < 1,
        k == 1 ==> digits_value(s) < 10,
        k == 2 ==> digits_value(s) < 100,
        k == 3 ==> digits_value(s) < 1_000,
        k == 4 ==> digits_value(s) < 10_000,
        k == 5 ==> digits_value(s) < 100_000,
        k == 6 ==> digits_value(s) < 1_000_000,
        k == 7 ==> digits_value(s) < 10_000_000,
        k == 8 ==> digits_value(s) < 100_000_000,
        k == 9 ==> digits_value(s) < 1_000_000_000,
        k == 10 ==> digits_value(s) < 10_000_000_000,
        k == 11 ==> digits_value(s) < 100_000_000_000,
        k == 12 ==> digits_value(s) < 1_000_000_000_000,
        k == 13 ==> digits_value(s) < 10_000_000_000_000,
        k == 14 ==> digits_value(s) < 100_000_000_000_000,
        k == 15 ==> digits_value(s) < 1_000_000_000_000_000,
    decreases k,
{
    if s.len() > 0 {
        let h = s.drop_last();
        assert forall|i: int| 0 <= i < h.len() implies is_digit(#[trigger] h[i]) by {
            assert(is_digit(s[i]));
        }
        assert(is_digit(s.last()));
        lemma_digits_bound(h, (k - 1) as nat);
    }
}

fn is_tie_up(whole: &[char], tenth: u64) -> (r: bool)
    requires
        all_digits(whole@),
        whole@.len() <= 15,
        tenth < 10,
    ensures
        r == tie_up(whole@, tenth as nat),
{
    let v: i128 = capped_value(whole);
    proof {
        lemma_digits_bound(whole@, whole@.len());
    }
    is_twentieth_up((10 * v) as u128 + tenth as u128)
}

/// A double with one decimal, after its sign.
fn double_tenths(neg: bool, r: u64) -> (n: Num)
    requires
        r <= TOP,
    ensures
        n@ == sign_text(neg) + tenths_of(r as int),
{
    proof {
        reveal(tenths_of);
    }
    if r == TOP {
        return signed(neg, "inf");
    }
    let d = tenth_digits(r);
    let mut out = String::new();
    if neg {
        out.append("-");
    }
    assert(out@ =~= sign_text(neg));
    let ghost n = rounded_tenths(r as int);
    let k: usize = d.len();
    if k <= 1 {
        out.append("0.");
        out.push(
            if k == 0 {
                '0'
            } else {
                d[0]
            },
        );
        proof {
            reveal_strlit("0.");
            reveal_strlit(".");
            lemma_written(n);
            if k == 1 {
                assert(n < 10) by {
                    if n >= 10 {
                        lemma_written(n / 10);
                    }
                }
            }
            assert(decimal(0) =~= seq!['0']);
            assert(out@ =~= sign_text(neg) + tenths_of(r as int));
        }
    } else {
        let head = &d.as_slice()[0..k - 1];
        assert(head@ =~= d@.drop_last());
        out.append(string_of(head).as_str());
        out.append(".");
        out.push(d[k - 1]);
        proof {
            assert(n >= 10);
            assert(head@ =~= decimal(n / 10));
            assert(out@ =~= sign_text(neg) + tenths_of(r as int));
        }
    }
    Num { text: out }
}

/// A number of at most fifteen digits with one decimal, after its sign.
fn write_short_tenths(neg: bool, whole: &[char], frac: &[char]) -> (r: Num)
    requires
        all_digits(whole@),
        all_digits(frac@),
        whole@.len() <= 15,
    ensures
        r@ == sign_text(neg) + short_tenths(whole@, frac@),
{
    let mut d: Vec<char> = Vec::new();
    d.extend_from_slice(whole);
    assert(d@ =~= whole@);
    if frac.len() == 0 {
        d.push('0');
    } else {
        d.push(frac[0]);
    }
    let ghost d0 = d@;
    assert(all_digits(d@)) by {
        assert forall|i: int| 0 <= i < d@.len() implies is_digit(#[trigger] d@[i]) by {
            if i < whole@.len() {
                assert(is_digit(whole@[i]));
            } else if frac@.len() > 0 {
                assert(is_digit(frac@[0]));
            }
        }
    }
    if frac.len() >= 2 {
        assert(is_digit(frac@[0]));
        let tenth: u64 = (frac[0] as u32 - 48) as u64;
        if frac[1] > '5' || (frac[1] == '5' && (frac.len() > 2 || is_tie_up(whole, tenth))) {
            next_integer(&mut d);
        }
    }
    proof {
        lemma_increment_len(d0);
    }
    let k: usize = d.len() - 1;
    let head = &d.as_slice()[0..k];
    assert(head@ =~= d@.drop_last());
    let mut out = String::new();
    if neg {
        out.append("-");
    }
    assert(out@ =~= sign_text(neg));
    out.append(string_of(head).as_str());
    out.append(".");
    out.push(d[k]);
    proof {
        reveal_strlit(".0");
        reveal_strlit(".");
        assert(out@ =~= sign_text(neg) + point_before_last(d@));
        if frac@.len() == 0 {
            assert(point_before_last(d@) =~= whole@ + ".0"@);
        } else if frac@.len() == 1 {
            assert(point_before_last(d@) =~= whole@ + "."@ + frac@);
        }
    }
    Num { text: out }
}

proof fn lemma_all_digits(whole: Seq<char>, frac: Seq<char>)
    requires
        all_digits(whole),
        all_digits(frac),
    ensures
        all_digits(whole + frac),
{
    let all = whole + frac;
    assert forall|i: int| 0 <= i < all.len() implies is_digit(#[trigger] all[i]) by {
        if i < whole.len() {
            assert(is_digit(whole[i]));
        } else {
            assert(is_digit(frac[i - whole.len()]));
        }
    }
}

/// The number with one decimal.
pub fn write_tenths(n: &Num) -> (r: Num)
    ensures
        r@ == tenths(n@),
{
    if !n.is_finite() {
        return n.clone();
    }
    let t = chars_of(n.text.as_str());
    let (neg, body) = split_sign(t.as_slice());
    let (whole, frac) = split_point(body);
    if !only_digits(whole) || !only_digits(frac) {
        return n.clone();
    }
    let mut all: Vec<char> = Vec::new();
    all.extend_from_slice(whole);
    all.extend_from_slice(frac);
    assert(all@ =~= whole@ + frac@);
    let kept = trim_start_matches(all.as_slice(), "0");
    let e = trim_end_matches(kept, "0");
    if whole.len() > 15 || e.len() > 15 {
        proof {
            lemma_all_digits(whole@, frac@);
            lemma_trimmed_digits(all@);
        }
        double_tenths(neg, find_rank(e, kept.len() as i128 - frac.len() as i128))
    } else {
        write_short_tenths(neg, whole, frac)
    }
}

pub proof fn lemma_increment_len(d: Seq<char>)
    ensures
        increment(d).len() > 0,
    decreases d.len(),
{
}

/// Whether the number is neither infinite nor `NaN`.
pub open spec fn finite(t: Seq<char>) -> bool {
    t != "NaN"@ && t != "inf"@ && t != "-inf"@
}

/// Whether the number is finite and greater than zero.
pub open spec fn positive(t: Seq<char>) -> bool {
    finite(t) && !has_prefix(t, "-"@) && t != "0"@
}

/// Whether the number is finite and at least zero.
pub open spec fn non_negative(t: Seq<char>) -> bool {
    finite(t) && (!has_prefix(t, "-"@) || t == "-0"@)
}

/// Whether the number lies between zero and one.
pub open spec fn in_unit(t: Seq<char>) -> bool {
    non_negative(t) && (t == "0"@ || t == "-0"@ || t == "1"@ || has_prefix(t, "0."@) || (has_prefix(
        t,
        "1."@,
    ) && digits_le(t.skip(2), UNIT_DIGITS@)))
}

impl Num {
    pub fn is_finite(&self) -> (r: bool)
        ensures
            r == finite(self@),
    {
        !str_eq(self.text.as_str(), "NaN") && !str_eq(self.text.as_str(), "inf") && !str_eq(
            self.text.as_str(),
            "-inf",
        )
    }

    pub fn is_positive(&self) -> (r: bool)
        ensures
            r == positive(self@),
    {
        let t = chars_of(self.text.as_str());
        self.is_finite() && !starts_with(t.as_slice(), "-") && !eq(t.as_slice(), "0")
    }

    pub fn is_non_negative(&self) -> (r: bool)
        ensures
            r == non_negative(self@),
    {
        let t = chars_of(self.text.as_str());
        self.is_finite() && (!starts_with(t.as_slice(), "-") || eq(t.as_slice(), "-0"))
    }

    pub fn is_in_unit(&self) -> (r: bool)
        ensures
            r == in_unit(self@),
    {
        let t = chars_of(self.text.as_str());
        let t = t.as_slice();
        if !self.is_non_negative() {
            return false;
        }
        if eq(t, "0") || eq(t, "-0") || eq(t, "1") || starts_with(t, "0.") {
            return true;
        }
        if !starts_with(t, "1.") {
            return false;
        }
        proof {
            reveal_strlit("1.");
        }
        let tail = &t[2..t.len()];
        assert(tail@ =~= t@.skip(2));
        digits_at_most(tail, chars_of(UNIT_DIGITS).as_slice())
    }

    /// The number whose canonical text is `s`.
    pub fn of(s: &str) -> (r: Num)
        ensures
            r@ == s@,
    {
        Num { text: s.to_owned() }
    }
}

} // verus!
