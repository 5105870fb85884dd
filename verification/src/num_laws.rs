//! The canonical text of a number reads as itself.

use vstd::prelude::*;

use crate::double_laws::law_few_digits_are_kept;
use crate::json::{at, number_end, skip_digits};
use crate::json_laws::number_text;
use crate::double::{
    lemma_decimal_of, law_shortest_reads_back, lemma_finite, lemma_magnitude, lemma_nearest, lemma_nearest_once,
    lemma_scaled, lemma_written, nearest, power, rounded_tenths, shortest, TOP,
};
use crate::num::{
    canonical_decimal, cut_point, cut_sign, digits_value, double_text, exponent_at, finite,
    in_unit, increment, literal, non_negative, number, place_point, plain, point_at, rank,
    rounds_up, sign_text, significant, tenths, tenths_of, told_apart, zeros, Literal,
};
use crate::text::{
    all_digits, decimal, digit_char, first_index, has_prefix, has_suffix, is_digit, lemma_index_from, lower, lower_char,
    strip_all_prefix, strip_all_suffix,
};

verus! {

proof fn lemma_zero_text()
    ensures
        "0"@ == seq!['0'],
        "-"@ == seq!['-'],
        "."@ == seq!['.'],
        "0."@ == seq!['0', '.'],
{
    reveal_strlit("0");
    reveal_strlit("-");
    reveal_strlit(".");
    reveal_strlit("0.");
    assert("0"@ =~= seq!['0']);
    assert("-"@ =~= seq!['-']);
    assert("."@ =~= seq!['.']);
    assert("0."@ =~= seq!['0', '.']);
}

/// Stripping leading zeros leaves digits that do not start with one.
pub proof fn lemma_strip_prefix(d: Seq<char>)
    requires
        all_digits(d),
    ensures
        all_digits(strip_all_prefix(d, "0"@)),
        strip_all_prefix(d, "0"@).len() > 0 ==> strip_all_prefix(d, "0"@)[0] != '0',
    decreases d.len(),
{
    lemma_zero_text();
    if has_prefix(d, "0"@) {
        assert forall|i: int| 0 <= i < d.skip(1).len() implies is_digit(#[trigger] d.skip(1)[i]) by {
            assert(is_digit(d[i + 1]));
        }
        lemma_strip_prefix(d.skip(1));
    } else if d.len() > 0 {
        assert(d[0] == '0' ==> d.subrange(0, 1) =~= seq!['0']);
    }
}

proof fn lemma_strip_prefix_of(k: nat, e: Seq<char>)
    requires
        e.len() > 0 ==> e[0] != '0',
    ensures
        strip_all_prefix(zeros(k) + e, "0"@) == e,
    decreases k,
{
    lemma_zero_text();
    let d = zeros(k) + e;
    if k == 0 {
        assert(d =~= e);
        if e.len() > 0 {
            assert(e.subrange(0, 1)[0] == e[0]);
        }
    } else {
        assert(d.subrange(0, 1) =~= seq!['0']);
        assert(d.skip(1) =~= zeros((k - 1) as nat) + e);
        lemma_strip_prefix_of((k - 1) as nat, e);
    }
}

/// Stripping trailing zeros splits them off.
pub proof fn lemma_strip_suffix(d: Seq<char>) -> (k: nat)
    requires
        all_digits(d),
    ensures
        d == strip_all_suffix(d, "0"@) + zeros(k),
        all_digits(strip_all_suffix(d, "0"@)),
        strip_all_suffix(d, "0"@).len() > 0 ==> strip_all_suffix(d, "0"@).last() != '0',
    decreases d.len(),
{
    lemma_zero_text();
    if has_suffix(d, "0"@) {
        let h = d.subrange(0, d.len() - 1);
        assert forall|i: int| 0 <= i < h.len() implies is_digit(#[trigger] h[i]) by {
            assert(is_digit(d[i]));
        }
        let k = lemma_strip_suffix(h);
        let r = strip_all_suffix(h, "0"@);
        assert(d.subrange(d.len() - 1, d.len() as int)[0] == d[d.len() - 1]);
        assert(d =~= r + zeros(k + 1)) by {
            assert(d =~= h.push('0'));
            assert((r + zeros(k)).push('0') =~= r + zeros(k + 1));
        }
        k + 1
    } else {
        if d.len() > 0 {
            assert(d.last() == '0' ==> d.subrange(d.len() - 1, d.len() as int) =~= seq!['0']);
        }
        assert(d =~= d + zeros(0));
        0
    }
}

proof fn lemma_strip_suffix_of(e: Seq<char>, k: nat)
    requires
        e.len() > 0,
        e.last() != '0',
    ensures
        strip_all_suffix(e + zeros(k), "0"@) == e,
    decreases k,
{
    lemma_zero_text();
    let d = e + zeros(k);
    if k == 0 {
        assert(d =~= e);
        assert(e.subrange(e.len() - 1, e.len() as int)[0] == e.last());
    } else {
        assert(d.subrange(d.len() - 1, d.len() as int) =~= seq!['0']);
        assert(d.subrange(0, d.len() - 1) =~= e + zeros((k - 1) as nat));
        lemma_strip_suffix_of(e, (k - 1) as nat);
    }
}

proof fn lemma_no_exponent(s: Seq<char>, i: int)
    requires
        0 <= i <= s.len(),
        forall|j: int| 0 <= j < s.len() ==> is_digit(#[trigger] s[j]) || s[j] == '.',
    ensures
        exponent_at(s, i) == s.len(),
    decreases s.len() - i,
{
    if i < s.len() {
        assert(is_digit(s[i]) || s[i] == '.');
        lemma_no_exponent(s, i + 1);
    }
}

proof fn lemma_digit_run(s: Seq<char>, i: int, j: int)
    requires
        0 <= i <= j <= s.len(),
        forall|k: int| i <= k < j ==> is_digit(#[trigger] s[k]),
        j < s.len() ==> !is_digit(s[j]),
    ensures
        skip_digits(s, i) == j,
    decreases j - i,
{
    if i < j {
        assert(is_digit(s[i]));
        lemma_digit_run(s, i + 1, j);
    }
}

/// The decimal point of `whole`, `.`, `frac`.
proof fn lemma_cut_point(s: Seq<char>, whole: Seq<char>, frac: Seq<char>, dot: bool)
    requires
        all_digits(whole),
        s == if dot {
            whole + seq!['.'] + frac
        } else {
            whole
        },
        !dot ==> frac.len() == 0,
    ensures
        cut_point(s) == (whole, frac),
{
    lemma_index_from(s, '.', 0);
    assert forall|j: int| 0 <= j < whole.len() implies s[j] != '.' by {
        assert(is_digit(whole[j]));
        assert(s[j] == whole[j]);
    }
    if dot {
        assert(s[whole.len() as int] == '.');
        assert(first_index(s, '.') == Some(whole.len() as int));
        assert(s.take(whole.len() as int) =~= whole);
        assert(s.skip(whole.len() as int + 1) =~= frac);
    } else {
        assert(first_index(s, '.') is None);
        assert(frac =~= Seq::empty());
    }
}

/// Whether `t` is digits, at least one before the point, behind an optional
/// sign.
pub open spec fn written_out(t: Seq<char>) -> bool {
    plain(t) && cut_point(cut_sign(t).1).0.len() > 0
}

/// What a plain decimal says: its sign, and its digits on both sides of the
/// point.
proof fn lemma_plain_literal(
    neg: bool,
    whole: Seq<char>,
    frac: Seq<char>,
    dot: bool,
    t: Seq<char>,
)
    requires
        whole.len() > 0,
        all_digits(whole),
        all_digits(frac),
        dot <==> frac.len() > 0,
        t == sign_text(neg) + if dot {
            whole + seq!['.'] + frac
        } else {
            whole
        },
    ensures
        literal(t) == Some(Literal::Finite { neg, digits: whole + frac, exp: -(frac.len() as int) }),
        cut_sign(t).0 == neg,
        cut_point(cut_sign(t).1) == (whole, frac),
        t.len() > 0,
        t[0] == '-' || is_digit(t[0]),
        number_end(t, 0) == t.len(),
{
    lemma_zero_text();
    let body = if dot {
        whole + seq!['.'] + frac
    } else {
        whole
    };
    assert(is_digit(whole[0]));
    assert(body[0] == whole[0]);
    if neg {
        assert(t[0] == '-');
        assert(t.skip(1) =~= body);
    } else {
        assert(t =~= body);
    }
    assert(cut_sign(t) == (neg, body));
    assert forall|j: int| 0 <= j < body.len() implies is_digit(#[trigger] body[j]) || body[j] == '.' by {
        if j < whole.len() {
            assert(is_digit(whole[j]));
        } else if j > whole.len() {
            assert(is_digit(frac[j - whole.len() - 1]));
            assert(body[j] == frac[j - whole.len() - 1]);
        }
    }
    lemma_no_exponent(body, 0);
    assert(body.take(body.len() as int) =~= body);
    lemma_cut_point(body, whole, frac, dot);
    reveal_strlit("inf");
    reveal_strlit("infinity");
    reveal_strlit("nan");
    assert(lower(body)[0] == lower_char(body[0]));
    assert(lower("inf"@)[0] == 'i');
    assert(lower("infinity"@)[0] == 'i');
    assert(lower("nan"@)[0] == 'n');
    // Where a reader stops.
    let a = if neg {
        1int
    } else {
        0int
    };
    assert forall|j: int| 0 <= j < body.len() implies t[a + j] == #[trigger] body[j] by {}
    assert forall|k: int| a <= k < a + whole.len() implies is_digit(#[trigger] t[k]) by {
        assert(body[k - a] == whole[k - a]);
        assert(is_digit(whole[k - a]));
    }
    let m = a + whole.len();
    if dot {
        assert(body[whole.len() as int] == '.');
        assert(t[m] == '.');
        lemma_digit_run(t, a, m);
        assert forall|k: int| m + 1 <= k < t.len() implies is_digit(#[trigger] t[k]) by {
            assert(body[k - a] == frac[k - m - 1]);
            assert(is_digit(frac[k - m - 1]));
        }
        lemma_digit_run(t, m + 1, t.len() as int);
    } else {
        lemma_digit_run(t, a, m);
    }
    assert(at(t, t.len() as int) is None);
}

/// A decimal reads as its digits and the place of its point say.
proof fn lemma_canonical_core(neg: bool, e: Seq<char>, a: int, t: Seq<char>)
    requires
        e.len() > 0,
        all_digits(e),
        e[0] != '0',
        e.last() != '0',
        t == sign_text(neg) + place_point(e, a),
    ensures
        number_text(t),
        number(t) == Some(sign_text(neg) + canonical_decimal(e, a)),
        written_out(t),
        ({
            let (whole, frac) = cut_point(cut_sign(t).1);
            significant(whole, frac) == e && point_at(whole, frac) == a
        }),
{
    lemma_zero_text();
    let (whole, frac) = if a <= 0 {
        (seq!['0'], zeros((-a) as nat) + e)
    } else if a >= e.len() {
        (e + zeros((a - e.len()) as nat), Seq::<char>::empty())
    } else {
        (e.take(a), e.skip(a))
    };
    let dot = a < e.len();
    assert(all_digits(whole)) by {
        assert forall|i: int| 0 <= i < whole.len() implies is_digit(#[trigger] whole[i]) by {
            if a > 0 && i < e.len() {
                assert(is_digit(e[i]));
            }
        }
    }
    assert(all_digits(frac)) by {
        assert forall|i: int| 0 <= i < frac.len() implies is_digit(#[trigger] frac[i]) by {
            if a <= 0 {
                if i >= -a {
                    assert(is_digit(e[i + a]));
                }
            } else if a < e.len() {
                assert(is_digit(e[i + a]));
            }
        }
    }
    let body = if dot {
        whole + seq!['.'] + frac
    } else {
        whole
    };
    assert(place_point(e, a) =~= body);
    lemma_plain_literal(neg, whole, frac, dot, t);
    let digits = whole + frac;
    let d = strip_all_prefix(digits, "0"@);
    if a <= 0 {
        assert(digits =~= zeros((1 - a) as nat) + e);
        lemma_strip_prefix_of((1 - a) as nat, e);
        assert(d == e);
        assert(e + zeros(0) =~= e);
        lemma_strip_suffix_of(e, 0);
    } else if a >= e.len() {
        let k = (a - e.len()) as nat;
        assert(digits =~= zeros(0) + (e + zeros(k)));
        lemma_strip_prefix_of(0, e + zeros(k));
        assert(d == e + zeros(k));
        lemma_strip_suffix_of(e, k);
    } else {
        assert(digits =~= e);
        assert(zeros(0) + e =~= e);
        lemma_strip_prefix_of(0, e);
        assert(e + zeros(0) =~= e);
        lemma_strip_suffix_of(e, 0);
    }
    assert(d.len() + -(frac.len() as int) == a);
}

/// The digits of a number literal.
proof fn lemma_literal_digits(s: Seq<char>)
    ensures
        literal(s) matches Some(Literal::Finite { neg, digits, exp }) ==> all_digits(digits),
{
    let (neg, body) = cut_sign(s);
    let k = exponent_at(body, 0);
    let (whole, frac) = cut_point(body.take(k));
    if all_digits(whole) && all_digits(frac) {
        assert forall|i: int| 0 <= i < (whole + frac).len() implies is_digit(
            #[trigger] (whole + frac)[i],
        ) by {
            if i < whole.len() {
                assert(is_digit(whole[i]));
            } else {
                assert(is_digit(frac[i - whole.len()]));
            }
        }
    }
}

/// The rank of the double that a written number is nearest to.
pub open spec fn rank_of(t: Seq<char>) -> int {
    let (whole, frac) = cut_point(cut_sign(t).1);
    rank(significant(whole, frac), point_at(whole, frac))
}

proof fn lemma_value_bound(e: Seq<char>)
    requires
        all_digits(e),
    ensures
        digits_value(e) < power(10, e.len()),
    decreases e.len(),
{
    if e.len() > 0 {
        let h = e.drop_last();
        assert forall|i: int| 0 <= i < h.len() implies is_digit(#[trigger] h[i]) by {
            assert(is_digit(e[i]));
        }
        assert(is_digit(e.last()));
        lemma_value_bound(h);
    }
}

/// A decimal of few digits is its own canonical form.
pub proof fn lemma_told_apart(e: Seq<char>, a: int)
    requires
        told_apart(e, a),
        all_digits(e),
        e.len() > 0,
        e[0] != '0',
        e.last() != '0',
    ensures
        canonical_decimal(e, a) == place_point(e, a),
{
    reveal(canonical_decimal);
    let c = digits_value(e);
    lemma_decimal_of(e);
    lemma_written(c);
    assert(is_digit(e.last()));
    law_few_digits_are_kept(c, e.len(), a - e.len());
    assert(e + zeros(0) =~= e);
    lemma_strip_suffix_of(e, 0);
}

proof fn lemma_zero_reads(neg: bool, t: Seq<char>)
    requires
        t == sign_text(neg) + "0"@,
    ensures
        number_text(t),
        number(t) == Some(t),
        written_out(t),
        0 <= rank_of(t) < TOP,
{
    lemma_zero_text();
    let z = seq!['0'];
    assert(is_digit('0'));
    lemma_plain_literal(neg, z, Seq::empty(), false, t);
    assert(z + Seq::<char>::empty() =~= zeros(1) + Seq::<char>::empty());
    lemma_strip_prefix_of(1, Seq::empty());
    let none = Seq::<char>::empty();
    assert(strip_all_prefix(z + none, "0"@) == none);
    lemma_nearest(0, 0);
    lemma_finite(0, 0, 0, nearest(0, 0));
}

proof fn lemma_padded_value(e: Seq<char>, k: nat)
    ensures
        digits_value(e + zeros(k)) == digits_value(e) * power(10, k),
    decreases k,
{
    let s = e + zeros(k);
    if k > 0 {
        lemma_padded_value(e, (k - 1) as nat);
        assert(s.drop_last() =~= e + zeros((k - 1) as nat));
        let (v, p) = (digits_value(e), power(10, (k - 1) as nat));
        assert(v * p * 10 == v * (10 * p)) by (nonlinear_arith);
    } else {
        assert(s =~= e);
        assert(digits_value(e) * 1 == digits_value(e)) by (nonlinear_arith);
    }
}

/// The shortest text of a double reads as the double.
proof fn lemma_double_reads(neg: bool, r: int, t: Seq<char>)
    requires
        0 < r < TOP,
        t == sign_text(neg) + double_text(r),
    ensures
        number_text(t),
        number(t) == Some(t),
        written_out(t),
        rank_of(t) == r,
{
    reveal(canonical_decimal);
    law_shortest_reads_back(r);
    let (c, x) = shortest(r);
    let s = decimal(c);
    lemma_written(c);
    let k = lemma_strip_suffix(s);
    let e = strip_all_suffix(s, "0"@);
    let a = s.len() + x;
    assert(e.len() > 0) by {
        if e.len() == 0 {
            assert(s =~= zeros(k));
            assert(s[0] == '0');
        }
    }
    assert(e[0] == s[0]);
    lemma_canonical_core(neg, e, a, t);
    lemma_magnitude(c, x, r);
    lemma_padded_value(e, k);
    let v = digits_value(e);
    lemma_scaled(v, x, k, r);
    lemma_nearest(v, x + k);
    lemma_nearest_once(v, x + k, r, nearest(v, x + k));
    assert(a - e.len() == x + k);
}

/// Every finite number that was read is written as a text that reads as
/// the same number.
pub proof fn law_number_reads_back(s: Seq<char>, t: Seq<char>)
    requires
        number(s) == Some(t),
        finite(t),
    ensures
        number_text(t),
        number(t) == Some(t),
        written_out(t),
        0 <= rank_of(t) < TOP,
{
    reveal(canonical_decimal);
    lemma_zero_text();
    lemma_literal_digits(s);
    reveal_strlit("inf");
    reveal_strlit("-inf");
    assert("-"@ + "inf"@ =~= "-inf"@);
    assert(Seq::<char>::empty() + "inf"@ =~= "inf"@);
    match literal(s) {
        Some(Literal::Finite { neg, digits, exp }) => {
            let d = strip_all_prefix(digits, "0"@);
            let a = d.len() + exp;
            lemma_strip_prefix(digits);
            if d.len() == 0 {
                lemma_zero_reads(neg, t);
            } else {
                let k = lemma_strip_suffix(d);
                let e = strip_all_suffix(d, "0"@);
                assert(e.len() > 0) by {
                    if e.len() == 0 {
                        assert(d =~= zeros(k));
                        assert(d[0] == '0');
                    }
                }
                assert(e[0] == d[0]);
                let r = rank(e, a);
                lemma_nearest(digits_value(e), a - e.len());
                if r == 0 {
                    lemma_zero_reads(neg, t);
                } else {
                    assert(r != TOP);
                    lemma_double_reads(neg, r, t);
                }
            }
        },
        _ => {},
    }
}

proof fn lemma_increment_digits(d: Seq<char>)
    requires
        all_digits(d),
    ensures
        all_digits(increment(d)),
        increment(d).len() >= d.len(),
    decreases d.len(),
{
    let r = increment(d);
    if d.len() > 0 {
        let h = d.drop_last();
        assert forall|i: int| 0 <= i < h.len() implies is_digit(#[trigger] h[i]) by {
            assert(is_digit(d[i]));
        }
        lemma_increment_digits(h);
        assert(is_digit(d[d.len() - 1]));
        assert forall|i: int| 0 <= i < r.len() implies is_digit(#[trigger] r[i]) by {
            if d.last() == '9' {
                if i < increment(h).len() {
                    assert(is_digit(increment(h)[i]));
                }
            } else if i < h.len() {
                assert(is_digit(h[i]));
            }
        }
    } else {
        assert forall|i: int| 0 <= i < r.len() implies is_digit(#[trigger] r[i]) by {}
    }
}

/// Whether a text is the canonical form of a finite number.
pub open spec fn measure(n: Seq<char>) -> bool {
    number(n) == Some(n) && finite(n)
}

/// A measure shown with one decimal is a number that can be read.
pub proof fn law_tenths_read(n: Seq<char>)
    requires
        measure(n),
    ensures
        number_text(tenths(n)),
{
    reveal(tenths_of);
    law_number_reads_back(n, n);
    let (neg, body) = cut_sign(n);
    let (whole, frac) = cut_point(body);
    if whole.len() > 15 || significant(whole, frac).len() > 15 {
        let r = rank_of(n);
        let v = rounded_tenths(r);
        lemma_written(v / 10);
        lemma_digits_read(neg, decimal(v / 10), digit_char((v % 10) as int));
        assert(tenths(n) =~= sign_text(neg) + decimal(v / 10) + "."@ + seq![
            digit_char((v % 10) as int),
        ]);
    } else {
        lemma_short_tenths(n);
    }
}

/// A measure of few digits shown with one decimal is a number that can be
/// read.
proof fn lemma_short_tenths(n: Seq<char>)
    requires
        finite(n),
        written_out(n),
        ({
            let (whole, frac) = cut_point(cut_sign(n).1);
            whole.len() <= 15 && significant(whole, frac).len() <= 15
        }),
    ensures
        number_text(tenths(n)),
{
    lemma_zero_text();
    reveal_strlit(".0");
    let (neg, body) = cut_sign(n);
    let (whole, frac) = cut_point(body);
    let d = if frac.len() == 0 {
        whole.push('0')
    } else {
        whole.push(frac[0])
    };
    assert forall|i: int| 0 <= i < d.len() implies is_digit(#[trigger] d[i]) by {
        if i < whole.len() {
            assert(is_digit(whole[i]));
        } else if frac.len() > 0 {
            assert(is_digit(frac[0]));
        }
    }
    lemma_increment_digits(d);
    let shown = if frac.len() > 1 && rounds_up(whole, frac) {
        increment(d)
    } else {
        d
    };
    let w = shown.drop_last();
    let f = seq![shown.last()];
    assert forall|i: int| 0 <= i < w.len() implies is_digit(#[trigger] w[i]) by {
        assert(is_digit(shown[i]));
    }
    assert(is_digit(shown[shown.len() - 1]));
    assert(tenths(n) =~= sign_text(neg) + (w + seq!['.'] + f)) by {
        if frac.len() == 0 {
            assert(w =~= whole);
            assert(".0"@ =~= seq!['.', '0']);
        } else if frac.len() == 1 {
            assert(w =~= whole);
            assert(frac =~= f);
        }
    }
    lemma_plain_literal(neg, w, f, true, tenths(n));
}

/// A whole number of two digits is in canonical form.
pub proof fn lemma_two_digits(t: Seq<char>)
    requires
        t.len() == 2,
        is_digit(t[0]),
        is_digit(t[1]),
        t[0] != '0',
    ensures
        measure(t),
        non_negative(t),
{
    reveal(canonical_decimal);
    lemma_zero_text();
    reveal_strlit("NaN");
    reveal_strlit("inf");
    reveal_strlit("-inf");
    let none = Seq::<char>::empty();
    assert(t =~= sign_text(false) + t);
    lemma_plain_literal(false, t, none, false, t);
    assert(t + none =~= t);
    assert(t.subrange(0, 1)[0] == t[0]);
    assert(strip_all_prefix(t, "0"@) == t);
    let head = t.subrange(0, 1);
    let kept = strip_all_suffix(t, "0"@);
    if t[1] == '0' {
        assert(t.subrange(1, 2) =~= "0"@);
        assert(head.subrange(0, 1)[0] == t[0]);
        assert(strip_all_suffix(head, "0"@) == head);
        assert(kept == head);
        assert(head + zeros(1) =~= t);
    } else {
        assert(t.subrange(1, 2)[0] == t[1]);
        assert(kept == t);
        assert(t + zeros(0) =~= t);
    }
    assert(sign_text(false) + t =~= t);
    lemma_told_apart(kept, 2);
    assert(number(t) == Some(t));
    assert(t.subrange(0, 1)[0] == t[0]);
}

/// A half is in canonical form.
pub proof fn lemma_half()
    ensures
        measure("0.5"@),
        in_unit("0.5"@),
{
    reveal(canonical_decimal);
    lemma_zero_text();
    reveal_strlit("0.5");
    reveal_strlit("NaN");
    reveal_strlit("inf");
    reveal_strlit("-inf");
    reveal_strlit("-0");
    let t = "0.5"@;
    let d = seq!['0', '5'];
    let five = seq!['5'];
    assert(t[0] == '0' && t[1] == '.' && t[2] == '5');
    assert(t =~= sign_text(false) + (seq!['0'] + seq!['.'] + five));
    lemma_plain_literal(false, seq!['0'], five, true, t);
    assert(seq!['0'] + five =~= d);
    assert(d.subrange(0, 1) =~= "0"@);
    assert(d.skip(1) =~= five);
    assert(five.subrange(0, 1)[0] == '5');
    assert(strip_all_prefix(five, "0"@) == five);
    assert(strip_all_prefix(d, "0"@) == five);
    assert(strip_all_suffix(five, "0"@) == five);
    lemma_told_apart(five, 0);
    assert("0."@ + zeros(0) + five =~= t);
    assert(sign_text(false) + t =~= t);
    assert(number(t) == Some(t));
    assert(t.subrange(0, 1)[0] == '0');
    assert(t.subrange(0, 2) =~= "0."@);
}

/// Digits read as a number, with and without a sign and one more digit
/// behind a point.
pub proof fn lemma_digits_read(neg: bool, whole: Seq<char>, tenth: char)
    requires
        whole.len() > 0,
        all_digits(whole),
        is_digit(tenth),
    ensures
        number_text(whole),
        number_text(sign_text(neg) + whole + "."@ + seq![tenth]),
{
    lemma_zero_text();
    let none = Seq::<char>::empty();
    assert(whole =~= sign_text(false) + whole);
    lemma_plain_literal(false, whole, none, false, whole);
    let t = sign_text(neg) + whole + "."@ + seq![tenth];
    assert(t =~= sign_text(neg) + (whole + seq!['.'] + seq![tenth]));
    lemma_plain_literal(neg, whole, seq![tenth], true, t);
}

} // verus!
