//! Natural numbers of any size.

use vstd::prelude::*;

verus! {

/// A natural number, digit by digit to the base 2^32, lowest digit first.
#[derive(Debug)]
pub struct Wide {
    pub digits: Vec<u32>,
}

/// The number that the digits from `i` on stand for.
pub open spec fn number_from(s: Seq<u32>, i: int) -> int
    decreases s.len() - i,
{
    if i < 0 || i >= s.len() {
        0
    } else {
        s[i] + 0x1_0000_0000 * number_from(s, i + 1)
    }
}

impl View for Wide {
    type V = int;

    open spec fn view(&self) -> int {
        number_from(self.digits@, 0)
    }
}

proof fn lemma_sign(s: Seq<u32>, i: int)
    ensures
        0 <= number_from(s, i),
    decreases s.len() - i,
{
    if 0 <= i < s.len() {
        lemma_sign(s, i + 1);
    }
}

proof fn lemma_front(s: Seq<u32>, x: u32, i: int)
    requires
        0 <= i,
    ensures
        number_from(s.insert(0, x), i + 1) == number_from(s, i),
    decreases s.len() - i,
{
    if i < s.len() {
        lemma_front(s, x, i + 1);
    }
}

fn in_front(x: u32, rest: Vec<u32>) -> (r: Vec<u32>)
    ensures
        number_from(r@, 0) == x + 0x1_0000_0000 * number_from(rest@, 0),
{
    let ghost s = rest@;
    let mut r = rest;
    r.insert(0, x);
    proof {
        lemma_front(s, x, 0);
    }
    r
}

fn digits_of(v: u128) -> (r: Vec<u32>)
    ensures
        number_from(r@, 0) == v,
    decreases v,
{
    if v == 0 {
        Vec::new()
    } else {
        let rest = digits_of(v / 0x1_0000_0000);
        in_front((v % 0x1_0000_0000) as u32, rest)
    }
}

fn plus_from(a: &Vec<u32>, b: &Vec<u32>, i: usize, carry: u32) -> (r: Vec<u32>)
    requires
        carry <= 1,
    ensures
        number_from(r@, 0) == number_from(a@, i as int) + number_from(b@, i as int) + carry,
    decreases a@.len() + b@.len() - i,
{
    if i >= a.len() && i >= b.len() {
        return digits_of(carry as u128);
    }
    let x: u32 = if i < a.len() {
        a[i]
    } else {
        0
    };
    let y: u32 = if i < b.len() {
        b[i]
    } else {
        0
    };
    let t: u64 = x as u64 + y as u64 + carry as u64;
    let rest = plus_from(a, b, i + 1, (t / 0x1_0000_0000) as u32);
    in_front((t % 0x1_0000_0000) as u32, rest)
}

fn times_from(a: &Vec<u32>, by: u32, i: usize, carry: u32) -> (r: Vec<u32>)
    ensures
        number_from(r@, 0) == number_from(a@, i as int) * by + carry,
    decreases a@.len() - i,
{
    if i >= a.len() {
        assert(0 * by == 0) by (nonlinear_arith);
        return digits_of(carry as u128);
    }
    let x: u32 = a[i];
    assert(0 <= x * by <= 0xffff_ffff * 0xffff_ffff) by (nonlinear_arith)
        requires
            0 <= x <= 0xffff_ffff,
            0 <= by <= 0xffff_ffff,
    ;
    let t: u64 = x as u64 * by as u64 + carry as u64;
    let rest = times_from(a, by, i + 1, (t / 0x1_0000_0000) as u32);
    proof {
        let more = number_from(a@, i + 1);
        assert((x + 0x1_0000_0000 * more) * by == x * by + 0x1_0000_0000 * (more * by))
            by (nonlinear_arith);
    }
    in_front((t % 0x1_0000_0000) as u32, rest)
}

fn product_from(a: &Vec<u32>, b: &Vec<u32>, i: usize) -> (r: Vec<u32>)
    ensures
        number_from(r@, 0) == number_from(a@, 0) * number_from(b@, i as int),
    decreases b@.len() - i,
{
    let ghost n = number_from(a@, 0);
    if i >= b.len() {
        assert(n * 0 == 0) by (nonlinear_arith);
        return Vec::new();
    }
    let ghost more = number_from(b@, i + 1);
    let rest = in_front(0, product_from(a, b, i + 1));
    let own = times_from(a, b[i], 0, 0);
    proof {
        let x = b@[i as int] as int;
        assert(n * (x + 0x1_0000_0000 * more) == 0x1_0000_0000 * (n * more) + n * x)
            by (nonlinear_arith);
    }
    plus_from(&rest, &own, 0, 0)
}

/// Whether the digits of `a` stand for a smaller number.
fn smaller(a: &Vec<u32>, b: &Vec<u32>) -> (r: bool)
    ensures
        r == (number_from(a@, 0) < number_from(b@, 0)),
{
    let mut i: usize = if a.len() < b.len() {
        b.len()
    } else {
        a.len()
    };
    let mut less = false;
    let mut same = true;
    while i > 0
        invariant
            less == (number_from(a@, i as int) < number_from(b@, i as int)),
            same == (number_from(a@, i as int) == number_from(b@, i as int)),
        decreases i,
    {
        i -= 1;
        let x: u32 = if i < a.len() {
            a[i]
        } else {
            0
        };
        let y: u32 = if i < b.len() {
            b[i]
        } else {
            0
        };
        less = less || (same && x < y);
        same = same && x == y;
    }
    less
}

fn small_from(a: &Vec<u32>, i: usize) -> (r: u128)
    requires
        number_from(a@, i as int) <= u128::MAX,
    ensures
        r == number_from(a@, i as int),
    decreases a@.len() - i,
{
    if i >= a.len() {
        return 0;
    }
    proof {
        lemma_sign(a@, i + 1);
    }
    let rest: u128 = small_from(a, i + 1);
    a[i] as u128 + 0x1_0000_0000 * rest
}

/// The weight of digit `i`.
spec fn place(i: int) -> int
    decreases i,
{
    if i <= 0 {
        1
    } else {
        place(i - 1) * 0x1_0000_0000
    }
}

/// The number that the digits before `k` stand for.
spec fn number_upto(s: Seq<u32>, k: int) -> int
    decreases k,
{
    if k <= 0 {
        0
    } else {
        number_upto(s, k - 1) + place(k - 1) * s[k - 1]
    }
}

proof fn lemma_upto_same(a: Seq<u32>, b: Seq<u32>, k: int)
    requires
        k <= a.len(),
        k <= b.len(),
        forall|j: int| 0 <= j < k ==> a[j] == b[j],
    ensures
        number_upto(a, k) == number_upto(b, k),
    decreases k,
{
    if k > 0 {
        lemma_upto_same(a, b, k - 1);
    }
}

/// The digits before `k` and those from `k` on make up the number.
proof fn lemma_upto(s: Seq<u32>, k: int)
    requires
        0 <= k <= s.len(),
    ensures
        number_from(s, 0) == number_upto(s, k) + place(k) * number_from(s, k),
    decreases k,
{
    if k > 0 {
        lemma_upto(s, k - 1);
        let p = place(k - 1);
        let (x, m) = (s[k - 1] as int, number_from(s, k));
        assert(p * (x + 0x1_0000_0000 * m) == p * x + (p * 0x1_0000_0000) * m)
            by (nonlinear_arith);
    }
}

impl Wide {
    /// A machine number.
    pub fn of(v: u128) -> (r: Wide)
        ensures
            r@ == v,
    {
        Wide { digits: digits_of(v) }
    }

    /// The same number again.
    pub fn copy(&self) -> (r: Wide)
        ensures
            r@ == self@,
    {
        let mut digits: Vec<u32> = Vec::new();
        let mut i: usize = 0;
        while i < self.digits.len()
            invariant
                i <= self.digits@.len(),
                digits@ == self.digits@.take(i as int),
            decreases self.digits@.len() - i,
        {
            digits.push(self.digits[i]);
            i += 1;
            assert(digits@ =~= self.digits@.take(i as int));
        }
        assert(digits@ =~= self.digits@);
        Wide { digits }
    }

    /// The sum of two numbers.
    pub fn plus(&self, other: &Wide) -> (r: Wide)
        ensures
            r@ == self@ + other@,
    {
        Wide { digits: plus_from(&self.digits, &other.digits, 0, 0) }
    }

    /// The product of two numbers.
    pub fn times(&self, other: &Wide) -> (r: Wide)
        ensures
            r@ == self@ * other@,
    {
        Wide { digits: product_from(&self.digits, &other.digits, 0) }
    }

    /// Multiply by `by` and add `add`.
    pub fn scale(&mut self, by: u32, add: u32)
        ensures
            final(self)@ == old(self)@ * by + add,
    {
        let mut carry: u32 = add;
        let mut i: usize = 0;
        let n: usize = self.digits.len();
        let ghost s = self.digits@;
        while i < n
            invariant
                i <= n,
                n == s.len(),
                self.digits@.len() == n,
                forall|j: int| i <= j < n ==> self.digits@[j] == s[j],
                number_from(s, 0) * by + add == number_upto(self.digits@, i as int) + place(
                    i as int,
                ) * (number_from(s, i as int) * by + carry),
            decreases n - i,
        {
            let x: u32 = self.digits[i];
            assert(0 <= x * by <= 0xffff_ffff * 0xffff_ffff) by (nonlinear_arith)
                requires
                    0 <= x <= 0xffff_ffff,
                    0 <= by <= 0xffff_ffff,
            ;
            let t: u64 = x as u64 * by as u64 + carry as u64;
            let low: u32 = (t % 0x1_0000_0000) as u32;
            let high: u32 = (t / 0x1_0000_0000) as u32;
            let ghost before = self.digits@;
            self.digits.set(i, low);
            proof {
                lemma_upto_same(before, self.digits@, i as int);
                let p = place(i as int);
                let m = number_from(s, i + 1);
                assert(p * ((x + 0x1_0000_0000 * m) * by + carry) == p * low + (p * 0x1_0000_0000)
                    * (m * by + high)) by (nonlinear_arith)
                    requires
                        x * by + carry == low + 0x1_0000_0000 * high,
                ;
                assert(place(i + 1) == p * 0x1_0000_0000);
            }
            carry = high;
            i += 1;
        }
        proof {
            lemma_upto(self.digits@, n as int);
            assert(number_from(s, n as int) == 0);
            assert(0 * by == 0) by (nonlinear_arith);
        }
        if carry > 0 {
            let ghost before = self.digits@;
            self.digits.push(carry);
            proof {
                lemma_upto_same(before, self.digits@, n as int);
                lemma_upto(self.digits@, n + 1);
                assert(number_upto(self.digits@, n + 1) == number_upto(self.digits@, n as int)
                    + place(n as int) * carry);
            }
        } else {
            assert(place(n as int) * 0 == 0) by (nonlinear_arith);
        }
    }

    /// Whether a number is less than another.
    pub fn less(&self, other: &Wide) -> (r: bool)
        ensures
            r == (self@ < other@),
    {
        smaller(&self.digits, &other.digits)
    }

    /// The number, or the largest machine number where it is larger.
    pub fn capped(&self) -> (r: u128)
        ensures
            r == (if self@ < u128::MAX {
                self@
            } else {
                u128::MAX as int
            }),
    {
        let top = Wide::of(u128::MAX);
        if self.less(&top) {
            small_from(&self.digits, 0)
        } else {
            u128::MAX
        }
    }
}

/// Numbers are not negative.
pub proof fn lemma_natural(w: Wide)
    ensures
        0 <= w@,
{
    lemma_sign(w.digits@, 0);
}

} // verus!
