//! Boxes in rows inside a group.

use vstd::prelude::*;

use crate::advance::place::lengths::{bounded, diff, minus, plus, sum};
use crate::advance::route::geometry::{greater, half, most};
use crate::advance::scene::Px;

verus! {

/// Padding inside a group.
pub const GROUP_PAD: Px = 1536000;

/// Height of a group's title.
pub const GROUP_TITLE_H: Px = 1664000;

/// Space between boxes inside a group.
pub const CHILD_GAP: Px = 1792000;

/// The least width of a group.
pub const LEAST_W: Px = 8192000;

/// The least height of a group.
pub const LEAST_H: Px = 4736000;

pub open spec fn square(b: int) -> int {
    b * b
}

/// The least number from `c` on whose square is not less than `n`.
pub open spec fn columns_from(n: int, c: int) -> int
    decreases n - c,
{
    if c >= n || square(c) >= n {
        c
    } else {
        columns_from(n, c + 1)
    }
}

/// How many boxes stand in a row: the square root of their number, rounded
/// up.
pub open spec fn columns(n: int) -> int {
    columns_from(n, 1)
}

proof fn lemma_columns(n: int, c: int)
    requires
        1 <= c,
        forall|b: int| 1 <= b < c ==> #[trigger] square(b) < n,
    ensures
        columns_from(n, c) >= c,
        square(columns_from(n, c)) >= n,
        forall|b: int| 1 <= b < columns_from(n, c) ==> #[trigger] square(b) < n,
    decreases n - c,
{
    if c >= n || square(c) >= n {
        if c >= n {
            assert(c * c >= c) by (nonlinear_arith)
                requires
                    c >= 1,
            ;
        }
    } else {
        lemma_columns(n, c + 1);
    }
}

/// Rows are as short as a square allows: the boxes fit in as many rows as
/// there are columns, and in no smaller square.
pub proof fn law_rows_are_square(n: int)
    ensures
        columns(n) >= 1,
        square(columns(n)) >= n,
        forall|b: int| 1 <= b < columns(n) ==> #[trigger] square(b) < n,
{
    lemma_columns(n, 1);
}

fn count_columns(n: usize) -> (r: usize)
    ensures
        r == columns(n as int),
        r >= 1,
{
    let mut c: usize = 1;
    loop
        invariant_except_break
            1 <= c,
            c <= n || c == 1,
            columns(n as int) == columns_from(n as int, c as int),
        ensures
            c == columns(n as int),
            c >= 1,
        decreases n - c,
    {
        if c >= n {
            break;
        }
        assert(c * c <= 0xffff_ffff_ffff_ffff * 0xffff_ffff_ffff_ffff) by (nonlinear_arith)
            requires
                0 <= c <= 0xffff_ffff_ffff_ffff,
        ;
        if c as u128 * c as u128 >= n as u128 {
            break;
        }
        c += 1;
    }
    c
}

/// Where the next box goes, how high its row is, and how far the boxes
/// before it reach.
#[verifier::ext_equal]
pub struct Pen {
    pub x: int,
    pub y: int,
    pub row_h: int,
    pub max_w: int,
    pub max_h: int,
}

/// The pen before box `k`, at the start of a new row where one is due.
pub open spec fn turned(p: Pen, k: int, cols: int) -> Pen {
    if k > 0 && k % cols == 0 {
        Pen {
            x: GROUP_PAD as int,
            y: plus(p.y, plus(p.row_h, CHILD_GAP as int)),
            row_h: 0,
            max_w: p.max_w,
            max_h: p.max_h,
        }
    } else {
        p
    }
}

/// The pen behind the first `k` boxes.
pub open spec fn pen(s: Seq<(Px, Px)>, cols: int, k: int) -> Pen
    decreases k,
{
    if k <= 0 {
        Pen {
            x: GROUP_PAD as int,
            y: GROUP_PAD + GROUP_TITLE_H,
            row_h: 0,
            max_w: GROUP_PAD as int,
            max_h: GROUP_PAD + GROUP_TITLE_H,
        }
    } else {
        let p = turned(pen(s, cols, k - 1), k - 1, cols);
        let w = s[k - 1].0 as int;
        let h = s[k - 1].1 as int;
        Pen {
            x: plus(p.x, plus(w, CHILD_GAP as int)),
            y: p.y,
            row_h: most(p.row_h, h),
            max_w: most(p.max_w, plus(plus(p.x, w), GROUP_PAD as int)),
            max_h: most(p.max_h, plus(plus(p.y, h), GROUP_PAD as int)),
        }
    }
}

/// The size of a group around boxes of the given sizes.
pub open spec fn group_size(s: Seq<(Px, Px)>) -> (int, int) {
    let n = s.len() as int;
    let p = pen(s, columns(n), n);
    (most(p.max_w, LEAST_W as int), most(p.max_h, LEAST_H as int))
}

/// The end of the row that box `k` stands in.
pub open spec fn row_end(k: int, cols: int, n: int) -> int {
    let base = k - k % cols;
    if n - base < cols {
        n
    } else {
        base + cols
    }
}

/// Where box `k` stands inside its group: rows are centred.
pub open spec fn box_at(s: Seq<(Px, Px)>, k: int) -> (int, int) {
    let n = s.len() as int;
    let cols = columns(n);
    let p = turned(pen(s, cols, k), k, cols);
    let right = minus(pen(s, cols, row_end(k, cols, n)).x, CHILD_GAP as int);
    let aside = minus(group_size(s).0, plus(right, GROUP_PAD as int)) / 2;
    (plus(p.x, aside), p.y)
}

/// Whether all sizes are in range.
pub open spec fn sizes_fit(s: Seq<(Px, Px)>) -> bool {
    forall|i: int|
        0 <= i < s.len() ==> bounded((#[trigger] s[i]).0 as int) && bounded(s[i].1 as int)
}

/// Whether `at` is where the boxes stand.
pub open spec fn are_placed(s: Seq<(Px, Px)>, at: Seq<(Px, Px)>) -> bool {
    &&& at.len() == s.len()
    &&& forall|k: int|
        0 <= k < at.len() ==> ((#[trigger] at[k]).0 as int, at[k].1 as int) == box_at(s, k)
    &&& sizes_fit(at)
}

/// Arrange boxes in rows; returns where they stand, and the size of the
/// group around them.
pub fn arrange(s: &Vec<(Px, Px)>) -> (r: (Vec<(Px, Px)>, Px, Px))
    requires
        sizes_fit(s@),
    ensures
        are_placed(s@, r.0@),
        (r.1 as int, r.2 as int) == group_size(s@),
        bounded(r.1 as int),
        bounded(r.2 as int),
{
    let n: usize = s.len();
    let cols: usize = count_columns(n);
    let mut x: Px = GROUP_PAD;
    let mut y: Px = GROUP_PAD + GROUP_TITLE_H;
    let mut row_h: Px = 0;
    let mut max_w: Px = GROUP_PAD;
    let mut max_h: Px = GROUP_PAD + GROUP_TITLE_H;
    let mut raw: Vec<(Px, Px)> = Vec::new();
    let mut ends: Vec<Px> = Vec::new();
    let mut k: usize = 0;
    while k < n
        invariant
            k <= n,
            n == s@.len(),
            cols == columns(n as int),
            cols >= 1,
            sizes_fit(s@),
            bounded(x as int) && bounded(y as int) && bounded(row_h as int),
            bounded(max_w as int) && bounded(max_h as int),
            pen(s@, cols as int, k as int) == (Pen {
                x: x as int,
                y: y as int,
                row_h: row_h as int,
                max_w: max_w as int,
                max_h: max_h as int,
            }),
            raw@.len() == k,
            ends@.len() == k,
            sizes_fit(raw@),
            forall|i: int|
                0 <= i < k ==> ((#[trigger] raw@[i]).0 as int, raw@[i].1 as int) == (
                    turned(pen(s@, cols as int, i), i, cols as int).x,
                    turned(pen(s@, cols as int, i), i, cols as int).y,
                ),
            forall|i: int|
                0 <= i < k ==> (#[trigger] ends@[i]) == pen(s@, cols as int, i + 1).x && bounded(
                    ends@[i] as int,
                ),
        decreases n - k,
    {
        if k > 0 && k % cols == 0 {
            x = GROUP_PAD;
            y = sum(y, sum(row_h, CHILD_GAP));
            row_h = 0;
        }
        raw.push((x, y));
        assert(bounded(s@[k as int].0 as int));
        let (w, h) = s[k];
        row_h = greater(row_h, h);
        max_w = greater(max_w, sum(sum(x, w), GROUP_PAD));
        max_h = greater(max_h, sum(sum(y, h), GROUP_PAD));
        x = sum(x, sum(w, CHILD_GAP));
        ends.push(x);
        k += 1;
    }
    let w: Px = greater(max_w, LEAST_W);
    let h: Px = greater(max_h, LEAST_H);
    let mut out: Vec<(Px, Px)> = Vec::new();
    let mut i: usize = 0;
    while i < n
        invariant
            i <= n,
            n == s@.len(),
            cols == columns(n as int),
            cols >= 1,
            bounded(w as int),
            w == group_size(s@).0,
            raw@.len() == n,
            ends@.len() == n,
            sizes_fit(raw@),
            forall|j: int|
                0 <= j < n ==> ((#[trigger] raw@[j]).0 as int, raw@[j].1 as int) == (
                    turned(pen(s@, cols as int, j), j, cols as int).x,
                    turned(pen(s@, cols as int, j), j, cols as int).y,
                ),
            forall|j: int|
                0 <= j < n ==> (#[trigger] ends@[j]) == pen(s@, cols as int, j + 1).x && bounded(
                    ends@[j] as int,
                ),
            out@.len() == i,
            sizes_fit(out@),
            forall|j: int|
                0 <= j < i ==> ((#[trigger] out@[j]).0 as int, out@[j].1 as int) == box_at(s@, j),
        decreases n - i,
    {
        proof {
            vstd::arithmetic::div_mod::lemma_mod_decreases(i as nat, cols as nat);
        }
        let base: usize = i - i % cols;
        let end: usize = if n - base < cols {
            n
        } else {
            base + cols
        };
        proof {
            vstd::arithmetic::div_mod::lemma_mod_bound(i as int, cols as int);
            assert(base <= i < base + cols);
            assert(end == row_end(i as int, cols as int, n as int));
            assert(1 <= end <= n);
            assert(ends@[end - 1] == pen(s@, cols as int, end as int).x);
        }
        let right: Px = diff(ends[end - 1], CHILD_GAP);
        let aside: Px = half(diff(w, sum(right, GROUP_PAD)));
        assert(bounded(raw@[i as int].0 as int));
        let at = (sum(raw[i].0, aside), raw[i].1);
        out.push(at);
        i += 1;
    }
    (out, w, h)
}

} // verus!
