//! How wide text is drawn.

use vstd::prelude::*;

use crate::layout::labels::{run_views, runs, spans, Run};
use crate::text::{chars_of, split_char, split_seq, string_of, texts};

verus! {

/// How far a character advances, in tenths of a pixel.
pub open spec fn advance_of(c: char) -> nat {
    if c == 'i' || c == 'l' || c == 'j' {
        34
    } else if c == ' ' || c == '.' || c == ',' || c == ':' || c == ';' || c == '!' || c == '\''
        || c == 't' || c == 'f' || c == 'I' || c == '|' {
        39
    } else if c == 'r' || c == '(' || c == ')' || c == '[' || c == ']' || c == '-' || c == '/' {
        47
    } else if c == 's' || c == 'c' || c == 'k' || c == 'v' || c == 'x' || c == 'y' || c == 'z' || c
        == 'J' {
        70
    } else if c == 'm' || c == 'M' {
        117
    } else if c == 'w' {
        101
    } else if c == 'W' {
        132
    } else if 'A' <= c && c <= 'Z' {
        97
    } else if c as u32 >= 0x2E80 {
        140
    } else {
        78
    }
}

fn char_advance(c: char) -> (r: u64)
    ensures
        r == advance_of(c),
        r <= 140,
{
    match c {
        'i' | 'l' | 'j' => 34,
        ' ' | '.' | ',' | ':' | ';' | '!' | '\'' | 't' | 'f' | 'I' | '|' => 39,
        'r' | '(' | ')' | '[' | ']' | '-' | '/' => 47,
        's' | 'c' | 'k' | 'v' | 'x' | 'y' | 'z' | 'J' => 70,
        'm' | 'M' => 117,
        'w' => 101,
        'W' => 132,
        _ => if 'A' <= c && c <= 'Z' {
            97
        } else if c as u32 >= 0x2E80 {
            140
        } else {
            78
        },
    }
}

/// What a tenth of a pixel is drawn as, in thousandths: bold text is six
/// percent wider.
pub open spec fn weight(bold: bool) -> nat {
    if bold {
        106
    } else {
        100
    }
}

/// The width of the first `k` characters, in thousandths of a pixel.
pub open spec fn chars_width(s: Seq<char>, bold: bool, k: int) -> nat
    decreases k,
{
    if k <= 0 {
        0
    } else {
        chars_width(s, bold, k - 1) + advance_of(s[k - 1]) * weight(bold)
    }
}

/// The width of the first `k` runs, in thousandths of a pixel.
pub open spec fn runs_width(r: Seq<Run>, k: int) -> nat
    decreases k,
{
    if k <= 0 {
        0
    } else {
        runs_width(r, k - 1) + chars_width(r[k - 1].0, r[k - 1].1, r[k - 1].0.len() as int)
    }
}

/// The width of a line, in thousandths of a pixel.
pub open spec fn line_width(line: Seq<char>) -> nat {
    runs_width(runs(line), runs(line).len() as int)
}

/// The width of the widest of the first `k` lines.
pub open spec fn widest_line(lines: Seq<Seq<char>>, k: int) -> nat
    decreases k,
{
    if k <= 0 {
        0
    } else {
        let w = line_width(lines[k - 1]);
        let before = widest_line(lines, k - 1);
        if before < w {
            w
        } else {
            before
        }
    }
}

/// The width of a text: that of its widest line, in thousandths of a pixel.
pub open spec fn width(s: Seq<char>) -> nat {
    let lines = split_seq(s, '\n');
    widest_line(lines, lines.len() as int)
}

/// The greatest width that is told apart, in thousandths of a pixel.
pub const MAX_WIDTH: u64 = 0x1000_0000_0000_0000;

/// `n`, or the greatest width where that is less.
pub open spec fn capped(n: nat) -> nat {
    if n < MAX_WIDTH {
        n
    } else {
        MAX_WIDTH as nat
    }
}

fn cap(n: u64) -> (r: u64)
    ensures
        r == capped(n as nat),
        r <= MAX_WIDTH,
{
    if n < MAX_WIDTH {
        n
    } else {
        MAX_WIDTH
    }
}

fn run_width(s: &str, bold: bool) -> (r: u64)
    ensures
        r == capped(chars_width(s@, bold, s@.len() as int)),
        r <= MAX_WIDTH,
{
    let chars = chars_of(s);
    let factor: u64 = if bold {
        106
    } else {
        100
    };
    let mut w: u64 = 0;
    let mut i: usize = 0;
    while i < chars.len()
        invariant
            i <= chars@.len(),
            factor == weight(bold),
            factor <= 106,
            w == capped(chars_width(chars@, bold, i as int)),
            w <= MAX_WIDTH,
        decreases chars@.len() - i,
    {
        let a: u64 = char_advance(chars[i]);
        assert(a * factor <= 14840) by (nonlinear_arith)
            requires
                a <= 140,
                factor <= 106,
        ;
        w = cap(w + a * factor);
        i += 1;
    }
    w
}

fn width_of_line(line: &str) -> (r: u64)
    ensures
        r == capped(line_width(line@)),
        r <= MAX_WIDTH,
{
    let parts = spans(line);
    let ghost all = runs(line@);
    let mut w: u64 = 0;
    let mut i: usize = 0;
    while i < parts.len()
        invariant
            i <= parts@.len(),
            all == run_views(parts@),
            w == capped(runs_width(all, i as int)),
            w <= MAX_WIDTH,
        decreases parts@.len() - i,
    {
        let p = &parts[i];
        assert(all[i as int] == (p.0@, p.1, p.2));
        w = cap(w + run_width(p.0.as_str(), p.1));
        i += 1;
    }
    assert(all.len() == parts@.len());
    w
}

/// Estimated width of the widest line of `s`, in thousandths of a pixel.
/// Tags that style are interpreted, not measured.
pub fn text_width(s: &str) -> (r: u64)
    ensures
        r == capped(width(s@)),
{
    let chars = chars_of(s);
    let lines = split_char(chars.as_slice(), '\n');
    let ghost all = texts(lines@);
    assert(all == split_seq(s@, '\n'));
    let mut best: u64 = 0;
    let mut i: usize = 0;
    while i < lines.len()
        invariant
            i <= lines@.len(),
            all == texts(lines@),
            best == capped(widest_line(all, i as int)),
            best <= MAX_WIDTH,
        decreases lines@.len() - i,
    {
        assert(all[i as int] == lines@[i as int]@);
        let line = string_of(lines[i]);
        let w: u64 = width_of_line(line.as_str());
        if best < w {
            best = w;
        }
        i += 1;
    }
    assert(all.len() == lines@.len());
    best
}

proof fn lemma_bold(s: Seq<char>, k: int)
    ensures
        chars_width(s, false, k) * 106 == chars_width(s, true, k) * 100,
    decreases k,
{
    if k > 0 {
        lemma_bold(s, k - 1);
    }
}

/// Bold text is six percent wider than the same text plain.
pub proof fn law_bold_is_six_percent_wider(s: Seq<char>)
    ensures
        chars_width(s, false, s.len() as int) * 106 == chars_width(s, true, s.len() as int) * 100,
{
    lemma_bold(s, s.len() as int);
}

} // verus!
