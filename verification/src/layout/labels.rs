//! Label lines as styled runs: `<b>`, `<strong>`, `<i>` and `<em>` style what
//! follows them, `$$…$$` encloses mathematics, anything else is text.

use crate::text::{chars_of, eq_ignore_case, find_char, first_index, lower, string_of};
use vstd::prelude::*;

verus! {

/// One styled run of a label line: its text, whether it is bold, whether it
/// is italic.
pub type Run = (Seq<char>, bool, bool);

/// The styling tags.
pub enum Tag {
    Bold(bool),
    Italic(bool),
}

/// Whether `name` is `known`, letter case aside.
pub open spec fn named(name: Seq<char>, known: Seq<char>) -> bool {
    lower(name) == lower(known)
}

/// What the tag with this name does, where it styles anything.
pub open spec fn tag_of(name: Seq<char>) -> Option<Tag> {
    if named(name, "b"@) || named(name, "strong"@) {
        Some(Tag::Bold(true))
    } else if named(name, "/b"@) || named(name, "/strong"@) {
        Some(Tag::Bold(false))
    } else if named(name, "i"@) || named(name, "em"@) {
        Some(Tag::Italic(true))
    } else if named(name, "/i"@) || named(name, "/em"@) {
        Some(Tag::Italic(false))
    } else {
        None
    }
}

/// Whether `$$` stands at `k`.
pub open spec fn fence_at(s: Seq<char>, k: int) -> bool {
    s[k] == '$' && s[k + 1] == '$'
}

/// The first position from `k` on where `$$` stands.
pub open spec fn fence_from(s: Seq<char>, k: int) -> Option<int>
    decreases s.len() - k,
{
    if k < 0 || k + 1 >= s.len() {
        None
    } else if fence_at(s, k) {
        Some(k)
    } else {
        fence_from(s, k + 1)
    }
}

/// Where the mathematics that opens at `i` closes: at the first `$$` behind
/// at least one character.
pub open spec fn math_end(s: Seq<char>, i: int) -> Option<int> {
    if i + 1 < s.len() && fence_at(s, i) {
        fence_from(s, i + 3)
    } else {
        None
    }
}

/// The styling tag that stands at `i`, with its length in characters.
pub open spec fn tag_at(s: Seq<char>, i: int) -> Option<(Tag, int)> {
    if s[i] != '<' {
        None
    } else {
        match first_index(s.skip(i), '>') {
            Some(j) => match tag_of(s.subrange(i + 1, i + j)) {
                Some(t) => Some((t, j + 1)),
                None => None,
            },
            None => None,
        }
    }
}

/// `done` with the pending text as one more run, if there is any.
pub open spec fn flushed(
    done: Seq<Run>,
    pending: Seq<char>,
    bold: bool,
    italic: bool,
) -> Seq<Run> {
    if pending.len() > 0 {
        done.push((pending, bold, italic))
    } else {
        done
    }
}

pub proof fn lemma_fence_from(s: Seq<char>, k: int)
    requires
        0 <= k,
    ensures
        fence_from(s, k) matches Some(e) ==> k <= e && e + 1 < s.len() && s[e] == '$' && s[e + 1]
            == '$',
    decreases s.len() - k,
{
    if k + 1 < s.len() && !(s[k] == '$' && s[k + 1] == '$') {
        lemma_fence_from(s, k + 1);
    }
}

/// The runs of the characters from `i` on, behind the runs `done` and the
/// text `pending`, which is styled as `bold` and `italic` say.
pub open spec fn runs_from(
    s: Seq<char>,
    i: int,
    done: Seq<Run>,
    pending: Seq<char>,
    bold: bool,
    italic: bool,
) -> Seq<Run>
    decreases s.len() - i,
{
    if i < 0 || i >= s.len() {
        if pending.len() > 0 || done.len() == 0 {
            done.push((pending, bold, italic))
        } else {
            done
        }
    } else {
        match math_end(s, i) {
            Some(k) => {
                proof {
                    lemma_fence_from(s, i + 3);
                }
                runs_from(
                    s,
                    k + 2,
                    flushed(done, pending, bold, italic).push((s.subrange(i + 2, k), bold, true)),
                    Seq::empty(),
                    bold,
                    italic,
                )
            },
            None => match tag_at(s, i) {
                Some((t, n)) => {
                    proof {
                        crate::text::lemma_index_from(s.skip(i), '>', 0);
                    }
                    let out = flushed(done, pending, bold, italic);
                    match t {
                        Tag::Bold(on) => runs_from(s, i + n, out, Seq::empty(), on, italic),
                        Tag::Italic(on) => runs_from(s, i + n, out, Seq::empty(), bold, on),
                    }
                },
                None => runs_from(s, i + 1, done, pending.push(s[i]), bold, italic),
            },
        }
    }
}

/// The styled runs of a label line.
pub open spec fn runs(s: Seq<char>) -> Seq<Run> {
    runs_from(s, 0, Seq::empty(), Seq::empty(), false, false)
}

/// The runs in mathematical terms.
pub open spec fn run_views(v: Seq<(String, bool, bool)>) -> Seq<Run> {
    v.map_values(|r: (String, bool, bool)| (r.0@, r.1, r.2))
}

fn tag_named(name: &[char]) -> (r: Option<Tag>)
    ensures
        r == tag_of(name@),
{
    if eq_ignore_case(name, "b") || eq_ignore_case(name, "strong") {
        Some(Tag::Bold(true))
    } else if eq_ignore_case(name, "/b") || eq_ignore_case(name, "/strong") {
        Some(Tag::Bold(false))
    } else if eq_ignore_case(name, "i") || eq_ignore_case(name, "em") {
        Some(Tag::Italic(true))
    } else if eq_ignore_case(name, "/i") || eq_ignore_case(name, "/em") {
        Some(Tag::Italic(false))
    } else {
        None
    }
}

fn math_close(s: &[char], i: usize) -> (r: Option<usize>)
    requires
        i < s@.len(),
    ensures
        match r {
            Some(k) => math_end(s@, i as int) == Some(k as int) && i + 3 <= k && k + 1 < s@.len(),
            None => math_end(s@, i as int) is None,
        },
{
    let n: usize = s.len();
    if n - i < 2 || s[i] != '$' || s[i + 1] != '$' {
        return None;
    }
    if n - i < 5 {
        return None;
    }
    let mut k: usize = i + 3;
    while k < n - 1
        invariant
            n == s@.len(),
            i + 3 <= k <= n - 1,
            n >= 1,
            i < n,
            i + 1 < n && s@[i as int] == '$' && s@[i + 1] == '$',
            fence_from(s@, i + 3) == fence_from(s@, k as int),
        decreases n - k,
    {
        if s[k] == '$' && s[k + 1] == '$' {
            return Some(k);
        }
        k += 1;
    }
    None
}

fn tag_here(s: &[char], i: usize) -> (r: Option<(Tag, usize)>)
    requires
        i < s@.len(),
    ensures
        match r {
            Some((t, n)) => tag_at(s@, i as int) == Some((t, n as int)) && 0 < n && i + n
                <= s@.len(),
            None => tag_at(s@, i as int) is None,
        },
{
    if s[i] != '<' {
        return None;
    }
    let n: usize = s.len();
    let rest = &s[i..n];
    assert(rest@ =~= s@.skip(i as int));
    match find_char(rest, '>') {
        Some(j) => {
            proof {
                crate::text::lemma_index_from(rest@, '>', 0);
                assert(rest@[0] == '<');
            }
            let name = &s[i + 1..i + j];
            match tag_named(name) {
                Some(t) => Some((t, j + 1)),
                None => None,
            }
        },
        None => None,
    }
}

/// Split one label line into styled runs `(text, bold, italic)`. Unknown
/// tags stay literal text, an unclosed tag styles to the end of the line,
/// and an unclosed `$$` stays literal. There is always at least one run.
pub fn spans(line: &str) -> (r: Vec<(String, bool, bool)>)
    ensures
        run_views(r@) == runs(line@),
{
    let chars = chars_of(line);
    let s = chars.as_slice();
    let n: usize = s.len();
    let mut out: Vec<(String, bool, bool)> = Vec::new();
    let mut bold = false;
    let mut italic = false;
    let mut cur = String::new();
    let mut cur_len: usize = 0;
    let mut i: usize = 0;
    assert(run_views(out@) =~= Seq::empty());
    while i < n
        invariant
            n == s@.len(),
            s@ == line@,
            i <= n,
            cur_len == cur@.len(),
            cur_len <= i,
            runs_from(s@, i as int, run_views(out@), cur@, bold, italic) == runs(line@),
        decreases n - i,
    {
        match math_close(s, i) {
            Some(k) => {
                let ghost done = run_views(out@);
                let ghost pending = cur@;
                if cur_len > 0 {
                    out.push((cur, bold, italic));
                }
                assert(run_views(out@) =~= flushed(done, pending, bold, italic));
                let ghost mid = run_views(out@);
                let body = &s[i + 2..k];
                out.push((string_of(body), bold, true));
                assert(run_views(out@) =~= mid.push((s@.subrange(i + 2, k as int), bold, true)));
                cur = String::new();
                cur_len = 0;
                assert(cur@ =~= Seq::empty());
                i = k + 2;
                continue ;
            },
            None => {},
        }
        match tag_here(s, i) {
            Some((t, len)) => {
                let ghost done = run_views(out@);
                let ghost pending = cur@;
                let ghost was = (bold, italic);
                if cur_len > 0 {
                    out.push((cur, bold, italic));
                }
                assert(run_views(out@) =~= flushed(done, pending, was.0, was.1));
                match t {
                    Tag::Bold(on) => bold = on,
                    Tag::Italic(on) => italic = on,
                }
                cur = String::new();
                cur_len = 0;
                assert(cur@ =~= Seq::empty());
                i += len;
                continue ;
            },
            None => {},
        }
        cur.push(s[i]);
        cur_len += 1;
        i += 1;
    }
    if cur_len > 0 || out.len() == 0 {
        let ghost done = run_views(out@);
        out.push((cur, bold, italic));
        assert(run_views(out@) =~= done.push((cur@, bold, italic)));
    }
    out
}

/// How many characters of `s` are `c`.
pub open spec fn count_char(s: Seq<char>, c: char) -> nat
    decreases s.len(),
{
    if s.len() == 0 {
        0
    } else {
        count_char(s.drop_last(), c) + (if s.last() == c {
            1nat
        } else {
            0
        })
    }
}

/// Number of line breaks in a label.
pub fn break_count(s: &str) -> (r: usize)
    ensures
        r == count_char(s@, '\n'),
        r <= s@.len(),
{
    let chars = chars_of(s);
    let mut n: usize = 0;
    let mut i: usize = 0;
    while i < chars.len()
        invariant
            i <= chars@.len(),
            chars@ == s@,
            n <= i,
            n == count_char(s@.take(i as int), '\n'),
        decreases chars@.len() - i,
    {
        assert(s@.take(i as int + 1).drop_last() =~= s@.take(i as int));
        if chars[i] == '\n' {
            n += 1;
        }
        i += 1;
    }
    assert(s@.take(s@.len() as int) =~= s@);
    n
}

/// Number of text lines in a label: one more than it has line breaks.
pub fn line_count(s: &str) -> (r: usize)
    requires
        s@.len() < usize::MAX,
    ensures
        r == count_char(s@, '\n') + 1,
{
    break_count(s) + 1
}

/// A label line has at least one run.
pub proof fn law_line_has_a_run(s: Seq<char>)
    ensures
        runs(s).len() > 0,
{
    lemma_some_run(s, 0, Seq::empty(), Seq::empty(), false, false);
}

proof fn lemma_some_run(
    s: Seq<char>,
    i: int,
    done: Seq<Run>,
    pending: Seq<char>,
    bold: bool,
    italic: bool,
)
    requires
        0 <= i,
    ensures
        runs_from(s, i, done, pending, bold, italic).len() > 0,
        runs_from(s, i, done, pending, bold, italic).len() >= done.len(),
    decreases s.len() - i,
{
    if i < s.len() {
        match math_end(s, i) {
            Some(k) => {
                lemma_fence_from(s, i + 3);
                lemma_some_run(
                    s,
                    k + 2,
                    flushed(done, pending, bold, italic).push((s.subrange(i + 2, k), bold, true)),
                    Seq::empty(),
                    bold,
                    italic,
                );
            },
            None => match tag_at(s, i) {
                Some((t, n)) => {
                    crate::text::lemma_index_from(s.skip(i), '>', 0);
                    let out = flushed(done, pending, bold, italic);
                    match t {
                        Tag::Bold(on) => lemma_some_run(s, i + n, out, Seq::empty(), on, italic),
                        Tag::Italic(on) => lemma_some_run(s, i + n, out, Seq::empty(), bold, on),
                    }
                },
                None => lemma_some_run(s, i + 1, done, pending.push(s[i]), bold, italic),
            },
        }
    }
}

/// A line without `<` and without `$$` is one plain run.
pub proof fn law_plain_line_is_one_run(s: Seq<char>)
    requires
        !s.contains('<'),
        forall|i: int| 0 <= i < s.len() - 1 ==> !fence_at(s, i),
    ensures
        runs(s) == seq![(s, false, false)],
{
    assert(s.take(0) =~= Seq::empty());
    lemma_plain_rest(s, 0);
}

proof fn lemma_plain_rest(s: Seq<char>, i: int)
    requires
        0 <= i <= s.len(),
        !s.contains('<'),
        forall|j: int| 0 <= j < s.len() - 1 ==> !fence_at(s, j),
    ensures
        runs_from(s, i, Seq::empty(), s.take(i), false, false) == seq![(s, false, false)],
    decreases s.len() - i,
{
    if i < s.len() {
        assert(s.contains(s[i]));
        lemma_plain_rest(s, i + 1);
        assert(s.take(i).push(s[i]) =~= s.take(i + 1));
    } else {
        assert(s.take(i) =~= s);
        assert(Seq::<Run>::empty().push((s, false, false)) =~= seq![(s, false, false)]);
    }
}

} // verus!
