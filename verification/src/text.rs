//! Text as a sequence of characters: classification, trimming, searching
//! and splitting, each stated over `Seq<char>`.

use vstd::prelude::*;

verus! {

/// `String::push` appends one character.
pub assume_specification[ String::push ](s: &mut String, c: char)
    ensures
        final(s)@ == old(s)@.push(c),
;

/// A `String` with the characters of `s`.
pub fn string_of(s: &[char]) -> (r: String)
    ensures
        r@ == s@,
{
    let mut r = String::new();
    let mut i: usize = 0;
    while i < s.len()
        invariant
            i <= s@.len(),
            r@ == s@.subrange(0, i as int),
        decreases s@.len() - i,
    {
        r.push(s[i]);
        i += 1;
        assert(r@ =~= s@.subrange(0, i as int));
    }
    assert(s@.subrange(0, s@.len() as int) =~= s@);
    r
}

/// The characters of `s`.
pub fn chars_of(s: &str) -> (r: Vec<char>)
    ensures
        r@ == s@,
{
    let mut r: Vec<char> = Vec::new();
    for c in it: s.chars()
        invariant
            it.seq() == s@,
            r@ == s@.subrange(0, it.index() as int),
    {
        r.push(c);
        assert(r@ =~= s@.subrange(0, it.index() as int + 1));
    }
    assert(s@.subrange(0, s@.len() as int) =~= s@);
    r
}

/// The characters of the Unicode `White_Space` property.
pub open spec fn is_white(c: char) -> bool {
    let u = c as u32;
    ||| 0x09 <= u <= 0x0d
    ||| u == 0x20
    ||| u == 0x85
    ||| u == 0xa0
    ||| u == 0x1680
    ||| 0x2000 <= u <= 0x200a
    ||| u == 0x2028
    ||| u == 0x2029
    ||| u == 0x202f
    ||| u == 0x205f
    ||| u == 0x3000
}

pub fn white(c: char) -> (r: bool)
    ensures
        r == is_white(c),
{
    let u: u32 = c as u32;
    (0x09 <= u && u <= 0x0d) || u == 0x20 || u == 0x85 || u == 0xa0 || u == 0x1680 || (0x2000 <= u
        && u <= 0x200a) || u == 0x2028 || u == 0x2029 || u == 0x202f || u == 0x205f || u == 0x3000
}

/// An ASCII decimal digit.
pub open spec fn is_digit(c: char) -> bool {
    '0' <= c && c <= '9'
}

pub fn digit(c: char) -> (r: bool)
    ensures
        r == is_digit(c),
{
    '0' <= c && c <= '9'
}

/// Whether every character of `s` is an ASCII decimal digit.
pub open spec fn all_digits(s: Seq<char>) -> bool {
    forall|i: int| 0 <= i < s.len() ==> is_digit(#[trigger] s[i])
}

/// `c` with `A`..`Z` mapped to `a`..`z`.
pub open spec fn lower_char(c: char) -> char {
    if 'A' <= c && c <= 'Z' {
        (c as u32 + 32) as char
    } else {
        c
    }
}

/// `s` with `A`..`Z` mapped to `a`..`z`.
pub open spec fn lower(s: Seq<char>) -> Seq<char> {
    s.map_values(|c: char| lower_char(c))
}

pub fn to_lower(c: char) -> (r: char)
    ensures
        r == lower_char(c),
{
    if 'A' <= c && c <= 'Z' {
        (c as u8 + 32) as char
    } else {
        c
    }
}

/// Whether `s` and `t` are the same text but for ASCII case.
pub fn eq_ignore_case(s: &[char], t: &str) -> (r: bool)
    ensures
        r == (lower(s@) == lower(t@)),
{
    let tc = chars_of(t);
    if s.len() != tc.len() {
        assert(lower(s@).len() == s@.len() && lower(t@).len() == t@.len());
        return false;
    }
    let mut i: usize = 0;
    while i < s.len()
        invariant
            i <= s@.len(),
            s@.len() == tc@.len(),
            tc@ == t@,
            forall|j: int| 0 <= j < i ==> lower_char(s@[j]) == lower_char(t@[j]),
        decreases s@.len() - i,
    {
        if to_lower(s[i]) != to_lower(tc[i]) {
            assert(lower(s@)[i as int] != lower(t@)[i as int]);
            return false;
        }
        i += 1;
    }
    assert(lower(s@) =~= lower(t@));
    true
}

/// Whether `s` and `t` hold the same characters.
pub fn same(s: &[char], t: &[char]) -> (r: bool)
    ensures
        r == (s@ == t@),
{
    if s.len() != t.len() {
        return false;
    }
    let mut i: usize = 0;
    while i < s.len()
        invariant
            i <= s@.len(),
            s@.len() == t@.len(),
            forall|j: int| 0 <= j < i ==> s@[j] == t@[j],
        decreases s@.len() - i,
    {
        if s[i] != t[i] {
            return false;
        }
        i += 1;
    }
    assert(s@ =~= t@);
    true
}

/// Whether `s` is the word `t`.
pub fn eq(s: &[char], t: &str) -> (r: bool)
    ensures
        r == (s@ == t@),
{
    let tc = chars_of(t);
    same(s, tc.as_slice())
}

/// Whether two strings are equal.
pub fn str_eq(a: &str, b: &str) -> (r: bool)
    ensures
        r == (a@ == b@),
{
    let ac = chars_of(a);
    eq(ac.as_slice(), b)
}

/// Whether `t` stands in `s` at position `i`.
pub open spec fn occurs_at(s: Seq<char>, t: Seq<char>, i: int) -> bool {
    0 <= i && i + t.len() <= s.len() && s.subrange(i, i + t.len()) == t
}

/// The first position at or after `i` at which `t` stands in `s`.
pub open spec fn find_from(s: Seq<char>, t: Seq<char>, i: int) -> Option<int>
    decreases s.len() - i + 1,
{
    if i < 0 || i > s.len() {
        None
    } else if occurs_at(s, t, i) {
        Some(i)
    } else {
        find_from(s, t, i + 1)
    }
}

/// The first position at which `t` stands in `s`.
pub open spec fn find_seq(s: Seq<char>, t: Seq<char>) -> Option<int> {
    find_from(s, t, 0)
}

/// What `find_from` finds is the least position that fits.
pub proof fn lemma_find_from(s: Seq<char>, t: Seq<char>, i: int)
    requires
        0 <= i,
    ensures
        find_from(s, t, i) matches Some(k) ==> i <= k && occurs_at(s, t, k) && (forall|j: int|
            i <= j < k ==> !#[trigger] occurs_at(s, t, j)),
        find_from(s, t, i) is None ==> (forall|j: int| i <= j ==> !#[trigger] occurs_at(s, t, j)),
    decreases s.len() - i + 1,
{
    if i <= s.len() && !occurs_at(s, t, i) {
        lemma_find_from(s, t, i + 1);
    }
}

pub open spec fn has(s: Seq<char>, t: Seq<char>) -> bool {
    find_seq(s, t) is Some
}

pub open spec fn has_prefix(s: Seq<char>, t: Seq<char>) -> bool {
    t.len() <= s.len() && s.subrange(0, t.len() as int) == t
}

pub open spec fn has_suffix(s: Seq<char>, t: Seq<char>) -> bool {
    t.len() <= s.len() && s.subrange(s.len() - t.len(), s.len() as int) == t
}

fn occurs(s: &[char], t: &[char], i: usize) -> (r: bool)
    requires
        i <= s@.len(),
    ensures
        r == occurs_at(s@, t@, i as int),
{
    if t.len() > s.len() - i {
        return false;
    }
    same(&s[i..i + t.len()], t)
}

/// The first position of `t` in `s`.
pub fn find(s: &[char], t: &str) -> (r: Option<usize>)
    ensures
        match r {
            Some(i) => find_seq(s@, t@) == Some(i as int) && i + t@.len() <= s@.len(),
            None => find_seq(s@, t@) is None,
        },
{
    let tc = chars_of(t);
    let mut i: usize = 0;
    loop
        invariant
            i <= s@.len(),
            tc@ == t@,
            find_seq(s@, t@) == find_from(s@, t@, i as int),
        decreases s@.len() - i,
    {
        if occurs(s, tc.as_slice(), i) {
            return Some(i);
        }
        if i == s.len() {
            assert(find_from(s@, t@, i as int + 1) is None);
            return None;
        }
        i += 1;
    }
}

pub fn contains(s: &[char], t: &str) -> (r: bool)
    ensures
        r == has(s@, t@),
{
    find(s, t).is_some()
}

pub fn starts_with(s: &[char], t: &str) -> (r: bool)
    ensures
        r == has_prefix(s@, t@),
{
    let tc = chars_of(t);
    occurs(s, tc.as_slice(), 0)
}

pub fn ends_with(s: &[char], t: &str) -> (r: bool)
    ensures
        r == has_suffix(s@, t@),
{
    let tc = chars_of(t);
    if tc.len() > s.len() {
        return false;
    }
    occurs(s, tc.as_slice(), s.len() - tc.len())
}

/// The position of the first `c` in `s` at or after `i`.
pub open spec fn index_from(s: Seq<char>, c: char, i: int) -> Option<int>
    decreases s.len() - i,
{
    if i < 0 || i >= s.len() {
        None
    } else if s[i] == c {
        Some(i)
    } else {
        index_from(s, c, i + 1)
    }
}

/// The position of the first `c` in `s`.
pub open spec fn first_index(s: Seq<char>, c: char) -> Option<int> {
    index_from(s, c, 0)
}

pub open spec fn has_char(s: Seq<char>, c: char) -> bool {
    exists|i: int| 0 <= i < s.len() && s[i] == c
}

pub proof fn lemma_index_from(s: Seq<char>, c: char, i: int)
    requires
        0 <= i,
    ensures
        index_from(s, c, i) matches Some(k) ==> i <= k < s.len() && s[k] == c && (forall|j: int|
            i <= j < k ==> s[j] != c),
        index_from(s, c, i) is None ==> (forall|j: int| i <= j < s.len() ==> s[j] != c),
    decreases s.len() - i,
{
    if i < s.len() && s[i] != c {
        lemma_index_from(s, c, i + 1);
    }
}

pub fn find_char(s: &[char], c: char) -> (r: Option<usize>)
    ensures
        match r {
            Some(i) => first_index(s@, c) == Some(i as int) && i < s@.len() && s@[i as int] == c && (
            forall|j: int| 0 <= j < i ==> s@[j] != c),
            None => first_index(s@, c) is None && !has_char(s@, c),
        },
{
    let mut i: usize = 0;
    while i < s.len()
        invariant
            i <= s@.len(),
            first_index(s@, c) == index_from(s@, c, i as int),
            forall|j: int| 0 <= j < i ==> s@[j] != c,
        decreases s@.len() - i,
    {
        if s[i] == c {
            return Some(i);
        }
        i += 1;
    }
    None
}

pub fn contains_char(s: &[char], c: char) -> (r: bool)
    ensures
        r == has_char(s@, c),
{
    match find_char(s, c) {
        Some(i) => {
            assert(s@[i as int] == c);
            true
        },
        None => false,
    }
}

/// The position of the last `c` in `s`.
pub open spec fn last_index(s: Seq<char>, c: char) -> Option<int>
    decreases s.len(),
{
    if s.len() == 0 {
        None
    } else if s.last() == c {
        Some(s.len() - 1)
    } else {
        last_index(s.drop_last(), c)
    }
}

pub proof fn lemma_last_index(s: Seq<char>, c: char)
    ensures
        last_index(s, c) matches Some(k) ==> 0 <= k < s.len() && s[k] == c && (forall|j: int|
            k < j < s.len() ==> s[j] != c),
        last_index(s, c) is None ==> (forall|j: int| 0 <= j < s.len() ==> s[j] != c),
    decreases s.len(),
{
    if s.len() > 0 && s.last() != c {
        lemma_last_index(s.drop_last(), c);
        assert(forall|j: int| 0 <= j < s.len() - 1 ==> s.drop_last()[j] == s[j]);
    }
}

pub fn rfind_char(s: &[char], c: char) -> (r: Option<usize>)
    ensures
        match r {
            Some(i) => last_index(s@, c) == Some(i as int) && i < s@.len() && s@[i as int] == c && (
            forall|j: int| i < j < s@.len() ==> s@[j] != c),
            None => last_index(s@, c) is None && !has_char(s@, c),
        },
{
    let mut i: usize = s.len();
    assert(s@.subrange(0, i as int) =~= s@);
    while i > 0
        invariant
            i <= s@.len(),
            last_index(s@, c) == last_index(s@.subrange(0, i as int), c),
            forall|j: int| i <= j < s@.len() ==> s@[j] != c,
        decreases i,
    {
        assert(s@.subrange(0, i as int).drop_last() =~= s@.subrange(0, i as int - 1));
        if s[i - 1] == c {
            return Some(i - 1);
        }
        i -= 1;
    }
    None
}

/// The last position at or before `i` at which `t` stands in `s`.
pub open spec fn rfind_from(s: Seq<char>, t: Seq<char>, i: int) -> Option<int>
    decreases i + 1,
{
    if i < 0 {
        None
    } else if occurs_at(s, t, i) {
        Some(i)
    } else {
        rfind_from(s, t, i - 1)
    }
}

/// The last position at which `t` stands in `s`.
pub open spec fn rfind_seq(s: Seq<char>, t: Seq<char>) -> Option<int> {
    rfind_from(s, t, s.len() as int)
}

pub fn rfind(s: &[char], t: &str) -> (r: Option<usize>)
    ensures
        match r {
            Some(i) => rfind_seq(s@, t@) == Some(i as int) && i + t@.len() <= s@.len(),
            None => rfind_seq(s@, t@) is None,
        },
{
    let tc = chars_of(t);
    let mut i: usize = s.len();
    loop
        invariant
            i <= s@.len(),
            tc@ == t@,
            rfind_seq(s@, t@) == rfind_from(s@, t@, i as int),
        decreases i,
    {
        if occurs(s, tc.as_slice(), i) {
            return Some(i);
        }
        if i == 0 {
            assert(rfind_from(s@, t@, -1) is None);
            return None;
        }
        i -= 1;
    }
}

/// `s` without its leading white space.
pub open spec fn trim_start_seq(s: Seq<char>) -> Seq<char>
    decreases s.len(),
{
    if s.len() > 0 && is_white(s[0]) {
        trim_start_seq(s.skip(1))
    } else {
        s
    }
}

/// `s` without its trailing white space.
pub open spec fn trim_end_seq(s: Seq<char>) -> Seq<char>
    decreases s.len(),
{
    if s.len() > 0 && is_white(s.last()) {
        trim_end_seq(s.drop_last())
    } else {
        s
    }
}

/// `s` without its leading and trailing white space.
pub open spec fn trim_seq(s: Seq<char>) -> Seq<char> {
    trim_end_seq(trim_start_seq(s))
}

pub fn trim_start<'a>(s: &'a [char]) -> (r: &'a [char])
    ensures
        r@ == trim_start_seq(s@),
{
    let mut i: usize = 0;
    assert(s@.skip(0) =~= s@);
    while i < s.len() && white(s[i])
        invariant
            i <= s@.len(),
            trim_start_seq(s@) == trim_start_seq(s@.skip(i as int)),
        decreases s@.len() - i,
    {
        assert(s@.skip(i as int).skip(1) =~= s@.skip(i as int + 1));
        i += 1;
    }
    assert(s@.subrange(i as int, s@.len() as int) =~= s@.skip(i as int));
    &s[i..s.len()]
}

pub fn trim_end<'a>(s: &'a [char]) -> (r: &'a [char])
    ensures
        r@ == trim_end_seq(s@),
{
    let mut i: usize = s.len();
    assert(s@.subrange(0, i as int) =~= s@);
    while i > 0 && white(s[i - 1])
        invariant
            i <= s@.len(),
            trim_end_seq(s@) == trim_end_seq(s@.subrange(0, i as int)),
        decreases i,
    {
        assert(s@.subrange(0, i as int).drop_last() =~= s@.subrange(0, i as int - 1));
        i -= 1;
    }
    &s[0..i]
}

pub fn trim<'a>(s: &'a [char]) -> (r: &'a [char])
    ensures
        r@ == trim_seq(s@),
{
    trim_end(trim_start(s))
}

/// `s` with every leading repetition of `p` removed.
pub open spec fn strip_all_prefix(s: Seq<char>, p: Seq<char>) -> Seq<char>
    decreases s.len(),
{
    if p.len() > 0 && has_prefix(s, p) {
        strip_all_prefix(s.skip(p.len() as int), p)
    } else {
        s
    }
}

pub fn trim_start_matches<'a>(s: &'a [char], p: &str) -> (r: &'a [char])
    ensures
        r@ == strip_all_prefix(s@, p@),
{
    let pc = chars_of(p);
    let mut i: usize = 0;
    assert(s@.skip(0) =~= s@);
    assert(s@.subrange(0, s@.len() as int) =~= s@);
    loop
        invariant
            i <= s@.len(),
            pc@ == p@,
            strip_all_prefix(s@, p@) == strip_all_prefix(s@.skip(i as int), p@),
        decreases s@.len() - i,
    {
        let rest = &s[i..s.len()];
        assert(rest@ =~= s@.skip(i as int));
        if pc.len() > 0 && occurs(rest, pc.as_slice(), 0) {
            assert(s@.skip(i as int).skip(p@.len() as int) =~= s@.skip(i as int + p@.len()));
            i += pc.len();
        } else {
            return rest;
        }
    }
}

/// `s` with every trailing repetition of `p` removed.
pub open spec fn strip_all_suffix(s: Seq<char>, p: Seq<char>) -> Seq<char>
    decreases s.len(),
{
    if p.len() > 0 && has_suffix(s, p) {
        strip_all_suffix(s.subrange(0, s.len() - p.len()), p)
    } else {
        s
    }
}

pub fn trim_end_matches<'a>(s: &'a [char], p: &str) -> (r: &'a [char])
    ensures
        r@ == strip_all_suffix(s@, p@),
{
    let pc = chars_of(p);
    let mut i: usize = s.len();
    assert(s@.subrange(0, i as int) =~= s@);
    loop
        invariant
            i <= s@.len(),
            pc@ == p@,
            strip_all_suffix(s@, p@) == strip_all_suffix(s@.subrange(0, i as int), p@),
        decreases i,
    {
        let rest = &s[0..i];
        if pc.len() > 0 && pc.len() <= i && occurs(rest, pc.as_slice(), i - pc.len()) {
            assert(rest@.subrange(0, i - p@.len()) =~= s@.subrange(0, i - p@.len()));
            i -= pc.len();
        } else {
            return rest;
        }
    }
}

/// `s` without leading and trailing `c`s.
pub open spec fn strip_char(s: Seq<char>, c: char) -> Seq<char> {
    strip_all_suffix(strip_all_prefix(s, seq![c]), seq![c])
}

/// `s` without its leading and trailing double quotes.
pub fn trim_quotes<'a>(s: &'a [char]) -> (r: &'a [char])
    ensures
        r@ == strip_char(s@, '"'),
{
    proof {
        reveal_strlit("\"");
        assert("\""@ =~= seq!['"']);
    }
    trim_end_matches(trim_start_matches(s, "\""), "\"")
}

/// The texts that a list of character slices holds.
pub open spec fn texts(v: Seq<&[char]>) -> Seq<Seq<char>> {
    v.map_values(|x: &[char]| x@)
}

/// The texts that a list of strings holds.
pub open spec fn strings(v: Seq<String>) -> Seq<Seq<char>> {
    v.map_values(|x: String| x@)
}

/// The pieces of `s` between the `c`s.
pub open spec fn split_seq(s: Seq<char>, c: char) -> Seq<Seq<char>>
    decreases s.len(),
{
    match first_index(s, c) {
        Some(k) if 0 <= k < s.len() => seq![s.take(k)] + split_seq(s.skip(k + 1), c),
        _ => seq![s],
    }
}

pub fn split_char<'a>(s: &'a [char], c: char) -> (r: Vec<&'a [char]>)
    ensures
        texts(r@) == split_seq(s@, c),
        r@.len() > 0,
{
    let mut out: Vec<&'a [char]> = Vec::new();
    let mut rest = s;
    assert(texts(out@) + split_seq(rest@, c) =~= split_seq(s@, c));
    loop
        invariant
            texts(out@) + split_seq(rest@, c) == split_seq(s@, c),
        decreases rest@.len(),
    {
        let ghost before = out@;
        let n: usize = rest.len();
        match find_char(rest, c) {
            Some(k) => {
                let piece = &rest[0..k];
                let next = &rest[k + 1..n];
                assert(piece@ =~= rest@.take(k as int));
                assert(next@ =~= rest@.skip(k as int + 1));
                out.push(piece);
                assert(texts(out@) =~= texts(before).push(piece@));
                assert(texts(before) + (seq![piece@] + split_seq(next@, c)) =~= texts(out@)
                    + split_seq(next@, c));
                rest = next;
            },
            None => {
                out.push(rest);
                assert(texts(out@) =~= texts(before) + seq![rest@]);
                return out;
            },
        }
    }
}

/// `s` without one trailing carriage return.
pub open spec fn strip_cr(s: Seq<char>) -> Seq<char> {
    if s.len() > 0 && s.last() == '\r' {
        s.drop_last()
    } else {
        s
    }
}

/// The lines of `s`: the pieces that end in a newline, each without it and
/// without a carriage return before it, and what stands after the last
/// newline when that is not empty.
pub open spec fn lines_seq(s: Seq<char>) -> Seq<Seq<char>>
    decreases s.len(),
{
    if s.len() == 0 {
        seq![]
    } else {
        match first_index(s, '\n') {
            Some(k) if 0 <= k < s.len() => seq![strip_cr(s.take(k))] + lines_seq(s.skip(k + 1)),
            _ => seq![s],
        }
    }
}

pub fn lines<'a>(s: &'a [char]) -> (r: Vec<&'a [char]>)
    ensures
        texts(r@) == lines_seq(s@),
{
    let mut out: Vec<&'a [char]> = Vec::new();
    let mut rest = s;
    assert(texts(out@) + lines_seq(rest@) =~= lines_seq(s@));
    while rest.len() > 0
        invariant
            texts(out@) + lines_seq(rest@) == lines_seq(s@),
        decreases rest@.len(),
    {
        let ghost before = out@;
        let n: usize = rest.len();
        match find_char(rest, '\n') {
            Some(k) => {
                let stop: usize = if k > 0 && rest[k - 1] == '\r' {
                    k - 1
                } else {
                    k
                };
                let piece = &rest[0..stop];
                let next = &rest[k + 1..n];
                assert(piece@ =~= strip_cr(rest@.take(k as int)));
                assert(next@ =~= rest@.skip(k as int + 1));
                out.push(piece);
                assert(texts(out@) =~= texts(before).push(piece@));
                assert(texts(before) + (seq![piece@] + lines_seq(next@)) =~= texts(out@)
                    + lines_seq(next@));
                rest = next;
            },
            None => {
                out.push(rest);
                assert(texts(out@) =~= texts(before) + seq![rest@]);
                return out;
            },
        }
    }
    assert(texts(out@) + lines_seq(rest@) =~= texts(out@));
    out
}

/// The position of the first white character at or after `i`.
pub open spec fn white_from(s: Seq<char>, i: int) -> Option<int>
    decreases s.len() - i,
{
    if i < 0 || i >= s.len() {
        None
    } else if is_white(s[i]) {
        Some(i)
    } else {
        white_from(s, i + 1)
    }
}

pub fn find_white(s: &[char]) -> (r: Option<usize>)
    ensures
        match r {
            Some(i) => white_from(s@, 0) == Some(i as int) && i < s@.len(),
            None => white_from(s@, 0) is None,
        },
{
    let mut i: usize = 0;
    while i < s.len()
        invariant
            i <= s@.len(),
            white_from(s@, 0) == white_from(s@, i as int),
        decreases s@.len() - i,
    {
        if white(s[i]) {
            return Some(i);
        }
        i += 1;
    }
    None
}

/// What stands before the first white character, and what stands after it.
pub open spec fn cut_white_seq(s: Seq<char>) -> (Seq<char>, Option<Seq<char>>) {
    match white_from(s, 0) {
        Some(k) => (s.take(k), Some(s.skip(k + 1))),
        None => (s, None),
    }
}

/// `s` cut at its first white character; the second piece is empty when
/// there is none.
pub fn cut_white<'a>(s: &'a [char]) -> (r: (&'a [char], &'a [char]))
    ensures
        r.0@ == cut_white_seq(s@).0,
        r.1@ == (match cut_white_seq(s@).1 {
            Some(t) => t,
            None => Seq::<char>::empty(),
        }),
{
    let n: usize = s.len();
    match find_white(s) {
        Some(k) => {
            let a = &s[0..k];
            let b = &s[k + 1..n];
            assert(a@ =~= s@.take(k as int));
            assert(b@ =~= s@.skip(k as int + 1));
            (a, b)
        },
        None => {
            let b = &s[s.len()..s.len()];
            assert(b@ =~= Seq::<char>::empty());
            (s, b)
        },
    }
}

/// The position of the last white character.
pub open spec fn last_white(s: Seq<char>) -> Option<int>
    decreases s.len(),
{
    if s.len() == 0 {
        None
    } else if is_white(s.last()) {
        Some(s.len() - 1)
    } else {
        last_white(s.drop_last())
    }
}

/// What stands after the last white character, and what stands before it.
pub open spec fn rcut_white_seq(s: Seq<char>) -> (Seq<char>, Option<Seq<char>>) {
    match last_white(s) {
        Some(k) => (s.skip(k + 1), Some(s.take(k))),
        None => (s, None),
    }
}

/// `s` cut at its last white character: what stands after it, and what
/// stands before it (empty when there is none).
pub fn rcut_white<'a>(s: &'a [char]) -> (r: (&'a [char], &'a [char]))
    ensures
        r.0@ == rcut_white_seq(s@).0,
        r.1@ == (match rcut_white_seq(s@).1 {
            Some(t) => t,
            None => Seq::<char>::empty(),
        }),
{
    let mut i: usize = s.len();
    assert(s@.subrange(0, i as int) =~= s@);
    while i > 0
        invariant
            i <= s@.len(),
            last_white(s@) == last_white(s@.subrange(0, i as int)),
        decreases i,
    {
        assert(s@.subrange(0, i as int).drop_last() =~= s@.subrange(0, i as int - 1));
        if white(s[i - 1]) {
            let a = &s[i..s.len()];
            let b = &s[0..i - 1];
            assert(a@ =~= s@.skip(i as int));
            assert(b@ =~= s@.take(i as int - 1));
            return (a, b);
        }
        i -= 1;
    }
    let b = &s[0..0];
    assert(b@ =~= Seq::<char>::empty());
    (s, b)
}

pub proof fn lemma_trim_start_len(s: Seq<char>)
    ensures
        trim_start_seq(s).len() <= s.len(),
        trim_start_seq(s).len() > 0 ==> !is_white(trim_start_seq(s)[0]),
    decreases s.len(),
{
    if s.len() > 0 && is_white(s[0]) {
        lemma_trim_start_len(s.skip(1));
    }
}

/// The words of `s`: its maximal runs of non-white characters.
pub open spec fn words_seq(s: Seq<char>) -> Seq<Seq<char>>
    decreases s.len(),
{
    let t = trim_start_seq(s);
    if t.len() == 0 {
        seq![]
    } else {
        match white_from(t, 0) {
            Some(k) if 0 < k <= t.len() && t.len() <= s.len() => seq![t.take(k)] + words_seq(t.skip(k)),
            _ => seq![t],
        }
    }
}

pub proof fn lemma_white_from(s: Seq<char>, i: int)
    requires
        0 <= i,
    ensures
        white_from(s, i) matches Some(k) ==> i <= k < s.len() && is_white(s[k]) && (forall|j: int|
            i <= j < k ==> !is_white(#[trigger] s[j])),
        white_from(s, i) is None ==> (forall|j: int| i <= j < s.len() ==> !is_white(#[trigger] s[j])),
    decreases s.len() - i,
{
    if i < s.len() && !is_white(s[i]) {
        lemma_white_from(s, i + 1);
    }
}

pub fn words<'a>(s: &'a [char]) -> (r: Vec<&'a [char]>)
    ensures
        texts(r@) == words_seq(s@),
{
    let mut out: Vec<&'a [char]> = Vec::new();
    let mut rest = s;
    assert(texts(out@) + words_seq(rest@) =~= words_seq(s@));
    loop
        invariant
            texts(out@) + words_seq(rest@) == words_seq(s@),
        decreases rest@.len(),
    {
        let ghost before = out@;
        let t = trim_start(rest);
        proof {
            lemma_trim_start_len(rest@);
            lemma_white_from(t@, 0);
        }
        if t.len() == 0 {
            assert(texts(out@) + words_seq(rest@) =~= texts(out@));
            return out;
        }
        match find_white(t) {
            Some(k) => {
                let piece = &t[0..k];
                let next = &t[k..t.len()];
                assert(piece@ =~= t@.take(k as int));
                assert(next@ =~= t@.skip(k as int));
                out.push(piece);
                assert(texts(out@) =~= texts(before).push(piece@));
                assert(texts(before) + (seq![piece@] + words_seq(next@)) =~= texts(out@)
                    + words_seq(next@));
                rest = next;
            },
            None => {
                out.push(t);
                assert(texts(out@) =~= texts(before) + seq![t@]);
                return out;
            },
        }
    }
}

/// `a` followed by `b`.
pub fn cat(a: &str, b: &str) -> (r: String)
    ensures
        r@ == a@ + b@,
{
    let mut r = a.to_owned();
    r.append(b);
    r
}

pub fn cat3(a: &str, b: &str, c: &str) -> (r: String)
    ensures
        r@ == a@ + b@ + c@,
{
    let mut r = cat(a, b);
    r.append(c);
    r
}

pub fn cat5(a: &str, b: &str, c: &str, d: &str, e: &str) -> (r: String)
    ensures
        r@ == a@ + b@ + c@ + d@ + e@,
{
    let mut r = cat3(a, b, c);
    r.append(d);
    r.append(e);
    r
}

/// The character of the decimal digit `d`.
pub open spec fn digit_char(d: int) -> char {
    (48 + d) as char
}

/// `n` in decimal notation.
pub open spec fn decimal(n: nat) -> Seq<char>
    decreases n,
{
    if n < 10 {
        seq![digit_char(n as int)]
    } else {
        decimal(n / 10).push(digit_char((n % 10) as int))
    }
}

proof fn lemma_decimal_digits(n: nat)
    ensures
        decimal(n).len() > 0,
{
}

/// Different numbers are written differently.
pub proof fn lemma_decimal_differs(a: nat, b: nat)
    requires
        a != b,
    ensures
        decimal(a) != decimal(b),
    decreases a,
{
    let s = decimal(a);
    let t = decimal(b);
    if a >= 10 && b >= 10 {
        if a / 10 != b / 10 {
            lemma_decimal_differs(a / 10, b / 10);
            assert(s.drop_last() =~= decimal(a / 10));
            assert(t.drop_last() =~= decimal(b / 10));
        } else {
            assert(s.last() != t.last());
        }
    } else if a >= 10 {
        lemma_decimal_digits(a / 10);
        assert(s.len() > 1);
    } else if b >= 10 {
        lemma_decimal_digits(b / 10);
        assert(t.len() > 1);
    } else {
        assert(s[0] != t[0]);
    }
}

/// `n` in decimal notation.
pub fn decimal_text(n: u128) -> (r: String)
    ensures
        r@ == decimal(n as nat),
    decreases n,
{
    let d: u8 = 48 + (n % 10) as u8;
    if n < 10 {
        let mut r = String::new();
        r.push(d as char);
        assert(r@ =~= decimal(n as nat));
        r
    } else {
        let mut r = decimal_text(n / 10);
        r.push(d as char);
        r
    }
}

/// `n` in decimal notation.
pub fn decimal_string(n: usize) -> (r: String)
    ensures
        r@ == decimal(n as nat),
{
    decimal_text(n as u128)
}

/// The parts in order with `sep` between neighbours.
pub open spec fn join_seq(parts: Seq<Seq<char>>, sep: Seq<char>) -> Seq<char>
    decreases parts.len(),
{
    if parts.len() == 0 {
        seq![]
    } else if parts.len() == 1 {
        parts[0]
    } else {
        join_seq(parts.drop_last(), sep) + sep + parts.last()
    }
}

/// The characters at or below U+001F and from U+007F to U+009F.
pub open spec fn is_control(c: char) -> bool {
    c as u32 <= 0x1f || 0x7f <= c as u32 <= 0x9f
}

pub fn control(c: char) -> (r: bool)
    ensures
        r == is_control(c),
{
    let u: u32 = c as u32;
    u <= 0x1f || (0x7f <= u && u <= 0x9f)
}

/// Whether `s` ends in the character `c`.
pub fn ends_with_char(s: &[char], c: char) -> (r: bool)
    ensures
        r == (s@.len() > 0 && s@.last() == c),
{
    s.len() > 0 && s[s.len() - 1] == c
}

/// Copies of strings.
pub fn copy_strings(v: &Vec<String>) -> (r: Vec<String>)
    ensures
        strings(r@) == strings(v@),
{
    let mut r: Vec<String> = Vec::new();
    let mut i: usize = 0;
    assert(strings(r@) =~= strings(v@).take(0));
    while i < v.len()
        invariant
            i <= v@.len(),
            r@.len() == i,
            strings(r@) == strings(v@).take(i as int),
        decreases v@.len() - i,
    {
        let ghost before = r@;
        r.push(v[i].clone());
        i += 1;
        assert(strings(r@) =~= strings(before).push(v@[i - 1]@));
        assert(strings(r@) =~= strings(v@).take(i as int));
    }
    assert(strings(v@).take(v@.len() as int) =~= strings(v@));
    r
}

/// Whether two lists of strings hold the same texts.
pub fn same_strings(a: &Vec<String>, b: &Vec<String>) -> (r: bool)
    ensures
        r == (strings(a@) == strings(b@)),
{
    assert(strings(a@).len() == a@.len() && strings(b@).len() == b@.len());
    if a.len() != b.len() {
        return false;
    }
    let mut i: usize = 0;
    while i < a.len()
        invariant
            i <= a@.len(),
            a@.len() == b@.len(),
            forall|k: int| 0 <= k < i ==> strings(a@)[k] == #[trigger] strings(b@)[k],
        decreases a@.len() - i,
    {
        assert(strings(a@)[i as int] == a@[i as int]@);
        assert(strings(b@)[i as int] == b@[i as int]@);
        if !str_eq(a[i].as_str(), b[i].as_str()) {
            return false;
        }
        i += 1;
    }
    assert(strings(a@) =~= strings(b@));
    true
}

} // verus!
