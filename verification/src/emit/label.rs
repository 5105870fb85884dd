//! Labels as mermaid text: what the grammar reserves is written as entity
//! codes, so that a quoted label can hold any text.

use crate::text::{chars_of, control, is_control, string_of, trim, trim_seq};
use vstd::prelude::*;

verus! {

/// A control character that a line of text cannot carry: any but the line
/// break and the tab.
pub open spec fn is_stray(c: char) -> bool {
    is_control(c) && c != '\n' && c != '\t'
}

/// `s` with a space for each stray control character.
pub open spec fn cleaned(s: Seq<char>) -> Seq<char> {
    s.map_values(
        |c: char|
            if is_stray(c) {
                ' '
            } else {
                c
            },
    )
}

/// A letter, digit or underscore of ASCII.
pub open spec fn is_word(c: char) -> bool {
    ('a' <= c && c <= 'z') || ('A' <= c && c <= 'Z') || ('0' <= c && c <= '9') || c == '_'
}

/// How many word characters `s` starts with.
pub open spec fn word_len(s: Seq<char>) -> int
    decreases s.len(),
{
    if s.len() > 0 && is_word(s[0]) {
        1 + word_len(s.skip(1))
    } else {
        0
    }
}

/// Whether `s`, behind a `#`, reads as an entity: a word and a semicolon.
pub open spec fn entity_follows(s: Seq<char>) -> bool {
    let k = word_len(s);
    0 < k < s.len() && s[k] == ';'
}

/// What is written for the first character of `s`; `pipes` tells whether `|`
/// is reserved too.
pub open spec fn piece(s: Seq<char>, pipes: bool) -> Seq<char> {
    if s[0] == '#' {
        if entity_follows(s.skip(1)) {
            "#35;"@
        } else {
            "#"@
        }
    } else if s[0] == '<' {
        "#60;"@
    } else if s[0] == '"' {
        "#quot;"@
    } else if pipes && s[0] == '|' {
        "#124;"@
    } else {
        seq![s[0]]
    }
}

/// `s` with its reserved characters as entity codes.
pub open spec fn coded(s: Seq<char>, pipes: bool) -> Seq<char>
    decreases s.len(),
{
    if s.len() == 0 {
        Seq::empty()
    } else {
        piece(s, pipes) + coded(s.skip(1), pipes)
    }
}

/// A label as it is written: without stray control characters, with entity
/// codes for what is reserved.
pub open spec fn encoded(s: Seq<char>, pipes: bool) -> Seq<char> {
    coded(cleaned(s), pipes)
}

fn word(c: char) -> (r: bool)
    ensures
        r == is_word(c),
{
    ('a' <= c && c <= 'z') || ('A' <= c && c <= 'Z') || ('0' <= c && c <= '9') || c == '_'
}

proof fn lemma_word_len(s: Seq<char>)
    ensures
        0 <= word_len(s) <= s.len(),
    decreases s.len(),
{
    if s.len() > 0 && is_word(s[0]) {
        lemma_word_len(s.skip(1));
    }
}

fn entity_at(s: &[char], from: usize) -> (r: bool)
    requires
        from <= s@.len(),
    ensures
        r == entity_follows(s@.skip(from as int)),
{
    let ghost t = s@.skip(from as int);
    let n: usize = s.len();
    let mut k: usize = from;
    assert(t.skip(0) =~= t);
    while k < n && word(s[k])
        invariant
            n == s@.len(),
            from <= k <= n,
            t == s@.skip(from as int),
            word_len(t) == (k - from) + word_len(t.skip(k - from)),
        decreases n - k,
    {
        assert(t.skip(k - from)[0] == s@[k as int]);
        assert(t.skip(k - from).skip(1) =~= t.skip(k + 1 - from));
        k += 1;
    }
    assert(k < n ==> t.skip(k - from)[0] == s@[k as int]);
    k > from && k < n && s[k] == ';'
}

/// A label without stray control characters.
fn clean(s: &str) -> (r: Vec<char>)
    ensures
        r@ == cleaned(s@),
{
    let chars = chars_of(s);
    let mut r: Vec<char> = Vec::new();
    let mut i: usize = 0;
    while i < chars.len()
        invariant
            i <= chars@.len(),
            chars@ == s@,
            r@ == cleaned(s@).take(i as int),
        decreases chars@.len() - i,
    {
        let c = chars[i];
        if control(c) && c != '\n' && c != '\t' {
            r.push(' ');
        } else {
            r.push(c);
        }
        i += 1;
        assert(r@ =~= cleaned(s@).take(i as int));
    }
    assert(cleaned(s@).take(s@.len() as int) =~= cleaned(s@));
    r
}

/// Escape a label: any `#` that could read as an entity, `<`, `"` and, where
/// `pipes` is set, `|` become entity codes.
pub fn encode(label: &str, pipes: bool) -> (r: String)
    ensures
        r@ == encoded(label@, pipes),
{
    let t = clean(label);
    let s = t.as_slice();
    let n: usize = s.len();
    let mut out = String::new();
    let mut i: usize = 0;
    assert(s@.skip(0) =~= s@);
    assert(out@ + coded(s@, pipes) =~= coded(s@, pipes));
    while i < n
        invariant
            n == s@.len(),
            s@ == cleaned(label@),
            i <= n,
            out@ + coded(s@.skip(i as int), pipes) == encoded(label@, pipes),
        decreases n - i,
    {
        let ghost rest = s@.skip(i as int);
        let ghost before = out@;
        assert(rest.skip(1) =~= s@.skip(i + 1));
        let c = s[i];
        if c == '#' {
            if entity_at(s, i + 1) {
                out.append("#35;");
            } else {
                out.append("#");
            }
        } else if c == '<' {
            out.append("#60;");
        } else if c == '"' {
            out.append("#quot;");
        } else if pipes && c == '|' {
            out.append("#124;");
        } else {
            out.push(c);
            assert(out@ =~= before + seq![c]);
        }
        assert(out@ == before + piece(rest, pipes));
        assert(out@ + coded(s@.skip(i + 1), pipes) =~= before + coded(rest, pipes));
        i += 1;
    }
    assert(out@ + coded(s@.skip(n as int), pipes) =~= out@);
    out
}

/// `s` with a break tag for each line break.
pub open spec fn with_breaks(s: Seq<char>) -> Seq<char>
    decreases s.len(),
{
    if s.len() == 0 {
        Seq::empty()
    } else {
        with_breaks(s.drop_last()) + (if s.last() == '\n' {
            "<br/>"@
        } else {
            seq![s.last()]
        })
    }
}

fn break_lines(s: &str) -> (r: String)
    ensures
        r@ == with_breaks(s@),
{
    let chars = chars_of(s);
    let mut out = String::new();
    let mut i: usize = 0;
    assert(out@ =~= with_breaks(s@.take(0)));
    while i < chars.len()
        invariant
            i <= chars@.len(),
            chars@ == s@,
            out@ == with_breaks(s@.take(i as int)),
        decreases chars@.len() - i,
    {
        let ghost before = out@;
        assert(s@.take(i + 1).drop_last() =~= s@.take(i as int));
        if chars[i] == '\n' {
            out.append("<br/>");
        } else {
            out.push(chars[i]);
            assert(out@ =~= before + seq![s@[i as int]]);
        }
        i += 1;
    }
    assert(s@.take(s@.len() as int) =~= s@);
    out
}

/// `s` on one line: a space for each line break.
pub open spec fn flat(s: Seq<char>) -> Seq<char> {
    s.map_values(
        |c: char|
            if c == '\n' {
                ' '
            } else {
                c
            },
    )
}

pub fn flatten(s: &str) -> (r: String)
    ensures
        r@ == flat(s@),
{
    let chars = chars_of(s);
    let mut out = String::new();
    let mut i: usize = 0;
    while i < chars.len()
        invariant
            i <= chars@.len(),
            chars@ == s@,
            out@ == flat(s@).take(i as int),
        decreases chars@.len() - i,
    {
        if chars[i] == '\n' {
            out.push(' ');
        } else {
            out.push(chars[i]);
        }
        i += 1;
        assert(out@ =~= flat(s@).take(i as int));
    }
    assert(flat(s@).take(s@.len() as int) =~= flat(s@));
    out
}

/// `s` without a backtick in front, which would start a markdown string.
pub open spec fn defused(s: Seq<char>) -> Seq<char> {
    if s.len() > 0 && s[0] == '`' {
        "#96;"@ + s.skip(1)
    } else {
        s
    }
}

fn defuse_md(enc: String) -> (r: String)
    ensures
        r@ == defused(enc@),
{
    let chars = chars_of(enc.as_str());
    if chars.len() > 0 && chars[0] == '`' {
        let n: usize = chars.len();
        let rest = &chars.as_slice()[1..n];
        assert(rest@ =~= enc@.skip(1));
        let mut r = "#96;".to_owned();
        r.append(string_of(rest).as_str());
        r
    } else {
        enc
    }
}

/// Whether `s` is nothing but white space.
pub open spec fn is_blank(s: Seq<char>) -> bool {
    trim_seq(s).len() == 0
}

pub fn blank(s: &str) -> (r: bool)
    ensures
        r == is_blank(s@),
{
    let chars = chars_of(s);
    trim(chars.as_slice()).len() == 0
}

/// What stands between the quotes of a label.
pub open spec fn label_body(label: Seq<char>) -> Seq<char> {
    defused(with_breaks(encoded(label, false)))
}

/// A label between shape delimiters.
pub open spec fn quoted_label(label: Seq<char>) -> Seq<char> {
    if is_blank(label) {
        "\" \""@
    } else {
        "\""@ + label_body(label) + "\""@
    }
}

/// A label as written between shape delimiters, always quoted. An empty
/// label becomes a single space.
pub fn label_text(label: &str) -> (r: String)
    ensures
        r@ == quoted_label(label@),
{
    if blank(label) {
        return "\" \"".to_owned();
    }
    let enc = defuse_md(break_lines(encode(label, false).as_str()));
    let mut r = "\"".to_owned();
    r.append(enc.as_str());
    r.append("\"");
    r
}

/// What stands between the quotes of an edge label.
pub open spec fn slot_body(label: Seq<char>) -> Seq<char> {
    defused(flat(encoded(label, true)))
}

/// An edge label with its pipes; a blank one is left out.
pub open spec fn edge_slot(label: Option<Seq<char>>) -> Seq<char> {
    match label {
        Some(l) => {
            if is_blank(l) {
                Seq::empty()
            } else {
                "|\""@ + slot_body(l) + "\"|"@
            }
        },
        None => Seq::empty(),
    }
}

pub fn edge_label(label: &Option<String>) -> (r: String)
    ensures
        r@ == edge_slot(crate::model::opt_text(*label)),
{
    match label {
        Some(l) => {
            if blank(l.as_str()) {
                let r = String::new();
                assert(r@ =~= Seq::empty());
                r
            } else {
                let body = defuse_md(flatten(encode(l.as_str(), true).as_str()));
                let mut r = "|\"".to_owned();
                r.append(body.as_str());
                r.append("\"|");
                r
            }
        },
        None => {
            let r = String::new();
            assert(r@ =~= Seq::empty());
            r
        },
    }
}

} // verus!
