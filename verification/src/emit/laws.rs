//! What holds of emitted text.

use crate::emit::label::{
    cleaned, coded, encoded, entity_follows, flat, is_stray, is_word, label_body, piece, slot_body,
    with_breaks, word_len,
};
use crate::emit::{block, blocks, inner, lemma_at_most, lemma_room, roots, strays, value_fits, value_fits_from, Emitted};
use crate::model::Graph;
use crate::peel_laws::{arrangement, lemma_count, partial};
use crate::text::{has_prefix, is_control, trim_seq};
use vstd::prelude::*;

verus! {

/// The length and the meaning of the entity code that `s` starts with.
pub open spec fn code_at(s: Seq<char>) -> Option<(int, char)> {
    if has_prefix(s, "#35;"@) {
        Some((4, '#'))
    } else if has_prefix(s, "#60;"@) {
        Some((4, '<'))
    } else if has_prefix(s, "#quot;"@) {
        Some((6, '"'))
    } else if has_prefix(s, "#124;"@) {
        Some((5, '|'))
    } else {
        None
    }
}

/// `s` with its entity codes read back.
pub open spec fn decoded(s: Seq<char>) -> Seq<char>
    decreases s.len(),
{
    if s.len() == 0 {
        Seq::empty()
    } else {
        match code_at(s) {
            Some((n, c)) => {
                if n <= s.len() {
                    seq![c] + decoded(s.skip(n))
                } else {
                    seq![c]
                }
            },
            None => seq![s[0]] + decoded(s.skip(1)),
        }
    }
}

proof fn lemma_codes()
    ensures
        "#35;"@ == seq!['#', '3', '5', ';'],
        "#60;"@ == seq!['#', '6', '0', ';'],
        "#quot;"@ == seq!['#', 'q', 'u', 'o', 't', ';'],
        "#124;"@ == seq!['#', '1', '2', '4', ';'],
        "#"@ == seq!['#'],
{
    reveal_strlit("#35;");
    reveal_strlit("#60;");
    reveal_strlit("#quot;");
    reveal_strlit("#124;");
    reveal_strlit("#");
    assert("#35;"@ =~= seq!['#', '3', '5', ';']);
    assert("#60;"@ =~= seq!['#', '6', '0', ';']);
    assert("#quot;"@ =~= seq!['#', 'q', 'u', 'o', 't', ';']);
    assert("#124;"@ =~= seq!['#', '1', '2', '4', ';']);
    assert("#"@ =~= seq!['#']);
}

/// A written word character or semicolon stands for itself.
proof fn lemma_plain_start(t: Seq<char>, pipes: bool)
    requires
        coded(t, pipes).len() > 0,
        coded(t, pipes)[0] != '#',
    ensures
        t.len() > 0,
        t[0] == coded(t, pipes)[0],
        coded(t, pipes).skip(1) == coded(t.skip(1), pipes),
{
    lemma_codes();
    let p = piece(t, pipes);
    assert(p[0] == coded(t, pipes)[0]);
    assert(p == seq![t[0]]);
    assert(coded(t, pipes).skip(1) =~= coded(t.skip(1), pipes));
}

/// `w` read off the front of written text reads off the front of the text.
proof fn lemma_word_start(t: Seq<char>, pipes: bool, w: Seq<char>)
    requires
        has_prefix(coded(t, pipes), w),
        forall|i: int| 0 <= i < w.len() ==> #[trigger] w[i] != '#',
    ensures
        has_prefix(t, w),
    decreases w.len(),
{
    if w.len() > 0 {
        let c = coded(t, pipes);
        assert(c.subrange(0, w.len() as int)[0] == w[0]);
        assert(c[0] == w[0]);
        lemma_plain_start(t, pipes);
        let v = w.skip(1);
        assert(c.skip(1).subrange(0, v.len() as int) =~= c.subrange(0, w.len() as int).skip(1));
        assert forall|i: int| 0 <= i < v.len() implies #[trigger] v[i] != '#' by {
            assert(v[i] == w[i + 1]);
        }
        lemma_word_start(t.skip(1), pipes, v);
        assert(t.subrange(0, w.len() as int) =~= w) by {
            let u = t.skip(1).subrange(0, v.len() as int);
            assert forall|i: int| 0 <= i < w.len() implies t[i] == w[i] by {
                if i > 0 {
                    assert(u[i - 1] == v[i - 1]);
                }
            }
        }
    } else {
        assert(t.subrange(0, 0) =~= w);
    }
}

/// Text that starts with a word and a semicolon follows `#` as an entity.
proof fn lemma_entity(t: Seq<char>, w: Seq<char>)
    requires
        has_prefix(t, w),
        w.len() >= 2,
        w.last() == ';',
        forall|i: int| 0 <= i < w.len() - 1 ==> is_word(#[trigger] w[i]),
    ensures
        entity_follows(t),
{
    lemma_word_count(t, w);
    let k = w.len() - 1;
    assert(t.subrange(0, w.len() as int)[k] == w[k]);
}

proof fn lemma_word_count(t: Seq<char>, w: Seq<char>)
    requires
        has_prefix(t, w),
        w.len() >= 1,
        w.last() == ';',
        forall|i: int| 0 <= i < w.len() - 1 ==> is_word(#[trigger] w[i]),
    ensures
        word_len(t) == w.len() - 1,
    decreases w.len(),
{
    assert(t.subrange(0, w.len() as int)[0] == w[0]);
    if w.len() > 1 {
        let v = w.skip(1);
        assert(t.skip(1).subrange(0, v.len() as int) =~= t.subrange(0, w.len() as int).skip(1));
        assert forall|i: int| 0 <= i < v.len() - 1 implies is_word(#[trigger] v[i]) by {
            assert(v[i] == w[i + 1]);
        }
        lemma_word_count(t.skip(1), v);
    }
}

/// Behind a `#` that does not start an entity no code can be read.
proof fn lemma_no_code(t: Seq<char>, pipes: bool)
    requires
        !entity_follows(t),
    ensures
        code_at(seq!['#'] + coded(t, pipes)) is None,
{
    lemma_codes();
    let c = coded(t, pipes);
    let s = seq!['#'] + c;
    assert("#35;"@ =~= seq!['#'] + seq!['3', '5', ';']);
    lemma_no_word(t, pipes, "#35;"@, seq!['3', '5', ';']);
    assert("#60;"@ =~= seq!['#'] + seq!['6', '0', ';']);
    lemma_no_word(t, pipes, "#60;"@, seq!['6', '0', ';']);
    assert("#quot;"@ =~= seq!['#'] + seq!['q', 'u', 'o', 't', ';']);
    lemma_no_word(t, pipes, "#quot;"@, seq!['q', 'u', 'o', 't', ';']);
    assert("#124;"@ =~= seq!['#'] + seq!['1', '2', '4', ';']);
    lemma_no_word(t, pipes, "#124;"@, seq!['1', '2', '4', ';']);
}

proof fn lemma_no_word(t: Seq<char>, pipes: bool, code: Seq<char>, w: Seq<char>)
    requires
        !entity_follows(t),
        code == seq!['#'] + w,
        w.len() >= 2,
        w.last() == ';',
        forall|i: int| 0 <= i < w.len() - 1 ==> is_word(#[trigger] w[i]),
    ensures
        !has_prefix(seq!['#'] + coded(t, pipes), code),
{
    let c = coded(t, pipes);
    let s = seq!['#'] + c;
    if has_prefix(s, code) {
        assert(c.subrange(0, w.len() as int) =~= s.subrange(0, code.len() as int).skip(1));
        assert(code.skip(1) =~= w);
        assert(has_prefix(c, w));
        assert forall|i: int| 0 <= i < w.len() implies #[trigger] w[i] != '#' by {
            if i == w.len() - 1 {
                assert(w[i] == ';');
            }
        }
        lemma_word_start(t, pipes, w);
        lemma_entity(t, w);
    }
}

/// A code in front is read as what it stands for.
proof fn lemma_read_code(code: Seq<char>, rest: Seq<char>, c: char)
    requires
        (code == "#35;"@ && c == '#') || (code == "#60;"@ && c == '<') || (code == "#quot;"@ && c
            == '"') || (code == "#124;"@ && c == '|'),
    ensures
        decoded(code + rest) == seq![c] + decoded(rest),
{
    lemma_codes();
    let s = code + rest;
    assert(s.subrange(0, code.len() as int) =~= code);
    assert(s.skip(code.len() as int) =~= rest);
    assert(s[1] == code[1]);
    assert(has_prefix(s, code));
    if has_prefix(s, "#35;"@) {
        assert(s.subrange(0, 4)[1] == "#35;"@[1]);
    }
    if has_prefix(s, "#60;"@) {
        assert(s.subrange(0, 4)[1] == "#60;"@[1]);
    }
    if has_prefix(s, "#quot;"@) {
        assert(s.subrange(0, 6)[1] == "#quot;"@[1]);
    }
    if has_prefix(s, "#124;"@) {
        assert(s.subrange(0, 5)[1] == "#124;"@[1]);
    }
}

/// A character other than `#` in front is read as itself.
proof fn lemma_read_plain(c: char, rest: Seq<char>)
    requires
        c != '#',
    ensures
        decoded(seq![c] + rest) == seq![c] + decoded(rest),
{
    lemma_codes();
    let s = seq![c] + rest;
    assert(s.skip(1) =~= rest);
    assert(s[0] == c);
    if has_prefix(s, "#35;"@) {
        assert(s.subrange(0, 4)[0] == '#');
    }
    if has_prefix(s, "#60;"@) {
        assert(s.subrange(0, 4)[0] == '#');
    }
    if has_prefix(s, "#quot;"@) {
        assert(s.subrange(0, 6)[0] == '#');
    }
    if has_prefix(s, "#124;"@) {
        assert(s.subrange(0, 5)[0] == '#');
    }
}

proof fn lemma_decoded(t: Seq<char>, pipes: bool)
    ensures
        decoded(coded(t, pipes)) == t,
    decreases t.len(),
{
    lemma_codes();
    if t.len() > 0 {
        let rest = t.skip(1);
        let c = t[0];
        lemma_decoded(rest, pipes);
        if c == '#' && !entity_follows(rest) {
            let s = seq!['#'] + coded(rest, pipes);
            lemma_no_code(rest, pipes);
            assert(s.skip(1) =~= coded(rest, pipes));
            assert(decoded(s) == seq!['#'] + decoded(coded(rest, pipes)));
        } else if c == '#' || c == '<' || c == '"' || (pipes && c == '|') {
            lemma_read_code(piece(t, pipes), coded(rest, pipes), c);
        } else {
            lemma_read_plain(c, coded(rest, pipes));
        }
        assert(seq![c] + rest =~= t);
    } else {
        assert(t =~= Seq::empty());
    }
}

/// A written label reads back as the label, but for its stray control
/// characters: quotes, pipes, angle brackets and anything that looks like an
/// entity survive.
pub proof fn law_label_reads_back(s: Seq<char>, pipes: bool)
    ensures
        decoded(encoded(s, pipes)) == cleaned(s),
{
    lemma_decoded(cleaned(s), pipes);
}

/// A character that a quoted label, written on one line, must not hold.
pub open spec fn breaks_out(c: char, pipes: bool) -> bool {
    c == '"' || c == '<' || (pipes && c == '|') || is_stray(c)
}

proof fn lemma_coded_is_safe(t: Seq<char>, pipes: bool, i: int)
    requires
        forall|j: int| 0 <= j < t.len() ==> !is_stray(#[trigger] t[j]),
        0 <= i < coded(t, pipes).len(),
    ensures
        !breaks_out(coded(t, pipes)[i], pipes),
    decreases t.len(),
{
    lemma_codes();
    let p = piece(t, pipes);
    if i < p.len() {
        assert(coded(t, pipes)[i] == p[i]);
        assert(!is_stray(t[0]));
    } else {
        let rest = t.skip(1);
        assert forall|j: int| 0 <= j < rest.len() implies !is_stray(#[trigger] rest[j]) by {
            assert(rest[j] == t[j + 1]);
        }
        lemma_coded_is_safe(rest, pipes, i - p.len());
    }
}

proof fn lemma_encoded_is_safe(s: Seq<char>, pipes: bool)
    ensures
        forall|i: int|
            0 <= i < encoded(s, pipes).len() ==> !breaks_out(#[trigger] encoded(s, pipes)[i], pipes),
{
    let t = cleaned(s);
    assert forall|j: int| 0 <= j < t.len() implies !is_stray(#[trigger] t[j]) by {
        assert(!is_stray(' '));
        assert(t[j] == ' ' || t[j] == s[j]);
    }
    assert forall|i: int| 0 <= i < encoded(s, pipes).len() implies !breaks_out(
        #[trigger] encoded(s, pipes)[i],
        pipes,
    ) by {
        lemma_coded_is_safe(t, pipes, i);
    }
}

proof fn lemma_breaks_are_safe(s: Seq<char>, i: int)
    requires
        forall|j: int| 0 <= j < s.len() ==> !breaks_out(#[trigger] s[j], false),
        0 <= i < with_breaks(s).len(),
    ensures
        with_breaks(s)[i] != '"',
        with_breaks(s)[i] != '\n',
        !is_stray(with_breaks(s)[i]),
    decreases s.len(),
{
    reveal_strlit("<br/>");
    let head = with_breaks(s.drop_last());
    if i < head.len() {
        let t = s.drop_last();
        assert forall|j: int| 0 <= j < t.len() implies !breaks_out(#[trigger] t[j], false) by {
            assert(t[j] == s[j]);
        }
        lemma_breaks_are_safe(t, i);
    } else {
        assert(!breaks_out(s[s.len() - 1], false));
        assert(with_breaks(s)[i] == (if s.last() == '\n' {
            "<br/>"@
        } else {
            seq![s.last()]
        })[i - head.len()]);
    }
}

/// What stands between the quotes of a node label or of a subgraph title
/// holds no quote, no line break and no stray control character: a label
/// cannot end its own quotes or its line.
pub proof fn law_label_stays_in_its_quotes(label: Seq<char>, i: int)
    requires
        0 <= i < label_body(label).len(),
    ensures
        label_body(label)[i] != '"',
        label_body(label)[i] != '\n',
        !is_stray(label_body(label)[i]),
{
    reveal_strlit("#96;");
    let e = encoded(label, false);
    let b = with_breaks(e);
    lemma_encoded_is_safe(label, false);
    if b.len() > 0 && b[0] == '`' {
        if i >= 4 {
            assert(label_body(label)[i] == b[i - 3]);
            lemma_breaks_are_safe(e, i - 3);
        }
    } else {
        lemma_breaks_are_safe(e, i);
    }
}

/// What stands between the quotes of an edge label holds no quote, no pipe,
/// no angle bracket, no line break and no stray control character.
pub proof fn law_edge_label_stays_in_its_slot(label: Seq<char>, i: int)
    requires
        0 <= i < slot_body(label).len(),
    ensures
        !breaks_out(slot_body(label)[i], true),
        slot_body(label)[i] != '\n',
{
    reveal_strlit("#96;");
    let e = encoded(label, true);
    let b = flat(e);
    lemma_encoded_is_safe(label, true);
    assert(!breaks_out(' ', true));
    if b.len() > 0 && b[0] == '`' {
        if i >= 4 {
            assert(slot_body(label)[i] == b[i - 3]);
            assert(!breaks_out(e[i - 3], true));
        }
    } else {
        assert(!breaks_out(e[i], true));
    }
}

/// A style value that is written holds no control character, so it cannot
/// end its line.
pub proof fn law_style_value_stays_on_its_line(v: Seq<char>, i: int)
    requires
        value_fits(v),
        0 <= i < trim_seq(v).len(),
    ensures
        !is_control(trim_seq(v)[i]),
{
    lemma_value_fits(trim_seq(v), 0, 0, i);
}

proof fn lemma_value_fits(v: Seq<char>, from: int, depth: int, i: int)
    requires
        value_fits_from(v, from, depth),
        0 <= from <= i < v.len(),
    ensures
        !is_control(v[i]),
    decreases i - from,
{
    if from < i {
        if v[from] == '(' {
            lemma_value_fits(v, from + 1, depth + 1, i);
        } else if v[from] == ')' {
            lemma_value_fits(v, from + 1, depth - 1, i);
        } else {
            lemma_value_fits(v, from + 1, depth, i);
        }
    }
}

/// Whether `b` lists what `a` lists and possibly more.
spec fn extends(a: Emitted, b: Emitted, n: int) -> bool {
    &&& partial(b.order, n)
    &&& forall|v: int| #[trigger] a.order.contains(v) ==> b.order.contains(v)
    &&& a.order.len() <= b.order.len()
}

proof fn lemma_block(g: Graph, si: int, pad: Seq<char>, e: Emitted)
    requires
        partial(e.order, g.subgraphs@.len() as int),
    ensures
        extends(e, block(g, si, pad, e), g.subgraphs@.len() as int),
        0 <= si < g.subgraphs@.len() ==> block(g, si, pad, e).order.contains(si),
    decreases g.subgraphs@.len() - e.order.len(), 0int,
{
    let n = g.subgraphs@.len() as int;
    if 0 <= si < n && !e.order.contains(si) {
        lemma_room(e.order, n, si);
        let opened = Emitted {
            order: e.order.push(si),
            text: e.text + crate::emit::opening(g, si, pad),
        };
        assert forall|v: int| #[trigger] e.order.contains(v) implies opened.order.contains(v) by {
            let i = choose|i: int| 0 <= i < e.order.len() && e.order[i] == v;
            assert(opened.order[i] == v);
        }
        assert(opened.order[e.order.len() as int] == si);
        assert(opened.order.contains(si));
        lemma_inner(g, si, pad + "    "@, 0, opened);
    }
}

proof fn lemma_inner(g: Graph, si: int, pad: Seq<char>, c: int, e: Emitted)
    requires
        partial(e.order, g.subgraphs@.len() as int),
        0 <= c,
    ensures
        extends(e, inner(g, si, pad, c, e), g.subgraphs@.len() as int),
    decreases g.subgraphs@.len() - e.order.len(), g.subgraphs@.len() - c + 1,
{
    let n = g.subgraphs@.len() as int;
    lemma_at_most(e.order, n);
    if c < n {
        if crate::emit::nested_in(g, c, si) {
            lemma_block(g, c, pad, e);
            let next = block(g, c, pad, e);
            lemma_at_most(next.order, n);
            lemma_inner(g, si, pad, c + 1, next);
        } else {
            lemma_inner(g, si, pad, c + 1, e);
        }
    }
}

proof fn lemma_roots(g: Graph, k: int, e: Emitted)
    requires
        partial(e.order, g.subgraphs@.len() as int),
    ensures
        extends(e, roots(g, k, e), g.subgraphs@.len() as int),
    decreases k,
{
    if k > 0 {
        lemma_roots(g, k - 1, e);
        lemma_block(g, k - 1, "    "@, roots(g, k - 1, e));
    }
}

proof fn lemma_strays(g: Graph, k: int, e: Emitted)
    requires
        partial(e.order, g.subgraphs@.len() as int),
        0 <= k <= g.subgraphs@.len(),
    ensures
        extends(e, strays(g, k, e), g.subgraphs@.len() as int),
        forall|v: int| 0 <= v < k ==> #[trigger] strays(g, k, e).order.contains(v),
    decreases k,
{
    if k > 0 {
        lemma_strays(g, k - 1, e);
        let before = strays(g, k - 1, e);
        lemma_block(g, k - 1, "    "@, before);
        assert forall|v: int| 0 <= v < k implies #[trigger] strays(g, k, e).order.contains(v) by {
            if v < k - 1 {
                assert(before.order.contains(v));
            }
        }
    }
}

/// Every subgraph is emitted, and none twice, also where the nesting runs in
/// a circle or points at nothing.
pub proof fn law_every_subgraph_is_emitted_once(g: Graph)
    ensures
        arrangement(blocks(g).order, g.subgraphs@.len() as int),
{
    let n = g.subgraphs@.len() as int;
    let none = Emitted { order: Seq::<int>::empty(), text: Seq::<char>::empty() };
    lemma_roots(g, n, none);
    lemma_strays(g, n, roots(g, n, none));
    lemma_count(blocks(g).order, n);
}

} // verus!
