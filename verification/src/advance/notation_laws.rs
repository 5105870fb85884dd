//! What a further line of the text notation adds to a diagram.

use vstd::prelude::*;

use crate::advance::end_laws::law_ref_reads_back;
use crate::advance::ends::{dotted, end_of, end_ref, end_side, lane_node_ids, reserved_from};
use crate::advance::read_text::{
    cut_edge, declare_edge, diagram_of_notation, edge_target, expand, finish, initial, is_head,
    is_silent, is_styling, run_from, statements_from, step, Failure, FaultView, ReaderView,
    Statement,
};
use crate::advance::text_parts::{bracketed, breaks, cut_class, declared, directive, inline_block, Declared};
use crate::advance::{
    no_edge_style, AdvanceSide, DiagramView, EndView, LaneEdgeView, LaneNodeView,
};
use crate::emit::{delimiters, operator};
use crate::emit::text_laws::{
    encloses, is_caption, is_common, law_delimiters_enclose, law_operators_show_their_kinds, shows,
};
use crate::model::{lemma_name_from, EdgeKind, Shape};
use crate::text::{
    find_seq, first_index, has_prefix, has_suffix, is_white, lemma_find_from, lemma_index_from,
    lines_seq, occurs_at, lemma_white_from, rfind_from, strip_all_prefix, trim_end_seq, trim_seq,
    trim_start_seq, white_from,
};

verus! {

/// Whether a text consists of whole lines.
pub open spec fn whole_lines(s: Seq<char>) -> bool {
    s.len() > 0 ==> s.last() == '\n'
}

/// A line: not empty, and without a line end.
pub open spec fn one_line(t: Seq<char>) -> bool {
    t.len() > 0 && forall|i: int| 0 <= i < t.len() ==> #[trigger] t[i] != '\n'
}

proof fn lemma_one_line(t: Seq<char>)
    requires
        one_line(t),
    ensures
        lines_seq(t) == seq![t],
{
    lemma_index_from(t, '\n', 0);
}

proof fn lemma_lines(s: Seq<char>, t: Seq<char>)
    requires
        whole_lines(s),
        one_line(t),
    ensures
        lines_seq(s + t) == lines_seq(s).push(t),
    decreases s.len(),
{
    let all = s + t;
    if s.len() == 0 {
        assert(all =~= t);
        lemma_one_line(t);
        assert(lines_seq(s) =~= seq![]);
        assert(seq![t] =~= lines_seq(s).push(t));
    } else {
        lemma_index_from(s, '\n', 0);
        lemma_index_from(all, '\n', 0);
        assert(s[s.len() - 1] == '\n');
        assert(all[s.len() - 1] == '\n');
        let k = first_index(s, '\n')->Some_0;
        let j = first_index(all, '\n')->Some_0;
        assert(all[k] == '\n' && all[j] == '\n');
        assert(j == k) by {
            if j < k {
                assert(s[j] == all[j]);
            }
            if k < j {
                assert(all[k] != '\n');
            }
        }
        let rest = s.skip(k + 1);
        assert(all.take(k) =~= s.take(k));
        assert(all.skip(k + 1) =~= rest + t);
        lemma_lines(rest, t);
        let head = seq![crate::text::strip_cr(s.take(k))];
        assert(head + lines_seq(rest).push(t) =~= (head + lines_seq(rest)).push(t));
    }
}

proof fn lemma_statements(l: Seq<Seq<char>>, t: Seq<char>, i: int)
    requires
        0 <= i <= l.len(),
    ensures
        statements_from(l.push(t), i) == statements_from(l, i) + expand(
            l.len() as int,
            trim_seq(t),
        ),
    decreases l.len() - i,
{
    let m = l.push(t);
    if i < l.len() {
        lemma_statements(l, t, i + 1);
        assert(m[i] == l[i]);
        assert(statements_from(m, i) =~= statements_from(l, i) + expand(
            l.len() as int,
            trim_seq(t),
        ));
    } else {
        assert(statements_from(m, i + 1) =~= seq![]);
        assert(statements_from(l, i) =~= seq![]);
        assert(statements_from(m, i) =~= statements_from(l, i) + expand(
            l.len() as int,
            trim_seq(t),
        ));
    }
}

proof fn lemma_run(s: Seq<Statement>, x: Statement, i: int, st: ReaderView)
    requires
        0 <= i <= s.len(),
    ensures
        run_from(s.push(x), i, st) == match run_from(s, i, st) {
            Ok(next) => match step(next, x.0, x.1) {
                Ok(last) => Ok::<ReaderView, Failure>(last),
                Err(f) => Err((x.0, f)),
            },
            Err(e) => Err(e),
        },
    decreases s.len() - i,
{
    let m = s.push(x);
    if i < s.len() {
        assert(m[i] == s[i]);
        if let Ok(next) = step(st, s[i].0, s[i].1) {
            lemma_run(s, x, i + 1, next);
        }
    } else {
        assert(m[i] == x);
        if let Ok(next) = step(st, x.0, x.1) {
            assert(run_from(m, i + 1, next) == Ok::<ReaderView, Failure>(next));
        }
    }
}

/// What a further line does: the state behind the lines before it, and what
/// the line makes of it.
proof fn lemma_further_line(source: Seq<char>, t: Seq<char>, d: DiagramView) -> (st: ReaderView)
    requires
        whole_lines(source),
        one_line(t),
        trim_seq(t) == t,
        inline_block(t) is None,
        diagram_of_notation(source) == Ok::<DiagramView, Seq<char>>(d),
    ensures
        finish(st) == Ok::<DiagramView, Failure>(d),
        st == run_from(statements_from(lines_seq(source), 0), 0, initial())->Ok_0,
        step(st, lines_seq(source).len() as int, t) matches Ok(next) ==> (finish(
            next,
        ) matches Ok(e) ==> diagram_of_notation(source + t) == Ok::<DiagramView, Seq<char>>(e)),
{
    let l = lines_seq(source);
    let s = statements_from(l, 0);
    lemma_lines(source, t);
    lemma_statements(l, t, 0);
    let n = l.len() as int;
    assert(expand(n, t) == seq![(n, t)]);
    assert(s + seq![(n, t)] =~= s.push((n, t)));
    lemma_run(s, (n, t), 0, initial());
    run_from(s, 0, initial())->Ok_0
}

proof fn lemma_trim_nothing(t: Seq<char>)
    requires
        t.len() > 0,
        !is_white(t[0]),
        !is_white(t.last()),
    ensures
        trim_seq(t) == t,
{
}

proof fn lemma_trim_front(t: Seq<char>)
    requires
        t.len() > 0,
        !is_white(t[0]),
        !is_white(t.last()),
    ensures
        trim_seq(seq![' '] + t) == t,
        trim_start_seq(seq![' '] + t) == t,
        trim_seq(t.push(' ')) == t,
{
    reveal_with_fuel(trim_start_seq, 3);
    reveal_with_fuel(trim_end_seq, 3);
    assert(is_white(' '));
    let a = seq![' '] + t;
    assert(a.skip(1) =~= t);
    let b = t.push(' ');
    assert(b[0] == t[0]);
    assert(b.drop_last() =~= t);
    assert(trim_start_seq(b) == b);
}

/// A letter, a digit or an underscore.
pub open spec fn is_letter(c: char) -> bool {
    ('a' <= c && c <= 'z') || ('A' <= c && c <= 'Z') || ('0' <= c && c <= '9') || c == '_'
}

/// A name of letters, digits and underscores.
pub open spec fn is_name(a: Seq<char>) -> bool {
    a.len() > 0 && forall|i: int| 0 <= i < a.len() ==> is_letter(#[trigger] a[i])
}

/// Whether a word starts another kind of statement.
pub open spec fn is_keyword(a: Seq<char>) -> bool {
    ||| has_prefix(a, "swimlane"@)
    ||| a == "title"@
    ||| a == "desc"@
    ||| a == "description"@
    ||| a == "config"@
    ||| a == "classDef"@
    ||| a == "class"@
    ||| a == "style"@
    ||| a == "lane"@
}

/// The edge statement `<a> <operator> <b>`, with a label `|…|` behind the
/// operator where there is one.
pub open spec fn edge_statement(
    a: Seq<char>,
    kind: EdgeKind,
    label: Option<Seq<char>>,
    b: Seq<char>,
) -> Seq<char> {
    a + seq![' '] + operator(kind) + (match label {
        Some(l) => seq!['|'] + l + seq!['|'],
        None => Seq::empty(),
    }) + seq![' '] + b
}

/// Whether edges of a kind have an operator in the notation of swimlanes.
pub open spec fn in_notation(kind: EdgeKind) -> bool {
    kind is Arrow || kind is Dotted || kind is Thick || kind is Open
}

/// A label that is kept as it is: a caption that does not end in a space.
pub open spec fn easy(label: Option<Seq<char>>) -> bool {
    label matches Some(l) ==> is_caption(l) && l.last() != ' '
}

/// What stands around the operator of an edge statement has no part in it.
spec fn beside(c: char) -> bool {
    is_letter(c) || is_common(c) || c == '|'
}

spec fn ahead(label: Option<Seq<char>>, b: Seq<char>) -> Seq<char> {
    (match label {
        Some(l) => seq!['|'] + l + seq!['|'],
        None => Seq::empty(),
    }) + seq![' '] + b
}

proof fn lemma_around(a: Seq<char>, kind: EdgeKind, label: Option<Seq<char>>, b: Seq<char>)
    requires
        is_name(a),
        is_name(b),
        easy(label),
    ensures
        ({
            let t = edge_statement(a, kind, label, b);
            let o = operator(kind);
            let k = a.len() + 1int;
            &&& t == a.push(' ') + o + ahead(label, b)
            &&& t.len() > k + o.len()
            &&& t.subrange(k, (k + o.len()) as int) == o
            &&& t.take(k) == a.push(' ')
            &&& t.skip((k + o.len()) as int) == ahead(label, b)
            &&& forall|i: int|
                0 <= i < t.len() && !(k <= i < k + o.len()) ==> beside(#[trigger] t[i])
            &&& forall|i: int| 0 <= i < o.len() ==> t[k + i] == #[trigger] o[i]
        }),
{
    let t = edge_statement(a, kind, label, b);
    let o = operator(kind);
    let k = a.len() + 1int;
    let r = ahead(label, b);
    let l = a.push(' ');
    assert(t =~= l + o + r);
    assert(t.subrange(k as int, (k + o.len()) as int) =~= o);
    assert(t.take(k as int) =~= l);
    assert(t.skip((k + o.len()) as int) =~= r);
    assert forall|i: int| 0 <= i < r.len() implies beside(#[trigger] r[i]) by {
        match label {
            Some(w) => {
                if 1 <= i < 1 + w.len() {
                    assert(r[i] == w[i - 1]);
                    assert(is_common(w[i - 1]));
                } else if i >= w.len() + 3 {
                    assert(r[i] == b[i - w.len() - 3]);
                    assert(is_letter(b[i - w.len() - 3]));
                }
            },
            None => {
                if i >= 1 {
                    assert(r[i] == b[i - 1]);
                    assert(is_letter(b[i - 1]));
                }
            },
        }
    }
    assert forall|i: int| 0 <= i < t.len() && !(k <= i < k + o.len()) implies beside(
        #[trigger] t[i],
    ) by {
        if i < a.len() {
            assert(t[i] == a[i]);
            assert(is_letter(a[i]));
        } else if i >= k + o.len() {
            assert(t[i] == r[i - k - o.len()]);
            assert(beside(r[i - k - o.len()]));
        }
    }
}

/// Where an operator is looked for in an edge statement.
proof fn lemma_no_operator(t: Seq<char>, o: Seq<char>, k: int, x: Seq<char>)
    requires
        0 <= k,
        k + o.len() <= t.len(),
        forall|i: int| 0 <= i < t.len() && !(k <= i < k + o.len()) ==> beside(#[trigger] t[i]),
        forall|i: int| 0 <= i < o.len() ==> t[k + i] == #[trigger] o[i],
        forall|i: int| 0 <= i < x.len() ==> !beside(#[trigger] x[i]),
        x.len() >= 3,
        o.len() >= 3,
        o.len() <= x.len() || (o.len() == 4 && x.len() == 3 && o.skip(1) != x),
    ensures
        forall|j: int|
            #[trigger] occurs_at(t, x, j) ==> j == k && o.len() >= x.len() && o.take(
                x.len() as int,
            ) == x,
{
    assert forall|j: int| #[trigger] occurs_at(t, x, j) implies j == k && o.len() >= x.len()
        && o.take(x.len() as int) == x by {
        let s = t.subrange(j, j + x.len());
        assert forall|i: int| 0 <= i < x.len() implies t[j + i] == #[trigger] x[i] by {
            assert(s[i] == x[i]);
        }
        assert(!beside(x[0]));
        assert(t[j + 0] == x[0]);
        assert(!beside(x[x.len() - 1]));
        assert(t[j + (x.len() - 1)] == x[x.len() - 1]);
        assert(k <= j && j + x.len() <= k + o.len());
        let h = j - k;
        assert forall|i: int| 0 <= i < x.len() implies o[h + i] == x[i] by {
            assert(t[j + i] == x[i]);
            assert(t[k + (h + i)] == o[h + i]);
        }
        if h != 0 {
            assert(o.skip(1) =~= x) by {
                assert forall|i: int| 0 <= i < 3 implies o.skip(1)[i] == x[i] by {
                    assert(o[h + i] == x[i]);
                }
            }
        }
        assert(o.take(x.len() as int) =~= x);
    }
}

proof fn lemma_found(t: Seq<char>, x: Seq<char>, k: int)
    requires
        occurs_at(t, x, k),
        forall|j: int| #[trigger] occurs_at(t, x, j) ==> j == k,
    ensures
        find_seq(t, x) == Some(k),
{
    lemma_find_from(t, x, 0);
}

proof fn lemma_not_found(t: Seq<char>, x: Seq<char>)
    requires
        forall|j: int| !#[trigger] occurs_at(t, x, j),
    ensures
        find_seq(t, x) is None,
{
    lemma_find_from(t, x, 0);
}

proof fn lemma_cut(a: Seq<char>, kind: EdgeKind, label: Option<Seq<char>>, b: Seq<char>)
    requires
        is_name(a),
        is_name(b),
        easy(label),
        in_notation(kind),
    ensures
        cut_edge(edge_statement(a, kind, label, b)) == Some((a.push(' '), kind, ahead(label, b))),
        inline_block(edge_statement(a, kind, label, b)) is None,
{
    reveal_strlit("-->");
    reveal_strlit("-.->");
    reveal_strlit("==>");
    reveal_strlit("---");
    let t = edge_statement(a, kind, label, b);
    let o = operator(kind);
    let k = a.len() + 1int;
    lemma_around(a, kind, label, b);
    assert(occurs_at(t, o, k));
    let (p, q, r, s) = ("-->"@, "-.->"@, "==>"@, "---"@);
    if o.len() == 4 {
        assert(o.skip(1)[0] == '.');
    }
    assert(o.take(3)[0] == o[0] && o.take(3)[1] == o[1] && o.take(3)[2] == o[2]);
    lemma_no_operator(t, o, k, p);
    lemma_no_operator(t, o, k, q);
    lemma_no_operator(t, o, k, r);
    lemma_no_operator(t, o, k, s);
    match kind {
        EdgeKind::Arrow => {
            lemma_found(t, p, k);
        },
        EdgeKind::Dotted => {
            lemma_not_found(t, p);
            lemma_found(t, q, k);
        },
        EdgeKind::Thick => {
            lemma_not_found(t, p);
            lemma_not_found(t, q);
            lemma_found(t, r, k);
        },
        _ => {
            lemma_not_found(t, p);
            lemma_not_found(t, q);
            lemma_not_found(t, r);
            lemma_found(t, s, k);
        },
    }
}

proof fn lemma_no_breaks(s: Seq<char>)
    requires
        forall|i: int| 0 <= i < s.len() ==> is_common(#[trigger] s[i]),
    ensures
        breaks(s) == s,
    decreases s.len(),
{
    reveal_strlit("<br/>");
    if s.len() > 0 {
        let rest = s.skip(1);
        assert forall|i: int| 0 <= i < rest.len() implies is_common(#[trigger] rest[i]) by {
            assert(is_common(s[i + 1]));
        }
        lemma_no_breaks(rest);
        assert(is_common(s[0]));
        if has_prefix(s, "<br/>"@) {
            assert(s.subrange(0, 5)[0] == '<');
        }
        assert(seq![s[0]] + rest =~= s);
    }
}

proof fn lemma_target(label: Option<Seq<char>>, b: Seq<char>)
    requires
        is_name(b),
        easy(label),
    ensures
        edge_target(ahead(label, b)) == (label, b),
{
    reveal_with_fuel(trim_start_seq, 3);
    assert(is_letter(b[0]) && is_letter(b[b.len() - 1]));
    lemma_trim_front(b);
    let rest = ahead(label, b);
    match label {
        None => {
            assert(rest =~= seq![' '] + b);
        },
        Some(l) => {
            assert(is_common(l[0]) && is_common(l[l.len() - 1]));
            let u = l + seq!['|'] + (seq![' '] + b);
            assert(rest[0] == '|');
            assert(rest.skip(1) =~= u);
            assert(u[0] == l[0]);
            assert(trim_start_seq(u) == u);
            lemma_index_from(u, '|', 0);
            assert(u[l.len() as int] == '|');
            let j = first_index(u, '|')->Some_0;
            if j < l.len() {
                assert(u[j] == l[j]);
                assert(is_common(l[j]));
            }
            assert(j == l.len());
            assert(u.take(j) =~= l);
            assert(u.skip(j + 1) =~= seq![' '] + b);
            lemma_trim_nothing(l);
            lemma_no_breaks(l);
        },
    }
}

/// The end that a name alone stands for.
pub open spec fn plain_end(a: Seq<char>) -> EndView {
    EndView { node: a, path: Seq::empty(), at: None }
}

proof fn lemma_end(a: Seq<char>)
    requires
        is_name(a),
    ensures
        end_of(a) == Ok::<EndView, Seq<char>>(plain_end(a)),
        end_of(a.push(' ')) == Ok::<EndView, Seq<char>>(plain_end(a)),
{
    let e = plain_end(a);
    assert(is_letter(a[0]) && is_letter(a[a.len() - 1]));
    assert forall|i: int| 0 <= i < a.len() implies a[i] != '.' && a[i] != '@' && a[i] != ':' by {
        assert(is_letter(a[i]));
    }
    assert(dotted(e.node, e.path) == a);
    assert(!crate::advance::end_laws::ends_in_side(a));
    law_ref_reads_back(e);
    assert(end_ref(e) == a);
    lemma_trim_nothing(a);
    lemma_trim_front(a);
}

proof fn lemma_first_word(a: Seq<char>, rest: Seq<char>, w: Seq<char>)
    requires
        is_name(a),
        forall|i: int| 0 <= i < w.len() ==> #[trigger] w[i] != ' ',
        has_prefix(a.push(' ') + rest, w.push(' ')),
    ensures
        a == w,
{
    let t = a.push(' ') + rest;
    let v = w.push(' ');
    let p = t.subrange(0, v.len() as int);
    let n = a.len() as int;
    let m = w.len() as int;
    assert(p == v);
    assert(p[m] == v[m]);
    assert(t[m] == ' ');
    if m < n {
        assert(t[m] == a[m]);
        assert(is_letter(a[m]));
    }
    if n < m {
        assert(p[n] == v[n]);
        assert(t[n] == ' ');
        assert(w[n] != ' ');
    }
    assert forall|i: int| 0 <= i < n implies a[i] == w[i] by {
        assert(p[i] == v[i]);
        assert(t[i] == a[i]);
    }
    assert(a =~= w);
}

proof fn lemma_is_edge(a: Seq<char>, rest: Seq<char>)
    requires
        is_name(a),
        !is_keyword(a),
    ensures
        ({
            let t = a.push(' ') + rest;
            &&& !is_silent(t)
            &&& t != "}"@
            &&& !is_head(t)
            &&& !is_styling(t)
            &&& !has_prefix(t, "lane "@)
        }),
{
    let t = a.push(' ') + rest;
    assert(is_letter(a[0]));
    assert(t[0] == a[0]);
    reveal_strlit("}");
    reveal_strlit("%%");
    reveal_strlit("//");
    reveal_strlit("#");
    assert(t.len() > 1);
    if has_prefix(t, "%%"@) {
        assert(t.subrange(0, 2)[0] == '%');
    }
    if has_prefix(t, "//"@) {
        assert(t.subrange(0, 2)[0] == '/');
    }
    if has_prefix(t, "#"@) {
        assert(t.subrange(0, 1)[0] == '#');
    }
    reveal_strlit("swimlane");
    if has_prefix(t, "swimlane"@) {
        let p = t.subrange(0, 8);
        if a.len() < 8 {
            assert(t[a.len() as int] == ' ');
            assert(p[a.len() as int] == "swimlane"@[a.len() as int]);
        } else {
            assert(a.subrange(0, 8) =~= p);
        }
    }
    lemma_words(a, rest);
}

proof fn lemma_words(a: Seq<char>, rest: Seq<char>)
    requires
        is_name(a),
        !is_keyword(a),
    ensures
        ({
            let t = a.push(' ') + rest;
            &&& !has_prefix(t, "title "@)
            &&& !has_prefix(t, "desc "@)
            &&& !has_prefix(t, "description "@)
            &&& !has_prefix(t, "config "@)
            &&& !has_prefix(t, "classDef "@)
            &&& !has_prefix(t, "class "@)
            &&& !has_prefix(t, "style "@)
            &&& !has_prefix(t, "lane "@)
        }),
{
    let t = a.push(' ') + rest;
    reveal_strlit("title");
    reveal_strlit("title ");
    reveal_strlit("desc");
    reveal_strlit("desc ");
    reveal_strlit("description");
    reveal_strlit("description ");
    reveal_strlit("config");
    reveal_strlit("config ");
    reveal_strlit("classDef");
    reveal_strlit("classDef ");
    reveal_strlit("class");
    reveal_strlit("class ");
    reveal_strlit("style");
    reveal_strlit("style ");
    reveal_strlit("lane");
    reveal_strlit("lane ");
    assert("title "@ =~= "title"@.push(' '));
    assert("desc "@ =~= "desc"@.push(' '));
    assert("description "@ =~= "description"@.push(' '));
    assert("config "@ =~= "config"@.push(' '));
    assert("classDef "@ =~= "classDef"@.push(' '));
    assert("class "@ =~= "class"@.push(' '));
    assert("style "@ =~= "style"@.push(' '));
    assert("lane "@ =~= "lane"@.push(' '));
    if has_prefix(t, "title "@) {
        lemma_first_word(a, rest, "title"@);
    }
    if has_prefix(t, "desc "@) {
        lemma_first_word(a, rest, "desc"@);
    }
    if has_prefix(t, "description "@) {
        lemma_first_word(a, rest, "description"@);
    }
    if has_prefix(t, "config "@) {
        lemma_first_word(a, rest, "config"@);
    }
    if has_prefix(t, "classDef "@) {
        lemma_first_word(a, rest, "classDef"@);
    }
    if has_prefix(t, "class "@) {
        lemma_first_word(a, rest, "class"@);
    }
    if has_prefix(t, "style "@) {
        lemma_first_word(a, rest, "style"@);
    }
    if has_prefix(t, "lane "@) {
        lemma_first_word(a, rest, "lane"@);
    }
}

/// Whether a diagram is another with one edge more, its last.
pub open spec fn has_one_more_edge(r: DiagramView, d: DiagramView) -> bool {
    &&& r.edges.len() == d.edges.len() + 1
    &&& r.edges.drop_last() == d.edges
    &&& r.nodes == d.nodes && r.lanes == d.lanes
    &&& r.title == d.title && r.description == d.description
    &&& r.direction == d.direction && r.config == d.config && r.style == d.style
}

/// The edge that a statement adds.
spec fn new_edge(
    a: Seq<char>,
    kind: EdgeKind,
    label: Option<Seq<char>>,
    b: Seq<char>,
) -> LaneEdgeView {
    LaneEdgeView {
        from: a,
        to: b,
        label,
        kind,
        style: no_edge_style(),
        from_side: None,
        to_side: None,
        from_end: plain_end(a),
        to_end: plain_end(b),
    }
}

#[verifier::spinoff_prover]
#[verifier::rlimit(60)]
proof fn lemma_declared_edge(
    nodes: Seq<LaneNodeView>,
    a: Seq<char>,
    kind: EdgeKind,
    label: Option<Seq<char>>,
    b: Seq<char>,
)
    requires
        is_name(a),
        is_name(b),
        lane_node_ids(nodes).contains(a),
        lane_node_ids(nodes).contains(b),
        in_notation(kind),
        easy(label),
    ensures
        declare_edge(nodes, edge_statement(a, kind, label, b)) == Ok::<LaneEdgeView, FaultView>(
            new_edge(a, kind, label, b),
        ),
{
    lemma_cut(a, kind, label, b);
    lemma_target(label, b);
    lemma_end(a);
    lemma_end(b);
    lemma_name_from(lane_node_ids(nodes), a, 0);
    lemma_name_from(lane_node_ids(nodes), b, 0);
    assert(end_side(nodes, plain_end(a)) == Ok::<Option<AdvanceSide>, Seq<char>>(None));
    assert(end_side(nodes, plain_end(b)) == Ok::<Option<AdvanceSide>, Seq<char>>(None));
}

proof fn lemma_edge_step(st: ReaderView, n: int, t: Seq<char>, e: LaneEdgeView)
    requires
        st.blocks.node is None,
        !is_silent(t),
        t != "}"@,
        !is_head(t),
        !is_styling(t),
        !has_prefix(t, "lane "@),
        cut_edge(t) is Some,
        declare_edge(st.nodes, t) == Ok::<LaneEdgeView, FaultView>(e),
    ensures
        step(st, n, t) == Ok::<ReaderView, FaultView>(
            ReaderView { edges: st.edges.push(e), ..st },
        ),
{
}

proof fn lemma_edge_finish(st: ReaderView, d: DiagramView, e: LaneEdgeView)
    requires
        finish(st) == Ok::<DiagramView, Failure>(d),
    ensures
        ({
            let r = finish((ReaderView { edges: st.edges.push(e), ..st }));
            &&& r is Ok
            &&& has_one_more_edge(r->Ok_0, d)
            &&& r->Ok_0.edges.last().from == e.from
            &&& r->Ok_0.edges.last().to == e.to
            &&& r->Ok_0.edges.last().kind == e.kind
            &&& r->Ok_0.edges.last().label == e.label
            &&& r->Ok_0.edges.last().from_side == e.from_side
            &&& r->Ok_0.edges.last().to_side == e.to_side
        }),
{
    let next = ReaderView { edges: st.edges.push(e), ..st };
    let after = finish(next)->Ok_0;
    assert(after.edges.drop_last() =~= d.edges);
}

#[verifier::spinoff_prover]
#[verifier::rlimit(80)]
proof fn lemma_edge_added(
    st: ReaderView,
    n: int,
    d: DiagramView,
    a: Seq<char>,
    kind: EdgeKind,
    label: Option<Seq<char>>,
    b: Seq<char>,
)
    requires
        finish(st) == Ok::<DiagramView, Failure>(d),
        is_name(a),
        is_name(b),
        !is_keyword(a),
        lane_node_ids(d.nodes).contains(a),
        lane_node_ids(d.nodes).contains(b),
        in_notation(kind),
        easy(label),
    ensures
        ({
            let next = step(st, n, edge_statement(a, kind, label, b));
            let r = finish(next->Ok_0);
            &&& next is Ok
            &&& r is Ok
            &&& has_one_more_edge(r->Ok_0, d)
            &&& r->Ok_0.edges.last().from == a
            &&& r->Ok_0.edges.last().to == b
            &&& r->Ok_0.edges.last().kind == kind
            &&& r->Ok_0.edges.last().label == label
            &&& r->Ok_0.edges.last().from_side is None
            &&& r->Ok_0.edges.last().to_side is None
        }),
{
    let t = edge_statement(a, kind, label, b);
    assert(lane_node_ids(st.nodes) =~= lane_node_ids(d.nodes));
    lemma_declared_edge(st.nodes, a, kind, label, b);
    lemma_cut(a, kind, label, b);
    assert(t =~= a.push(' ') + (operator(kind) + ahead(label, b)));
    lemma_is_edge(a, operator(kind) + ahead(label, b));
    let e = new_edge(a, kind, label, b);
    lemma_edge_step(st, n, t, e);
    lemma_edge_finish(st, d, e);
}

/// The statement `<a> <operator> <b>` between nodes that were declared adds
/// one edge: from `a` to `b`, of the kind whose operator stands between
/// them, and with the label behind it. The operators are those of
/// flowcharts, which show how edges of their kind look.
#[verifier::spinoff_prover]
#[verifier::rlimit(80)]
pub proof fn law_edge_statements_add_edges(
    source: Seq<char>,
    d: DiagramView,
    a: Seq<char>,
    kind: EdgeKind,
    label: Option<Seq<char>>,
    b: Seq<char>,
)
    requires
        whole_lines(source),
        diagram_of_notation(source) == Ok::<DiagramView, Seq<char>>(d),
        is_name(a),
        is_name(b),
        !is_keyword(a),
        lane_node_ids(d.nodes).contains(a),
        lane_node_ids(d.nodes).contains(b),
        in_notation(kind),
        easy(label),
    ensures
        shows(operator(kind), kind),
        ({
            let r = diagram_of_notation(source + edge_statement(a, kind, label, b));
            &&& r is Ok
            &&& has_one_more_edge(r->Ok_0, d)
            &&& r->Ok_0.edges.last().from == a
            &&& r->Ok_0.edges.last().to == b
            &&& r->Ok_0.edges.last().kind == kind
            &&& r->Ok_0.edges.last().label == label
            &&& r->Ok_0.edges.last().from_side is None
            &&& r->Ok_0.edges.last().to_side is None
        }),
{
    law_operators_show_their_kinds(kind);
    let t = edge_statement(a, kind, label, b);
    lemma_around(a, kind, label, b);
    lemma_cut(a, kind, label, b);
    reveal_strlit("-->");
    reveal_strlit("-.->");
    reveal_strlit("==>");
    reveal_strlit("---");
    assert(one_line(t)) by {
        let k = a.len() + 1int;
        assert forall|i: int| 0 <= i < t.len() implies #[trigger] t[i] != '\n' by {
            if k <= i < k + operator(kind).len() {
                assert(t[k + (i - k)] == operator(kind)[i - k]);
            } else {
                assert(beside(t[i]));
            }
        }
    }
    assert(is_letter(a[0]) && is_letter(b[b.len() - 1]));
    assert(t[0] == a[0] && t.last() == b.last());
    lemma_trim_nothing(t);
    let st = lemma_further_line(source, t, d);
    lemma_edge_added(st, lines_seq(source).len() as int, d, a, kind, label, b);
}

/// The node declaration `<id><open><label><close>`.
pub open spec fn node_statement(a: Seq<char>, shape: Shape, label: Seq<char>) -> Seq<char> {
    a + delimiters(shape).0 + label + delimiters(shape).1
}

/// Whether a shape has delimiters of its own.
pub open spec fn has_delimiters(shape: Shape) -> bool {
    !(shape is StateStart) && !(shape is StateEnd) && !(shape is ForkBar)
}

spec fn is_bracket(c: char) -> bool {
    c == '(' || c == '[' || c == '{' || c == '/' || c == '\\' || c == ')' || c == ']' || c == '}'
}

/// Whether `x` stands somewhere in `o`.
spec fn within(o: Seq<char>, x: Seq<char>) -> bool {
    exists|h: int| #[trigger] occurs_at(o, x, h)
}

/// Where an opening bracket is found in a declaration.
proof fn lemma_open(t: Seq<char>, o: Seq<char>, c: Seq<char>, k: int, x: Seq<char>)
    requires
        0 < k,
        o.len() == c.len(),
        0 < o.len(),
        k + o.len() < t.len() - c.len(),
        forall|i: int| 0 <= i < o.len() ==> t[k + i] == #[trigger] o[i],
        forall|i: int| 0 <= i < c.len() ==> t[t.len() - c.len() + i] == #[trigger] c[i],
        forall|i: int| 0 <= i < c.len() ==> !(#[trigger] c[i] == '(' || c[i] == '[' || c[i] == '{'),
        forall|i: int|
            0 <= i < k || k + o.len() <= i < t.len() - c.len() ==> !is_bracket(#[trigger] t[i]),
        forall|i: int| 0 <= i < x.len() ==> is_bracket(#[trigger] x[i]),
        x.len() > 0,
        x[0] == '(' || x[0] == '[' || x[0] == '{',
    ensures
        !within(o, x) ==> find_seq(t, x) is None,
        occurs_at(o, x, 0) ==> find_seq(t, x) == Some(k),
{
    lemma_find_from(t, x, 0);
    assert forall|j: int| #[trigger] occurs_at(t, x, j) implies j >= k && occurs_at(o, x, j - k) by {
        let s = t.subrange(j, j + x.len());
        assert forall|i: int| 0 <= i < x.len() implies t[j + i] == #[trigger] x[i] by {
            assert(s[i] == x[i]);
        }
        assert(t[j + 0] == x[0]);
        assert(is_bracket(x[0]));
        assert(j >= k);
        if j >= t.len() - c.len() {
            let i = j - (t.len() - c.len());
            assert(t[t.len() - c.len() + i] == c[i]);
        }
        assert(j < k + o.len());
        if j + x.len() > k + o.len() {
            let i = k + o.len() - j;
            assert(t[j + i] == x[i]);
            assert(is_bracket(x[i]));
        }
        let u = o.subrange(j - k, j - k + x.len());
        assert forall|i: int| 0 <= i < x.len() implies u[i] == x[i] by {
            assert(t[k + (j - k + i)] == o[j - k + i]);
            assert(t[j + i] == x[i]);
        }
        assert(u =~= x);
    }
    if occurs_at(o, x, 0) {
        let u = o.subrange(0, x.len() as int);
        assert forall|i: int| 0 <= i < x.len() implies t[k + i] == x[i] by {
            assert(u[i] == x[i]);
            assert(t[k + i] == o[i]);
        }
        assert(t.subrange(k, k + x.len()) =~= x);
        assert(occurs_at(t, x, k));
    }
}

proof fn lemma_absent(o: Seq<char>, x: Seq<char>)
    requires
        x.len() == 1 ==> forall|i: int| 0 <= i < o.len() ==> #[trigger] o[i] != x[0],
        x.len() == 2 ==> (o.len() >= 2 ==> o[0] != x[0] || o[1] != x[1]) && (o.len() >= 3 ==> o[1]
            != x[0] || o[2] != x[1]),
        x.len() == 3 ==> o.len() < 3 || o[0] != x[0] || o[1] != x[1] || o[2] != x[2],
        1 <= x.len() <= 3,
        o.len() <= 3,
    ensures
        !within(o, x),
{
    assert forall|h: int| #[trigger] occurs_at(o, x, h) implies false by {
        let u = o.subrange(h, h + x.len());
        assert(u[0] == x[0]);
        if x.len() >= 2 {
            assert(u[1] == x[1]);
        }
        if x.len() >= 3 {
            assert(u[2] == x[2]);
        }
    }
}

proof fn lemma_present(o: Seq<char>)
    ensures
        occurs_at(o, o, 0),
{
    assert(o.subrange(0, o.len() as int) =~= o);
}

proof fn lemma_statement_parts(a: Seq<char>, shape: Shape, label: Seq<char>)
    requires
        is_name(a),
        is_caption(label),
    ensures
        ({
            let t = node_statement(a, shape, label);
            let (o, c) = delimiters(shape);
            let k = a.len() as int;
            &&& t.len() == a.len() + o.len() + label.len() + c.len()
            &&& t.take(k) == a
            &&& t.subrange(k + o.len(), t.len() - c.len()) == label
            &&& has_suffix(t, c)
            &&& forall|i: int| 0 <= i < o.len() ==> t[k + i] == #[trigger] o[i]
            &&& forall|i: int| 0 <= i < c.len() ==> t[t.len() - c.len() + i] == #[trigger] c[i]
            &&& forall|i: int|
                0 <= i < k || k + o.len() <= i < t.len() - c.len() ==> beside(#[trigger] t[i])
        }),
{
    let t = node_statement(a, shape, label);
    let (o, c) = delimiters(shape);
    let k = a.len() as int;
    assert(t.take(k) =~= a);
    assert(t.subrange(k + o.len(), t.len() - c.len()) =~= label);
    assert(t.subrange(t.len() - c.len(), t.len() as int) =~= c);
    assert forall|i: int| 0 <= i < k || k + o.len() <= i < t.len() - c.len() implies beside(
        #[trigger] t[i],
    ) by {
        if i < k {
            assert(t[i] == a[i]);
            assert(is_letter(a[i]));
        } else {
            assert(t[i] == label[i - k - o.len()]);
            assert(is_common(label[i - k - o.len()]));
        }
    }
}

proof fn lemma_not_bracketed(
    a: Seq<char>,
    shape: Shape,
    label: Seq<char>,
    x: Seq<char>,
    y: Seq<char>,
)
    requires
        is_name(a),
        is_caption(label),
        paired(delimiters(shape).0, delimiters(shape).1),
        opens(x),
        !within(delimiters(shape).0, x),
    ensures
        bracketed(node_statement(a, shape, label), x, y) is None,
{
    let t = node_statement(a, shape, label);
    let (o, c) = delimiters(shape);
    lemma_statement_parts(a, shape, label);
    assert forall|i: int|
        0 <= i < a.len() || a.len() + o.len() <= i < t.len() - c.len() implies !is_bracket(
        #[trigger] t[i],
    ) by {
        assert(beside(t[i]));
    }
    lemma_open(t, o, c, a.len() as int, x);
}

proof fn lemma_bracketed(a: Seq<char>, shape: Shape, label: Seq<char>)
    requires
        is_name(a),
        is_caption(label),
        label.last() != ' ',
        paired(delimiters(shape).0, delimiters(shape).1),
        opens(delimiters(shape).0),
    ensures
        bracketed(node_statement(a, shape, label), delimiters(shape).0, delimiters(shape).1)
            == Some((a, label)),
        trim_seq(node_statement(a, shape, label)) == node_statement(a, shape, label),
        node_statement(a, shape, label).len() > 0,
{
    let t = node_statement(a, shape, label);
    let (o, c) = delimiters(shape);
    lemma_statement_parts(a, shape, label);
    assert(is_letter(a[0]) && is_letter(a[a.len() - 1]));
    assert(is_common(label[0]) && is_common(label[label.len() - 1]));
    assert(t[0] == a[0]);
    assert(t[t.len() - c.len() + (c.len() - 1)] == c[c.len() - 1]);
    lemma_trim_nothing(t);
    lemma_trim_nothing(a);
    lemma_trim_nothing(label);
    assert forall|i: int|
        0 <= i < a.len() || a.len() + o.len() <= i < t.len() - c.len() implies !is_bracket(
        #[trigger] t[i],
    ) by {
        assert(beside(t[i]));
    }
    lemma_present(o);
    lemma_open(t, o, c, a.len() as int, o);
}

/// Whether `x` opens something.
spec fn opens(x: Seq<char>) -> bool {
    &&& 1 <= x.len() <= 3
    &&& x[0] == '(' || x[0] == '[' || x[0] == '{'
    &&& forall|i: int| 0 <= i < x.len() ==> is_bracket(#[trigger] x[i])
}

/// Whether `c` closes what `o` opens.
spec fn paired(o: Seq<char>, c: Seq<char>) -> bool {
    &&& o.len() == c.len()
    &&& opens(o)
    &&& forall|i: int| 0 <= i < c.len() ==> !(#[trigger] c[i] == '(' || c[i] == '[' || c[i] == '{')
    &&& !is_white(c.last())
}

#[verifier::spinoff_prover]
#[verifier::rlimit(60)]
proof fn lemma_declared_stadium(a: Seq<char>, label: Seq<char>)
    requires
        is_name(a),
        is_caption(label),
        label.last() != ' ',
    ensures
        declared(node_statement(a, Shape::Stadium, label)) == Some(
            (Declared { id: a, label, shape: Shape::Stadium }),
        ),
{
    reveal_strlit("([");
    reveal_strlit("])");
    let o = "(["@;
    lemma_bracketed(a, Shape::Stadium, label);
}

#[verifier::spinoff_prover]
#[verifier::rlimit(60)]
proof fn lemma_declared_double_circle(a: Seq<char>, label: Seq<char>)
    requires
        is_name(a),
        is_caption(label),
        label.last() != ' ',
    ensures
        declared(node_statement(a, Shape::DoubleCircle, label)) == Some(
            (Declared { id: a, label, shape: Shape::DoubleCircle }),
        ),
{
    reveal_strlit("(((");
    reveal_strlit(")))");
    let o = "((("@;
    assert(bracketed(node_statement(a, Shape::DoubleCircle, label), "(["@, "])"@) is None) by {
        reveal_strlit("([");
        lemma_absent(o, "(["@);
        lemma_not_bracketed(a, Shape::DoubleCircle, label, "(["@, "])"@);
    }
    lemma_bracketed(a, Shape::DoubleCircle, label);
}

#[verifier::spinoff_prover]
#[verifier::rlimit(60)]
proof fn lemma_declared_circle(a: Seq<char>, label: Seq<char>)
    requires
        is_name(a),
        is_caption(label),
        label.last() != ' ',
    ensures
        declared(node_statement(a, Shape::Circle, label)) == Some(
            (Declared { id: a, label, shape: Shape::Circle }),
        ),
{
    reveal_strlit("((");
    reveal_strlit("))");
    let o = "(("@;
    assert(bracketed(node_statement(a, Shape::Circle, label), "(["@, "])"@) is None) by {
        reveal_strlit("([");
        lemma_absent(o, "(["@);
        lemma_not_bracketed(a, Shape::Circle, label, "(["@, "])"@);
    }
    assert(bracketed(node_statement(a, Shape::Circle, label), "((("@, ")))"@) is None) by {
        reveal_strlit("(((");
        lemma_absent(o, "((("@);
        lemma_not_bracketed(a, Shape::Circle, label, "((("@, ")))"@);
    }
    lemma_bracketed(a, Shape::Circle, label);
}

#[verifier::spinoff_prover]
#[verifier::rlimit(60)]
proof fn lemma_declared_hexagon(a: Seq<char>, label: Seq<char>)
    requires
        is_name(a),
        is_caption(label),
        label.last() != ' ',
    ensures
        declared(node_statement(a, Shape::Hexagon, label)) == Some(
            (Declared { id: a, label, shape: Shape::Hexagon }),
        ),
{
    reveal_strlit("{{");
    reveal_strlit("}}");
    let o = "{{"@;
    assert(bracketed(node_statement(a, Shape::Hexagon, label), "(["@, "])"@) is None) by {
        reveal_strlit("([");
        lemma_absent(o, "(["@);
        lemma_not_bracketed(a, Shape::Hexagon, label, "(["@, "])"@);
    }
    assert(bracketed(node_statement(a, Shape::Hexagon, label), "((("@, ")))"@) is None) by {
        reveal_strlit("(((");
        lemma_absent(o, "((("@);
        lemma_not_bracketed(a, Shape::Hexagon, label, "((("@, ")))"@);
    }
    assert(bracketed(node_statement(a, Shape::Hexagon, label), "(("@, "))"@) is None) by {
        reveal_strlit("((");
        lemma_absent(o, "(("@);
        lemma_not_bracketed(a, Shape::Hexagon, label, "(("@, "))"@);
    }
    lemma_bracketed(a, Shape::Hexagon, label);
}

#[verifier::spinoff_prover]
#[verifier::rlimit(60)]
proof fn lemma_declared_diamond(a: Seq<char>, label: Seq<char>)
    requires
        is_name(a),
        is_caption(label),
        label.last() != ' ',
    ensures
        declared(node_statement(a, Shape::Diamond, label)) == Some(
            (Declared { id: a, label, shape: Shape::Diamond }),
        ),
{
    reveal_strlit("{");
    reveal_strlit("}");
    let o = "{"@;
    assert(bracketed(node_statement(a, Shape::Diamond, label), "(["@, "])"@) is None) by {
        reveal_strlit("([");
        lemma_absent(o, "(["@);
        lemma_not_bracketed(a, Shape::Diamond, label, "(["@, "])"@);
    }
    assert(bracketed(node_statement(a, Shape::Diamond, label), "((("@, ")))"@) is None) by {
        reveal_strlit("(((");
        lemma_absent(o, "((("@);
        lemma_not_bracketed(a, Shape::Diamond, label, "((("@, ")))"@);
    }
    assert(bracketed(node_statement(a, Shape::Diamond, label), "(("@, "))"@) is None) by {
        reveal_strlit("((");
        lemma_absent(o, "(("@);
        lemma_not_bracketed(a, Shape::Diamond, label, "(("@, "))"@);
    }
    assert(bracketed(node_statement(a, Shape::Diamond, label), "{{"@, "}}"@) is None) by {
        reveal_strlit("{{");
        lemma_absent(o, "{{"@);
        lemma_not_bracketed(a, Shape::Diamond, label, "{{"@, "}}"@);
    }
    lemma_bracketed(a, Shape::Diamond, label);
}

#[verifier::spinoff_prover]
#[verifier::rlimit(60)]
proof fn lemma_declared_cylinder(a: Seq<char>, label: Seq<char>)
    requires
        is_name(a),
        is_caption(label),
        label.last() != ' ',
    ensures
        declared(node_statement(a, Shape::Cylinder, label)) == Some(
            (Declared { id: a, label, shape: Shape::Cylinder }),
        ),
{
    reveal_strlit("[(");
    reveal_strlit(")]");
    let o = "[("@;
    assert(bracketed(node_statement(a, Shape::Cylinder, label), "(["@, "])"@) is None) by {
        reveal_strlit("([");
        lemma_absent(o, "(["@);
        lemma_not_bracketed(a, Shape::Cylinder, label, "(["@, "])"@);
    }
    assert(bracketed(node_statement(a, Shape::Cylinder, label), "((("@, ")))"@) is None) by {
        reveal_strlit("(((");
        lemma_absent(o, "((("@);
        lemma_not_bracketed(a, Shape::Cylinder, label, "((("@, ")))"@);
    }
    assert(bracketed(node_statement(a, Shape::Cylinder, label), "(("@, "))"@) is None) by {
        reveal_strlit("((");
        lemma_absent(o, "(("@);
        lemma_not_bracketed(a, Shape::Cylinder, label, "(("@, "))"@);
    }
    assert(bracketed(node_statement(a, Shape::Cylinder, label), "{{"@, "}}"@) is None) by {
        reveal_strlit("{{");
        lemma_absent(o, "{{"@);
        lemma_not_bracketed(a, Shape::Cylinder, label, "{{"@, "}}"@);
    }
    assert(bracketed(node_statement(a, Shape::Cylinder, label), "{"@, "}"@) is None) by {
        reveal_strlit("{");
        lemma_absent(o, "{"@);
        lemma_not_bracketed(a, Shape::Cylinder, label, "{"@, "}"@);
    }
    lemma_bracketed(a, Shape::Cylinder, label);
}

#[verifier::spinoff_prover]
#[verifier::rlimit(60)]
proof fn lemma_declared_subroutine(a: Seq<char>, label: Seq<char>)
    requires
        is_name(a),
        is_caption(label),
        label.last() != ' ',
    ensures
        declared(node_statement(a, Shape::Subroutine, label)) == Some(
            (Declared { id: a, label, shape: Shape::Subroutine }),
        ),
{
    reveal_strlit("[[");
    reveal_strlit("]]");
    let o = "[["@;
    assert(bracketed(node_statement(a, Shape::Subroutine, label), "(["@, "])"@) is None) by {
        reveal_strlit("([");
        lemma_absent(o, "(["@);
        lemma_not_bracketed(a, Shape::Subroutine, label, "(["@, "])"@);
    }
    assert(bracketed(node_statement(a, Shape::Subroutine, label), "((("@, ")))"@) is None) by {
        reveal_strlit("(((");
        lemma_absent(o, "((("@);
        lemma_not_bracketed(a, Shape::Subroutine, label, "((("@, ")))"@);
    }
    assert(bracketed(node_statement(a, Shape::Subroutine, label), "(("@, "))"@) is None) by {
        reveal_strlit("((");
        lemma_absent(o, "(("@);
        lemma_not_bracketed(a, Shape::Subroutine, label, "(("@, "))"@);
    }
    assert(bracketed(node_statement(a, Shape::Subroutine, label), "{{"@, "}}"@) is None) by {
        reveal_strlit("{{");
        lemma_absent(o, "{{"@);
        lemma_not_bracketed(a, Shape::Subroutine, label, "{{"@, "}}"@);
    }
    assert(bracketed(node_statement(a, Shape::Subroutine, label), "{"@, "}"@) is None) by {
        reveal_strlit("{");
        lemma_absent(o, "{"@);
        lemma_not_bracketed(a, Shape::Subroutine, label, "{"@, "}"@);
    }
    assert(bracketed(node_statement(a, Shape::Subroutine, label), "[("@, ")]"@) is None) by {
        reveal_strlit("[(");
        lemma_absent(o, "[("@);
        lemma_not_bracketed(a, Shape::Subroutine, label, "[("@, ")]"@);
    }
    lemma_bracketed(a, Shape::Subroutine, label);
}

#[verifier::spinoff_prover]
#[verifier::rlimit(60)]
proof fn lemma_declared_parallelogram(a: Seq<char>, label: Seq<char>)
    requires
        is_name(a),
        is_caption(label),
        label.last() != ' ',
    ensures
        declared(node_statement(a, Shape::Parallelogram, label)) == Some(
            (Declared { id: a, label, shape: Shape::Parallelogram }),
        ),
{
    reveal_strlit("[/");
    reveal_strlit("/]");
    let o = "[/"@;
    assert(bracketed(node_statement(a, Shape::Parallelogram, label), "(["@, "])"@) is None) by {
        reveal_strlit("([");
        lemma_absent(o, "(["@);
        lemma_not_bracketed(a, Shape::Parallelogram, label, "(["@, "])"@);
    }
    assert(bracketed(node_statement(a, Shape::Parallelogram, label), "((("@, ")))"@) is None) by {
        reveal_strlit("(((");
        lemma_absent(o, "((("@);
        lemma_not_bracketed(a, Shape::Parallelogram, label, "((("@, ")))"@);
    }
    assert(bracketed(node_statement(a, Shape::Parallelogram, label), "(("@, "))"@) is None) by {
        reveal_strlit("((");
        lemma_absent(o, "(("@);
        lemma_not_bracketed(a, Shape::Parallelogram, label, "(("@, "))"@);
    }
    assert(bracketed(node_statement(a, Shape::Parallelogram, label), "{{"@, "}}"@) is None) by {
        reveal_strlit("{{");
        lemma_absent(o, "{{"@);
        lemma_not_bracketed(a, Shape::Parallelogram, label, "{{"@, "}}"@);
    }
    assert(bracketed(node_statement(a, Shape::Parallelogram, label), "{"@, "}"@) is None) by {
        reveal_strlit("{");
        lemma_absent(o, "{"@);
        lemma_not_bracketed(a, Shape::Parallelogram, label, "{"@, "}"@);
    }
    assert(bracketed(node_statement(a, Shape::Parallelogram, label), "[("@, ")]"@) is None) by {
        reveal_strlit("[(");
        lemma_absent(o, "[("@);
        lemma_not_bracketed(a, Shape::Parallelogram, label, "[("@, ")]"@);
    }
    assert(bracketed(node_statement(a, Shape::Parallelogram, label), "[["@, "]]"@) is None) by {
        reveal_strlit("[[");
        lemma_absent(o, "[["@);
        lemma_not_bracketed(a, Shape::Parallelogram, label, "[["@, "]]"@);
    }
    lemma_bracketed(a, Shape::Parallelogram, label);
}

#[verifier::spinoff_prover]
#[verifier::rlimit(60)]
proof fn lemma_declared_parallelogram_alt(a: Seq<char>, label: Seq<char>)
    requires
        is_name(a),
        is_caption(label),
        label.last() != ' ',
    ensures
        declared(node_statement(a, Shape::ParallelogramAlt, label)) == Some(
            (Declared { id: a, label, shape: Shape::ParallelogramAlt }),
        ),
{
    reveal_strlit("[\\");
    reveal_strlit("\\]");
    let o = "[\\"@;
    assert(bracketed(node_statement(a, Shape::ParallelogramAlt, label), "(["@, "])"@) is None) by {
        reveal_strlit("([");
        lemma_absent(o, "(["@);
        lemma_not_bracketed(a, Shape::ParallelogramAlt, label, "(["@, "])"@);
    }
    assert(bracketed(node_statement(a, Shape::ParallelogramAlt, label), "((("@, ")))"@) is None) by {
        reveal_strlit("(((");
        lemma_absent(o, "((("@);
        lemma_not_bracketed(a, Shape::ParallelogramAlt, label, "((("@, ")))"@);
    }
    assert(bracketed(node_statement(a, Shape::ParallelogramAlt, label), "(("@, "))"@) is None) by {
        reveal_strlit("((");
        lemma_absent(o, "(("@);
        lemma_not_bracketed(a, Shape::ParallelogramAlt, label, "(("@, "))"@);
    }
    assert(bracketed(node_statement(a, Shape::ParallelogramAlt, label), "{{"@, "}}"@) is None) by {
        reveal_strlit("{{");
        lemma_absent(o, "{{"@);
        lemma_not_bracketed(a, Shape::ParallelogramAlt, label, "{{"@, "}}"@);
    }
    assert(bracketed(node_statement(a, Shape::ParallelogramAlt, label), "{"@, "}"@) is None) by {
        reveal_strlit("{");
        lemma_absent(o, "{"@);
        lemma_not_bracketed(a, Shape::ParallelogramAlt, label, "{"@, "}"@);
    }
    assert(bracketed(node_statement(a, Shape::ParallelogramAlt, label), "[("@, ")]"@) is None) by {
        reveal_strlit("[(");
        lemma_absent(o, "[("@);
        lemma_not_bracketed(a, Shape::ParallelogramAlt, label, "[("@, ")]"@);
    }
    assert(bracketed(node_statement(a, Shape::ParallelogramAlt, label), "[["@, "]]"@) is None) by {
        reveal_strlit("[[");
        lemma_absent(o, "[["@);
        lemma_not_bracketed(a, Shape::ParallelogramAlt, label, "[["@, "]]"@);
    }
    assert(bracketed(node_statement(a, Shape::ParallelogramAlt, label), "[/"@, "/]"@) is None) by {
        reveal_strlit("[/");
        lemma_absent(o, "[/"@);
        lemma_not_bracketed(a, Shape::ParallelogramAlt, label, "[/"@, "/]"@);
    }
    lemma_bracketed(a, Shape::ParallelogramAlt, label);
}

#[verifier::spinoff_prover]
#[verifier::rlimit(60)]
proof fn lemma_declared_rect(a: Seq<char>, label: Seq<char>)
    requires
        is_name(a),
        is_caption(label),
        label.last() != ' ',
    ensures
        declared(node_statement(a, Shape::Rect, label)) == Some(
            (Declared { id: a, label, shape: Shape::Rect }),
        ),
{
    reveal_strlit("[");
    reveal_strlit("]");
    let o = "["@;
    assert(bracketed(node_statement(a, Shape::Rect, label), "(["@, "])"@) is None) by {
        reveal_strlit("([");
        lemma_absent(o, "(["@);
        lemma_not_bracketed(a, Shape::Rect, label, "(["@, "])"@);
    }
    assert(bracketed(node_statement(a, Shape::Rect, label), "((("@, ")))"@) is None) by {
        reveal_strlit("(((");
        lemma_absent(o, "((("@);
        lemma_not_bracketed(a, Shape::Rect, label, "((("@, ")))"@);
    }
    assert(bracketed(node_statement(a, Shape::Rect, label), "(("@, "))"@) is None) by {
        reveal_strlit("((");
        lemma_absent(o, "(("@);
        lemma_not_bracketed(a, Shape::Rect, label, "(("@, "))"@);
    }
    assert(bracketed(node_statement(a, Shape::Rect, label), "{{"@, "}}"@) is None) by {
        reveal_strlit("{{");
        lemma_absent(o, "{{"@);
        lemma_not_bracketed(a, Shape::Rect, label, "{{"@, "}}"@);
    }
    assert(bracketed(node_statement(a, Shape::Rect, label), "{"@, "}"@) is None) by {
        reveal_strlit("{");
        lemma_absent(o, "{"@);
        lemma_not_bracketed(a, Shape::Rect, label, "{"@, "}"@);
    }
    assert(bracketed(node_statement(a, Shape::Rect, label), "[("@, ")]"@) is None) by {
        reveal_strlit("[(");
        lemma_absent(o, "[("@);
        lemma_not_bracketed(a, Shape::Rect, label, "[("@, ")]"@);
    }
    assert(bracketed(node_statement(a, Shape::Rect, label), "[["@, "]]"@) is None) by {
        reveal_strlit("[[");
        lemma_absent(o, "[["@);
        lemma_not_bracketed(a, Shape::Rect, label, "[["@, "]]"@);
    }
    assert(bracketed(node_statement(a, Shape::Rect, label), "[/"@, "/]"@) is None) by {
        reveal_strlit("[/");
        lemma_absent(o, "[/"@);
        lemma_not_bracketed(a, Shape::Rect, label, "[/"@, "/]"@);
    }
    assert(bracketed(node_statement(a, Shape::Rect, label), "[\\"@, "\\]"@) is None) by {
        reveal_strlit("[\\");
        lemma_absent(o, "[\\"@);
        lemma_not_bracketed(a, Shape::Rect, label, "[\\"@, "\\]"@);
    }
    lemma_bracketed(a, Shape::Rect, label);
}

#[verifier::spinoff_prover]
#[verifier::rlimit(60)]
proof fn lemma_declared_rounded(a: Seq<char>, label: Seq<char>)
    requires
        is_name(a),
        is_caption(label),
        label.last() != ' ',
    ensures
        declared(node_statement(a, Shape::Rounded, label)) == Some(
            (Declared { id: a, label, shape: Shape::Rounded }),
        ),
{
    reveal_strlit("(");
    reveal_strlit(")");
    let o = "("@;
    assert(bracketed(node_statement(a, Shape::Rounded, label), "(["@, "])"@) is None) by {
        reveal_strlit("([");
        lemma_absent(o, "(["@);
        lemma_not_bracketed(a, Shape::Rounded, label, "(["@, "])"@);
    }
    assert(bracketed(node_statement(a, Shape::Rounded, label), "((("@, ")))"@) is None) by {
        reveal_strlit("(((");
        lemma_absent(o, "((("@);
        lemma_not_bracketed(a, Shape::Rounded, label, "((("@, ")))"@);
    }
    assert(bracketed(node_statement(a, Shape::Rounded, label), "(("@, "))"@) is None) by {
        reveal_strlit("((");
        lemma_absent(o, "(("@);
        lemma_not_bracketed(a, Shape::Rounded, label, "(("@, "))"@);
    }
    assert(bracketed(node_statement(a, Shape::Rounded, label), "{{"@, "}}"@) is None) by {
        reveal_strlit("{{");
        lemma_absent(o, "{{"@);
        lemma_not_bracketed(a, Shape::Rounded, label, "{{"@, "}}"@);
    }
    assert(bracketed(node_statement(a, Shape::Rounded, label), "{"@, "}"@) is None) by {
        reveal_strlit("{");
        lemma_absent(o, "{"@);
        lemma_not_bracketed(a, Shape::Rounded, label, "{"@, "}"@);
    }
    assert(bracketed(node_statement(a, Shape::Rounded, label), "[("@, ")]"@) is None) by {
        reveal_strlit("[(");
        lemma_absent(o, "[("@);
        lemma_not_bracketed(a, Shape::Rounded, label, "[("@, ")]"@);
    }
    assert(bracketed(node_statement(a, Shape::Rounded, label), "[["@, "]]"@) is None) by {
        reveal_strlit("[[");
        lemma_absent(o, "[["@);
        lemma_not_bracketed(a, Shape::Rounded, label, "[["@, "]]"@);
    }
    assert(bracketed(node_statement(a, Shape::Rounded, label), "[/"@, "/]"@) is None) by {
        reveal_strlit("[/");
        lemma_absent(o, "[/"@);
        lemma_not_bracketed(a, Shape::Rounded, label, "[/"@, "/]"@);
    }
    assert(bracketed(node_statement(a, Shape::Rounded, label), "[\\"@, "\\]"@) is None) by {
        reveal_strlit("[\\");
        lemma_absent(o, "[\\"@);
        lemma_not_bracketed(a, Shape::Rounded, label, "[\\"@, "\\]"@);
    }
    assert(bracketed(node_statement(a, Shape::Rounded, label), "["@, "]"@) is None) by {
        reveal_strlit("[");
        lemma_absent(o, "["@);
        lemma_not_bracketed(a, Shape::Rounded, label, "["@, "]"@);
    }
    lemma_bracketed(a, Shape::Rounded, label);
}

proof fn lemma_declared(a: Seq<char>, shape: Shape, label: Seq<char>)
    requires
        is_name(a),
        is_caption(label),
        label.last() != ' ',
        has_delimiters(shape),
    ensures
        declared(node_statement(a, shape, label)) == Some((Declared { id: a, label, shape })),
{
    match shape {
        Shape::Stadium => lemma_declared_stadium(a, label),
        Shape::DoubleCircle => lemma_declared_double_circle(a, label),
        Shape::Circle => lemma_declared_circle(a, label),
        Shape::Hexagon => lemma_declared_hexagon(a, label),
        Shape::Diamond => lemma_declared_diamond(a, label),
        Shape::Cylinder => lemma_declared_cylinder(a, label),
        Shape::Subroutine => lemma_declared_subroutine(a, label),
        Shape::Parallelogram => lemma_declared_parallelogram(a, label),
        Shape::ParallelogramAlt => lemma_declared_parallelogram_alt(a, label),
        Shape::Rect => lemma_declared_rect(a, label),
        Shape::Rounded => lemma_declared_rounded(a, label),
        _ => {},
    }
}

proof fn lemma_closed_line(s: Seq<char>, t: Seq<char>)
    requires
        whole_lines(s),
        one_line(t),
        t.last() != '\r',
    ensures
        lines_seq(s + t + seq!['\n']) == lines_seq(s).push(t),
        whole_lines(s + t + seq!['\n']),
    decreases s.len(),
{
    let all = s + t + seq!['\n'];
    assert(all.last() == '\n');
    lemma_index_from(all, '\n', 0);
    assert(all[all.len() - 1] == '\n');
    let j = first_index(all, '\n')->Some_0;
    if s.len() == 0 {
        assert(j == t.len()) by {
            if j < t.len() {
                assert(all[j] == t[j]);
            }
            assert(all[t.len() as int] == '\n');
        }
        assert(all.take(j) =~= t);
        assert(all.skip(j + 1) =~= seq![]);
        assert(lines_seq(all.skip(j + 1)) =~= seq![]);
        assert(seq![t] + lines_seq(all.skip(j + 1)) =~= lines_seq(s).push(t));
    } else {
        lemma_index_from(s, '\n', 0);
        assert(s[s.len() - 1] == '\n');
        let k = first_index(s, '\n')->Some_0;
        assert(all[k] == '\n' && s[k] == '\n');
        assert(j == k) by {
            if j < k {
                assert(s[j] == all[j]);
            }
        }
        let rest = s.skip(k + 1);
        assert(all.take(k) =~= s.take(k));
        assert(all.skip(k + 1) =~= rest + t + seq!['\n']);
        lemma_closed_line(rest, t);
        let head = seq![crate::text::strip_cr(s.take(k))];
        assert(head + lines_seq(rest).push(t) =~= (head + lines_seq(rest)).push(t));
    }
}

/// Whether a diagram is another with one node more, its last.
pub open spec fn has_one_more_node(r: DiagramView, d: DiagramView) -> bool {
    &&& r.nodes.len() == d.nodes.len() + 1
    &&& r.nodes.drop_last() == d.nodes
    &&& r.edges == d.edges && r.lanes == d.lanes
    &&& r.title == d.title && r.description == d.description
    &&& r.direction == d.direction && r.config == d.config && r.style == d.style
}

proof fn lemma_never_found_last(s: Seq<char>, t: Seq<char>, i: int)
    requires
        forall|j: int| !#[trigger] occurs_at(s, t, j),
    ensures
        rfind_from(s, t, i) is None,
    decreases i + 1,
{
    if i >= 0 {
        lemma_never_found_last(s, t, i - 1);
    }
}

proof fn lemma_not_reserved(a: Seq<char>, i: int)
    requires
        is_name(a),
        0 <= i,
    ensures
        reserved_from(a, i) is None,
    decreases a.len() - i,
{
    if i < a.len() {
        assert(is_letter(a[i]));
        lemma_not_reserved(a, i + 1);
    }
}

/// No word of the notation stands at the start of a declaration.
proof fn lemma_declaration_starts(t: Seq<char>, a: Seq<char>, w: Seq<char>)
    requires
        is_name(a),
        t.len() > a.len(),
        t.take(a.len() as int) == a,
        is_bracket(t[a.len() as int]),
        forall|i: int| 0 <= i < w.len() ==> is_letter(#[trigger] w[i]),
        !has_prefix(a, w),
    ensures
        !has_prefix(t, w),
        !has_prefix(t, w.push(' ')),
{
    let n = a.len() as int;
    assert forall|i: int| 0 <= i < n implies t[i] == a[i] by {
        assert(t.take(n)[i] == a[i]);
    }
    if has_prefix(t, w) || has_prefix(t, w.push(' ')) {
        let m = w.len() as int;
        assert forall|i: int| 0 <= i < m implies t[i] == #[trigger] w[i] by {
            if has_prefix(t, w) {
                assert(t.subrange(0, m)[i] == w[i]);
            } else {
                assert(t.subrange(0, m + 1)[i] == w.push(' ')[i]);
            }
        }
        if m <= n {
            assert(a.subrange(0, m) =~= w);
        } else {
            assert(t[n] == w[n]);
            assert(is_letter(w[n]));
        }
    }
}

proof fn lemma_is_declaration(a: Seq<char>, shape: Shape, label: Seq<char>)
    requires
        is_name(a),
        is_caption(label),
        paired(delimiters(shape).0, delimiters(shape).1),
        !starts_with_keyword(a),
    ensures
        ({
            let t = node_statement(a, shape, label);
            &&& !is_silent(t)
            &&& t != "}"@
            &&& !is_head(t)
            &&& !is_styling(t)
            &&& !has_prefix(t, "lane "@)
        }),
{
    let t = node_statement(a, shape, label);
    let (o, c) = delimiters(shape);
    lemma_statement_parts(a, shape, label);
    assert(t[a.len() as int + 0] == o[0]);
    assert(is_bracket(o[0]));
    assert(is_letter(a[0]));
    assert(t[0] == a[0]);
    reveal_strlit("}");
    reveal_strlit("%%");
    reveal_strlit("//");
    reveal_strlit("#");
    if has_prefix(t, "%%"@) {
        assert(t.subrange(0, 2)[0] == '%');
    }
    if has_prefix(t, "//"@) {
        assert(t.subrange(0, 2)[0] == '/');
    }
    if has_prefix(t, "#"@) {
        assert(t.subrange(0, 1)[0] == '#');
    }
    reveal_strlit("swimlane");
    lemma_declaration_starts(t, a, "swimlane"@);
    reveal_strlit("title");
    reveal_strlit("title ");
    assert("title "@ =~= "title"@.push(' '));
    lemma_declaration_starts(t, a, "title"@);
    reveal_strlit("desc");
    reveal_strlit("desc ");
    assert("desc "@ =~= "desc"@.push(' '));
    lemma_declaration_starts(t, a, "desc"@);
    reveal_strlit("description");
    reveal_strlit("description ");
    assert("description "@ =~= "description"@.push(' '));
    lemma_declaration_starts(t, a, "description"@);
    reveal_strlit("config");
    reveal_strlit("config ");
    assert("config "@ =~= "config"@.push(' '));
    lemma_declaration_starts(t, a, "config"@);
    reveal_strlit("classDef");
    reveal_strlit("classDef ");
    assert("classDef "@ =~= "classDef"@.push(' '));
    lemma_declaration_starts(t, a, "classDef"@);
    reveal_strlit("class");
    reveal_strlit("class ");
    assert("class "@ =~= "class"@.push(' '));
    lemma_declaration_starts(t, a, "class"@);
    reveal_strlit("style");
    reveal_strlit("style ");
    assert("style "@ =~= "style"@.push(' '));
    lemma_declaration_starts(t, a, "style"@);
    reveal_strlit("lane");
    reveal_strlit("lane ");
    assert("lane "@ =~= "lane"@.push(' '));
    lemma_declaration_starts(t, a, "lane"@);
}

/// Whether a word begins like a statement of another kind.
pub open spec fn starts_with_keyword(a: Seq<char>) -> bool {
    ||| has_prefix(a, "swimlane"@)
    ||| has_prefix(a, "title"@)
    ||| has_prefix(a, "desc"@)
    ||| has_prefix(a, "description"@)
    ||| has_prefix(a, "config"@)
    ||| has_prefix(a, "classDef"@)
    ||| has_prefix(a, "class"@)
    ||| has_prefix(a, "style"@)
    ||| has_prefix(a, "lane"@)
}

proof fn lemma_delimiters(shape: Shape)
    ensures
        paired(delimiters(shape).0, delimiters(shape).1),
{
    reveal_strlit("([");
    reveal_strlit("])");
    reveal_strlit("(((");
    reveal_strlit(")))");
    reveal_strlit("((");
    reveal_strlit("))");
    reveal_strlit("{{");
    reveal_strlit("}}");
    reveal_strlit("{");
    reveal_strlit("}");
    reveal_strlit("[(");
    reveal_strlit(")]");
    reveal_strlit("[[");
    reveal_strlit("]]");
    reveal_strlit("[/");
    reveal_strlit("/]");
    reveal_strlit("[\\");
    reveal_strlit("\\]");
    reveal_strlit("[");
    reveal_strlit("]");
    reveal_strlit("(");
    reveal_strlit(")");
}

proof fn lemma_no_operators(a: Seq<char>, shape: Shape, label: Seq<char>)
    requires
        is_name(a),
        is_caption(label),
    ensures
        ({
            let t = node_statement(a, shape, label);
            &&& cut_edge(t) is None
            &&& cut_class(t) == (t, None::<Seq<char>>)
        }),
{
    let t = node_statement(a, shape, label);
    let (o, c) = delimiters(shape);
    lemma_statement_parts(a, shape, label);
    lemma_delimiters(shape);
    law_delimiters_enclose(shape);
    reveal_strlit("-->");
    reveal_strlit("-.->");
    reveal_strlit("==>");
    reveal_strlit("---");
    reveal_strlit("::");
    assert forall|i: int| 0 <= i < t.len() implies #[trigger] t[i] != '-' && t[i] != '=' && t[i]
        != ':' by {
        if a.len() <= i < a.len() + o.len() {
            assert(t[a.len() + (i - a.len())] == o[i - a.len()]);
            assert(is_bracket(o[i - a.len()]));
        } else if i >= t.len() - c.len() {
            let j = i - (t.len() - c.len());
            assert(t[t.len() - c.len() + j] == c[j]);
            assert(c[o.len() - 1 - (o.len() - 1 - j)] == crate::emit::text_laws::closing(
                o[o.len() - 1 - j],
            ));
            assert(is_bracket(o[o.len() - 1 - j]));
        } else {
            assert(beside(t[i]));
        }
    }
    lemma_never(t, "-->"@);
    lemma_never(t, "-.->"@);
    lemma_never(t, "==>"@);
    lemma_never(t, "---"@);
    lemma_never(t, "::"@);
    lemma_not_found(t, "-->"@);
    lemma_not_found(t, "-.->"@);
    lemma_not_found(t, "==>"@);
    lemma_not_found(t, "---"@);
    lemma_never_found_last(t, "::"@, t.len() - 2);
    lemma_never_found_last(t, "::"@, t.len() as int);
}

proof fn lemma_never(t: Seq<char>, x: Seq<char>)
    requires
        x.len() > 0,
        x[0] == '-' || x[0] == '=' || x[0] == ':',
        forall|i: int| 0 <= i < t.len() ==> #[trigger] t[i] != '-' && t[i] != '=' && t[i] != ':',
    ensures
        forall|j: int| !#[trigger] occurs_at(t, x, j),
{
    assert forall|j: int| !#[trigger] occurs_at(t, x, j) by {
        if occurs_at(t, x, j) {
            assert(t.subrange(j, j + x.len())[0] == x[0]);
            assert(t[j] == x[0]);
        }
    }
}

/// The lane declaration `lane <name>`.
pub open spec fn lane_statement(l: Seq<char>) -> Seq<char> {
    seq!['l', 'a', 'n', 'e', ' '] + l
}

proof fn lemma_lane_directive(l: Seq<char>)
    requires
        is_name(l),
    ensures
        directive(lane_statement(l), "lane "@) == (l, Seq::<char>::empty()),
{
    reveal_strlit("lane ");
    let t = lane_statement(l);
    let w = "lane "@;
    assert(w =~= seq!['l', 'a', 'n', 'e', ' ']);
    assert(t.subrange(0, 5) =~= w);
    assert(t.skip(5) =~= l);
    assert(!has_prefix(l, w)) by {
        if has_prefix(l, w) {
            assert(l.subrange(0, 5)[4] == ' ');
            assert(is_letter(l[4]));
        }
    }
    assert(strip_all_prefix(l, w) == l);
    assert(strip_all_prefix(t, w) == l);
    assert(is_letter(l[0]) && is_letter(l[l.len() - 1]));
    lemma_trim_nothing(l);
    lemma_white_from(l, 0);
    assert forall|j: int| 0 <= j < l.len() implies !is_white(#[trigger] l[j]) by {
        assert(is_letter(l[j]));
    }
    assert(white_from(l, 0) is None);
    assert(trim_seq(Seq::<char>::empty()) =~= Seq::empty());
}

/// The lane that is declared last is the one that nodes are put in.
#[verifier::spinoff_prover]
#[verifier::rlimit(60)]
proof fn lemma_lane_is_current(st: ReaderView, n: int, l: Seq<char>)
    requires
        is_name(l),
        step(st, n, lane_statement(l)) is Ok,
    ensures
        step(st, n, lane_statement(l))->Ok_0.lanes.current == Some(l),
{
    let t = lane_statement(l);
    lemma_lane_directive(l);
    reveal_strlit("lane ");
    assert(t.subrange(0, 5) =~= "lane "@);
    reveal_strlit("}");
    reveal_strlit("%%");
    reveal_strlit("//");
    reveal_strlit("#");
    reveal_strlit("swimlane");
    reveal_strlit("title ");
    reveal_strlit("desc ");
    reveal_strlit("description ");
    reveal_strlit("config ");
    reveal_strlit("classDef ");
    reveal_strlit("class ");
    reveal_strlit("style ");
    reveal_strlit("anchor ");
    reveal_strlit("layout ");
    assert(t[0] == 'l' && t[1] == 'a' && t[2] == 'n');
    assert(!has_prefix(t, "%%"@)) by {
        if has_prefix(t, "%%"@) {
            assert(t.subrange(0, 2)[0] == '%');
        }
    }
    assert(!has_prefix(t, "//"@)) by {
        if has_prefix(t, "//"@) {
            assert(t.subrange(0, 2)[0] == '/');
        }
    }
    assert(!has_prefix(t, "#"@)) by {
        if has_prefix(t, "#"@) {
            assert(t.subrange(0, 1)[0] == '#');
        }
    }
    assert(!has_prefix(t, "swimlane"@)) by {
        if has_prefix(t, "swimlane"@) {
            assert(t.subrange(0, 8)[0] == 's');
        }
    }
    assert(!has_prefix(t, "title "@)) by {
        if has_prefix(t, "title "@) {
            assert(t.subrange(0, 6)[0] == 't');
        }
    }
    assert(!has_prefix(t, "desc "@)) by {
        if has_prefix(t, "desc "@) {
            assert(t.subrange(0, 5)[0] == 'd');
        }
    }
    assert(!has_prefix(t, "description "@)) by {
        if has_prefix(t, "description "@) {
            assert(t.subrange(0, 12)[0] == 'd');
        }
    }
    assert(!has_prefix(t, "config "@)) by {
        if has_prefix(t, "config "@) {
            assert(t.subrange(0, 7)[0] == 'c');
        }
    }
    assert(!has_prefix(t, "classDef "@)) by {
        if has_prefix(t, "classDef "@) {
            assert(t.subrange(0, 9)[0] == 'c');
        }
    }
    assert(!has_prefix(t, "class "@)) by {
        if has_prefix(t, "class "@) {
            assert(t.subrange(0, 6)[0] == 'c');
        }
    }
    assert(!has_prefix(t, "style "@)) by {
        if has_prefix(t, "style "@) {
            assert(t.subrange(0, 6)[0] == 's');
        }
    }
    assert(!has_prefix(t, "anchor "@)) by {
        if has_prefix(t, "anchor "@) {
            assert(t.subrange(0, 7)[0] == 'a');
        }
    }
    assert(!has_prefix(t, "layout "@)) by {
        if has_prefix(t, "layout "@) {
            assert(t.subrange(0, 7)[2] == 'y');
        }
    }
    assert(t != "}"@);
    assert(Seq::<char>::empty().len() == 0);
}

#[verifier::spinoff_prover]
#[verifier::rlimit(80)]
proof fn lemma_node_added(
    st: ReaderView,
    n: int,
    d: DiagramView,
    lane: Seq<char>,
    a: Seq<char>,
    shape: Shape,
    label: Seq<char>,
)
    requires
        finish(st) == Ok::<DiagramView, Failure>(d),
        st.lanes.current == Some(lane),
        is_name(a),
        !starts_with_keyword(a),
        !lane_node_ids(d.nodes).contains(a),
        has_delimiters(shape),
        is_caption(label),
        label.last() != ' ',
    ensures
        ({
            let next = step(st, n, node_statement(a, shape, label));
            let r = finish(next->Ok_0);
            &&& next is Ok
            &&& r is Ok
            &&& has_one_more_node(r->Ok_0, d)
            &&& r->Ok_0.nodes.last().id == a
            &&& r->Ok_0.nodes.last().label == label
            &&& r->Ok_0.nodes.last().shape == shape
            &&& r->Ok_0.nodes.last().lane == lane
        }),
{
    let t = node_statement(a, shape, label);
    let (o, c) = delimiters(shape);
    lemma_delimiters(shape);
    lemma_is_declaration(a, shape, label);
    lemma_no_operators(a, shape, label);
    lemma_declared(a, shape, label);
    lemma_statement_parts(a, shape, label);
    assert(t[t.len() - c.len() + (c.len() - 1)] == c[c.len() - 1]);
    assert(t.last() != '{');
    lemma_not_reserved(a, 0);
    lemma_no_breaks(label);
    assert(lane_node_ids(st.nodes) =~= lane_node_ids(d.nodes));
    lemma_name_from(lane_node_ids(st.nodes), a, 0);
    let next = step(st, n, t);
    assert(next is Ok);
    let x = next->Ok_0.nodes.last();
    assert(next->Ok_0.nodes == st.nodes.push(x));
    let after = finish(next->Ok_0)->Ok_0;
    assert(after.nodes.drop_last() =~= d.nodes);
}

proof fn lemma_lane_line(lane: Seq<char>)
    requires
        is_name(lane),
    ensures
        one_line(lane_statement(lane)),
        lane_statement(lane).last() != '\r',
        trim_seq(lane_statement(lane)) == lane_statement(lane),
        inline_block(lane_statement(lane)) is None,
{
    let u = lane_statement(lane);
    assert(is_letter(lane[lane.len() - 1]));
    assert(u.last() == lane.last());
    assert forall|i: int| 0 <= i < u.len() implies #[trigger] u[i] != '\n' by {
        if i >= 5 {
            assert(u[i] == lane[i - 5]);
            assert(is_letter(lane[i - 5]));
        }
    }
    lemma_trim_nothing(u);
    reveal_strlit("}");
    assert(!has_suffix(u, "}"@)) by {
        if has_suffix(u, "}"@) {
            assert(u.subrange(u.len() - 1, u.len() as int)[0] == '}');
        }
    }
}

proof fn lemma_state_behind_lane(source: Seq<char>, lane: Seq<char>, d: DiagramView)
    requires
        whole_lines(source),
        is_name(lane),
        diagram_of_notation(source + lane_statement(lane) + seq!['\n']) == Ok::<
            DiagramView,
            Seq<char>,
        >(d),
    ensures
        run_from(
            statements_from(lines_seq(source + lane_statement(lane) + seq!['\n']), 0),
            0,
            initial(),
        )->Ok_0.lanes.current == Some(lane),
{
    let u = lane_statement(lane);
    lemma_lane_line(lane);
    lemma_closed_line(source, u);
    let l = lines_seq(source);
    let s = statements_from(l, 0);
    lemma_statements(l, u, 0);
    let n = l.len() as int;
    assert(expand(n, u) == seq![(n, u)]);
    assert(s + seq![(n, u)] =~= s.push((n, u)));
    lemma_run(s, (n, u), 0, initial());
    lemma_lane_is_current(run_from(s, 0, initial())->Ok_0, n, lane);
}

/// The line `<id><open><label><close>` behind a lane declaration adds one
/// node to that lane, with that id and that label, of the shape that
/// flowcharts write with those delimiters.
#[verifier::spinoff_prover]
#[verifier::rlimit(80)]
pub proof fn law_declarations_add_nodes(
    source: Seq<char>,
    lane: Seq<char>,
    d: DiagramView,
    a: Seq<char>,
    shape: Shape,
    label: Seq<char>,
)
    requires
        whole_lines(source),
        is_name(lane),
        diagram_of_notation(source + lane_statement(lane) + seq!['\n']) == Ok::<
            DiagramView,
            Seq<char>,
        >(d),
        is_name(a),
        !starts_with_keyword(a),
        !lane_node_ids(d.nodes).contains(a),
        has_delimiters(shape),
        is_caption(label),
        label.last() != ' ',
    ensures
        encloses(delimiters(shape).0, delimiters(shape).1, shape),
        ({
            let r = diagram_of_notation(
                source + lane_statement(lane) + seq!['\n'] + node_statement(a, shape, label),
            );
            &&& r is Ok
            &&& has_one_more_node(r->Ok_0, d)
            &&& r->Ok_0.nodes.last().id == a
            &&& r->Ok_0.nodes.last().label == label
            &&& r->Ok_0.nodes.last().shape == shape
            &&& r->Ok_0.nodes.last().lane == lane
        }),
{
    law_delimiters_enclose(shape);
    let u = lane_statement(lane);
    let text = source + u + seq!['\n'];
    let t = node_statement(a, shape, label);
    lemma_lane_line(lane);
    lemma_closed_line(source, u);
    lemma_node_line(a, shape, label);
    let st = lemma_further_line(text, t, d);
    lemma_state_behind_lane(source, lane, d);
    lemma_node_added(st, lines_seq(text).len() as int, d, lane, a, shape, label);
}

proof fn lemma_node_line(a: Seq<char>, shape: Shape, label: Seq<char>)
    requires
        is_name(a),
        is_caption(label),
        label.last() != ' ',
    ensures
        ({
            let t = node_statement(a, shape, label);
            one_line(t) && trim_seq(t) == t && inline_block(t) is None
        }),
{
    let t = node_statement(a, shape, label);
    let (o, c) = delimiters(shape);
    let k = a.len() as int;
    lemma_delimiters(shape);
    law_delimiters_enclose(shape);
    lemma_bracketed(a, shape, label);
    lemma_statement_parts(a, shape, label);
    assert forall|i: int| 0 <= i < t.len() implies #[trigger] t[i] != '\n' by {
        if k <= i < k + o.len() {
            assert(t[k + (i - k)] == o[i - k]);
            assert(is_bracket(o[i - k]));
        } else if i >= t.len() - c.len() {
            let j = i - (t.len() - c.len());
            assert(t[t.len() - c.len() + j] == c[j]);
            assert(c[o.len() - 1 - (o.len() - 1 - j)] == crate::emit::text_laws::closing(
                o[o.len() - 1 - j],
            ));
            assert(is_bracket(o[o.len() - 1 - j]));
        } else {
            assert(beside(t[i]));
        }
    }
    // An opening brace, if there is one, follows the id at once.
    lemma_index_from(t, '{', 0);
    if let Some(p) = first_index(t, '{') {
        if p < k || k + o.len() <= p < t.len() - c.len() {
            assert(beside(t[p]));
        } else if p >= t.len() - c.len() {
            assert(t[t.len() - c.len() + (p - (t.len() - c.len()))] == c[p - (t.len() - c.len())]);
        } else {
            assert(t[k + (p - k)] == o[p - k]);
            if p > k {
                assert(t[k + 0] == o[0]);
                assert(o[0] != '{');
                assert(o.contains('{'));
            }
            assert(t[k - 1] == a[k - 1]) by {
                assert(t.take(k)[k - 1] == a[k - 1]);
            }
            assert(is_letter(a[k - 1]));
        }
    }
}

} // verus!
