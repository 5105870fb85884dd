//! The parts of the line-oriented notation: node declarations, style
//! properties, directives.

use vstd::prelude::*;

use crate::advance::read_json::{is_config_key, order_of, parse_order, set_config};
use crate::advance::{
    no_edge_style, side_name, AdvanceConfig, AdvanceEdgeStyle, AdvanceSide, ConfigView,
    EdgeStyleView,
};
use crate::model::{no_style, NodeStyle, NodeStyleView, Shape};
use crate::num::{non_negative, number, parse_num, positive, Num};
use crate::text::{
    cat, cat3, contains, contains_char, cut_white, cut_white_seq, ends_with, eq, find, find_char,
    find_seq, first_index, has, has_char, has_prefix, has_suffix, rcut_white, rcut_white_seq, rfind,
    rfind_seq, split_char, split_seq, starts_with, string_of, strip_all_prefix, strip_all_suffix,
    texts, trim, trim_end, trim_end_matches, trim_end_seq, trim_seq, trim_start_matches,
};

verus! {

/// `s` with every `<br/>` turned into a newline.
pub open spec fn breaks(s: Seq<char>) -> Seq<char>
    decreases s.len(),
{
    if s.len() == 0 {
        s
    } else if s.len() >= 5 && has_prefix(s, "<br/>"@) {
        seq!['\n'] + breaks(s.skip(5))
    } else {
        seq![s[0]] + breaks(s.skip(1))
    }
}

/// The text with every `<br/>` turned into a newline.
pub fn normalize_breaks(s: &[char]) -> (r: String)
    ensures
        r@ == breaks(s@),
{
    let mut out = String::new();
    let n: usize = s.len();
    let mut i: usize = 0;
    assert(s@.skip(0) =~= s@);
    assert(out@ + breaks(s@) =~= breaks(s@));
    while i < n
        invariant
            i <= n,
            n == s@.len(),
            out@ + breaks(s@.skip(i as int)) == breaks(s@),
        decreases n - i,
    {
        let ghost before = out@;
        let rest = &s[i..n];
        assert(rest@ =~= s@.skip(i as int));
        if rest.len() >= 5 && starts_with(rest, "<br/>") {
            out.push('\n');
            assert(s@.skip(i as int).skip(5) =~= s@.skip(i as int + 5));
            assert(before + (seq!['\n'] + breaks(s@.skip(i as int + 5))) =~= out@ + breaks(
                s@.skip(i as int + 5),
            ));
            i += 5;
        } else {
            out.push(s[i]);
            assert(s@.skip(i as int).skip(1) =~= s@.skip(i as int + 1));
            assert(before + (seq![s@[i as int]] + breaks(s@.skip(i as int + 1))) =~= out@ + breaks(
                s@.skip(i as int + 1),
            ));
            i += 1;
        }
    }
    assert(out@ + breaks(s@.skip(i as int)) =~= out@);
    out
}

/// A declaration followed by statements in braces on one line,
/// `decl { stmt; stmt }`. The brace must follow a closed shape bracket or
/// white space, so a diamond `c{Text}` is no block; edges and directives
/// never are.
pub open spec fn inline_block(line: Seq<char>) -> Option<(Seq<char>, Seq<char>)> {
    let pos = first_index(line, '{');
    if !has_suffix(line, "}"@) || has(line, "-->"@) || has(line, "-.->"@) || has(line, "==>"@)
        || has(line, "---"@) || has_prefix(line, "style "@) || has_prefix(line, "classDef "@)
        || has_prefix(line, "config "@) || pos is None || pos == Some(0int) {
        None
    } else {
        let k = pos->Some_0;
        let decl = trim_end_seq(line.take(k));
        if (line[k - 1] == ' ' || line[k - 1] == '\t' || line[k - 1] == ']' || line[k - 1] == ')')
            && decl.len() > 0 {
            Some((decl, trim_seq(line.subrange(k + 1, line.len() - 1))))
        } else {
            None
        }
    }
}

pub fn split_inline_block<'a>(line: &'a [char]) -> (r: Option<(&'a [char], &'a [char])>)
    ensures
        match inline_block(line@) {
            Some((d, b)) => r is Some && r->Some_0.0@ == d && r->Some_0.1@ == b,
            None => r is None,
        },
{
    proof {
        reveal_strlit("}");
    }
    let n: usize = line.len();
    if !ends_with(line, "}") {
        return None;
    }
    assert(line@.subrange(line@.len() - 1, line@.len() as int)[0] == line@.last());
    assert(line@.last() == '}');
    if contains(line, "-->") || contains(line, "-.->") || contains(line, "==>") || contains(
        line,
        "---",
    ) || starts_with(line, "style ") || starts_with(line, "classDef ") || starts_with(
        line,
        "config ",
    ) {
        return None;
    }
    match find_char(line, '{') {
        None => None,
        Some(k) => {
            if k == 0 {
                return None;
            }
            let prev = line[k - 1];
            let head = &line[0..k];
            assert(head@ =~= line@.take(k as int));
            let decl = trim_end(head);
            if (prev == ' ' || prev == '\t' || prev == ']' || prev == ')') && decl.len() > 0 {
                Some((decl, trim(&line[k + 1..n - 1])))
            } else {
                None
            }
        },
    }
}

/// The pieces of `s` between the semicolons outside braces, from `i` on;
/// the current piece started at `start`.
pub open spec fn top_level_from(s: Seq<char>, i: int, start: int, depth: int) -> Seq<Seq<char>>
    decreases s.len() - i,
{
    if i < 0 || i >= s.len() {
        seq![s.subrange(start, s.len() as int)]
    } else if s[i] == '{' {
        top_level_from(s, i + 1, start, depth + 1)
    } else if s[i] == '}' {
        top_level_from(s, i + 1, start, depth - 1)
    } else if s[i] == ';' && depth == 0 {
        seq![s.subrange(start, i)] + top_level_from(s, i + 1, i + 1, depth)
    } else {
        top_level_from(s, i + 1, start, depth)
    }
}

/// The statements of a block body.
pub open spec fn top_level(s: Seq<char>) -> Seq<Seq<char>> {
    top_level_from(s, 0, 0, 0)
}

pub fn split_top_level<'a>(s: &'a [char]) -> (r: Vec<&'a [char]>)
    ensures
        texts(r@) == top_level(s@),
{
    let n: usize = s.len();
    let mut out: Vec<&'a [char]> = Vec::new();
    let mut depth: i128 = 0;
    let mut start: usize = 0;
    let mut i: usize = 0;
    assert(texts(out@) + top_level(s@) =~= top_level(s@));
    while i < n
        invariant
            start <= i <= n,
            n == s@.len(),
            -(i as int) <= depth <= i,
            texts(out@) + top_level_from(s@, i as int, start as int, depth as int) == top_level(s@),
        decreases n - i,
    {
        let ghost before = out@;
        let c = s[i];
        if c == '{' {
            depth += 1;
        } else if c == '}' {
            depth -= 1;
        } else if c == ';' && depth == 0 {
            let piece = &s[start..i];
            out.push(piece);
            assert(texts(out@) =~= texts(before).push(piece@));
            assert(texts(before) + (seq![piece@] + top_level_from(
                s@,
                i as int + 1,
                i as int + 1,
                0,
            )) =~= texts(out@) + top_level_from(s@, i as int + 1, i as int + 1, 0));
            start = i + 1;
        }
        i += 1;
    }
    let ghost before = out@;
    let piece = &s[start..n];
    out.push(piece);
    assert(texts(out@) =~= texts(before) + seq![piece@]);
    out
}

/// The id and label of a declaration whose label stands between `open` and
/// `close`.
pub open spec fn bracketed(s: Seq<char>, open: Seq<char>, close: Seq<char>) -> Option<
    (Seq<char>, Seq<char>),
> {
    match find_seq(s, open) {
        Some(k) if has_suffix(s, close) && k + open.len() <= s.len() - close.len() => Some(
            (
                trim_seq(s.take(k)),
                trim_seq(s.subrange(k + open.len(), s.len() - close.len())),
            ),
        ),
        _ => None,
    }
}

fn parse_bracketed(s: &[char], open: &str, close: &str) -> (r: Option<(String, String)>)
    ensures
        match bracketed(s@, open@, close@) {
            Some((i, l)) => r is Some && r->Some_0.0@ == i && r->Some_0.1@ == l,
            None => r is None,
        },
{
    let n: usize = s.len();
    match find(s, open) {
        None => None,
        Some(k) => {
            if !ends_with(s, close) {
                return None;
            }
            let a: usize = k + open.unicode_len();
            let b: usize = n - close.unicode_len();
            if a > b {
                return None;
            }
            let head = &s[0..k];
            assert(head@ =~= s@.take(k as int));
            Some((string_of(trim(head)), string_of(trim(&s[a..b]))))
        },
    }
}

/// A declared node: id, label and shape.
pub struct Declared {
    pub id: Seq<char>,
    pub label: Seq<char>,
    pub shape: Shape,
}

pub open spec fn with_shape(p: Option<(Seq<char>, Seq<char>)>, shape: Shape) -> Declared {
    Declared { id: p->Some_0.0, label: p->Some_0.1, shape }
}

/// What a node declaration says: the first bracket pair that fits gives the
/// shape; without one the whole text is both id and label.
pub open spec fn declared(text: Seq<char>) -> Option<Declared> {
    let s = trim_seq(text);
    if s.len() == 0 {
        None
    } else if bracketed(s, "(["@, "])"@) is Some {
        Some(with_shape(bracketed(s, "(["@, "])"@), Shape::Stadium))
    } else if bracketed(s, "((("@, ")))"@) is Some {
        Some(with_shape(bracketed(s, "((("@, ")))"@), Shape::DoubleCircle))
    } else if bracketed(s, "(("@, "))"@) is Some {
        Some(with_shape(bracketed(s, "(("@, "))"@), Shape::Circle))
    } else if bracketed(s, "{{"@, "}}"@) is Some {
        Some(with_shape(bracketed(s, "{{"@, "}}"@), Shape::Hexagon))
    } else if bracketed(s, "{"@, "}"@) is Some {
        Some(with_shape(bracketed(s, "{"@, "}"@), Shape::Diamond))
    } else if bracketed(s, "[("@, ")]"@) is Some {
        Some(with_shape(bracketed(s, "[("@, ")]"@), Shape::Cylinder))
    } else if bracketed(s, "[["@, "]]"@) is Some {
        Some(with_shape(bracketed(s, "[["@, "]]"@), Shape::Subroutine))
    } else if bracketed(s, "[/"@, "/]"@) is Some {
        Some(with_shape(bracketed(s, "[/"@, "/]"@), Shape::Parallelogram))
    } else if bracketed(s, "[\\"@, "\\]"@) is Some {
        Some(with_shape(bracketed(s, "[\\"@, "\\]"@), Shape::ParallelogramAlt))
    } else if bracketed(s, "["@, "]"@) is Some {
        Some(with_shape(bracketed(s, "["@, "]"@), Shape::Rect))
    } else if bracketed(s, "("@, ")"@) is Some {
        Some(with_shape(bracketed(s, "("@, ")"@), Shape::Rounded))
    } else {
        Some(Declared { id: s, label: s, shape: Shape::Rect })
    }
}

pub fn parse_text_node_shorthand(text: &[char]) -> (r: Option<(String, String, Shape)>)
    ensures
        match declared(text@) {
            Some(d) => r is Some && r->Some_0.0@ == d.id && r->Some_0.1@ == d.label && r->Some_0.2
                == d.shape,
            None => r is None,
        },
{
    let s = trim(text);
    if s.len() == 0 {
        return None;
    }
    if let Some((id, label)) = parse_bracketed(s, "([", "])") {
        return Some((id, label, Shape::Stadium));
    }
    if let Some((id, label)) = parse_bracketed(s, "(((", ")))") {
        return Some((id, label, Shape::DoubleCircle));
    }
    if let Some((id, label)) = parse_bracketed(s, "((", "))") {
        return Some((id, label, Shape::Circle));
    }
    if let Some((id, label)) = parse_bracketed(s, "{{", "}}") {
        return Some((id, label, Shape::Hexagon));
    }
    if let Some((id, label)) = parse_bracketed(s, "{", "}") {
        return Some((id, label, Shape::Diamond));
    }
    if let Some((id, label)) = parse_bracketed(s, "[(", ")]") {
        return Some((id, label, Shape::Cylinder));
    }
    if let Some((id, label)) = parse_bracketed(s, "[[", "]]") {
        return Some((id, label, Shape::Subroutine));
    }
    if let Some((id, label)) = parse_bracketed(s, "[/", "/]") {
        return Some((id, label, Shape::Parallelogram));
    }
    if let Some((id, label)) = parse_bracketed(s, "[\\", "\\]") {
        return Some((id, label, Shape::ParallelogramAlt));
    }
    if let Some((id, label)) = parse_bracketed(s, "[", "]") {
        return Some((id, label, Shape::Rect));
    }
    if let Some((id, label)) = parse_bracketed(s, "(", ")") {
        return Some((id, label, Shape::Rounded));
    }
    Some((string_of(s), string_of(s), Shape::Rect))
}

/// Whether `s` holds a shape bracket.
pub open spec fn has_bracket(s: Seq<char>) -> bool {
    has_char(s, '[') || has_char(s, ']') || has_char(s, '(') || has_char(s, ')') || has_char(
        s,
        '{',
    ) || has_char(s, '}')
}

/// A declaration line without its trailing `::class`, and that class. A
/// `::` in front of a bracket belongs to a label.
pub open spec fn cut_class(line: Seq<char>) -> (Seq<char>, Option<Seq<char>>) {
    match rfind_seq(line, "::"@) {
        Some(k) if line.skip(k + 2).len() > 0 && !has_bracket(line.skip(k + 2)) => (
            trim_end_seq(line.take(k)),
            Some(trim_seq(line.skip(k + 2))),
        ),
        _ => (line, None),
    }
}

pub fn split_node_class_shorthand<'a>(line: &'a [char]) -> (r: (&'a [char], Option<&'a [char]>))
    ensures
        r.0@ == cut_class(line@).0,
        match cut_class(line@).1 {
            Some(c) => r.1 is Some && r.1->Some_0@ == c,
            None => r.1 is None,
        },
{
    proof {
        reveal_strlit("::");
    }
    let n: usize = line.len();
    if let Some(k) = rfind(line, "::") {
        let after = &line[k + 2..n];
        assert(after@ =~= line@.skip(k as int + 2));
        if after.len() > 0 && !contains_char(after, '[') && !contains_char(after, ']')
            && !contains_char(after, '(') && !contains_char(after, ')') && !contains_char(
            after,
            '{',
        ) && !contains_char(after, '}') {
            let head = &line[0..k];
            assert(head@ =~= line@.take(k as int));
            return (trim_end(head), Some(trim(after)));
        }
    }
    (line, None)
}

/// Whether `s` ends in `:` and the keyword of `side`, after an id that does
/// not itself end in a colon.
pub open spec fn has_port(s: Seq<char>, side: AdvanceSide) -> bool {
    let suffix = ":"@ + side_name(side);
    let k = s.len() - suffix.len();
    has_suffix(s, suffix) && k > 0 && s[k - 1] != ':'
}

/// An edge endpoint without its `:side` suffix.
pub open spec fn endpoint_id(text: Seq<char>) -> Seq<char> {
    let s = trim_seq(text);
    if has_port(s, AdvanceSide::Left) {
        trim_seq(s.take(s.len() - (":"@ + side_name(AdvanceSide::Left)).len()))
    } else if has_port(s, AdvanceSide::Right) {
        trim_seq(s.take(s.len() - (":"@ + side_name(AdvanceSide::Right)).len()))
    } else if has_port(s, AdvanceSide::Top) {
        trim_seq(s.take(s.len() - (":"@ + side_name(AdvanceSide::Top)).len()))
    } else if has_port(s, AdvanceSide::Bottom) {
        trim_seq(s.take(s.len() - (":"@ + side_name(AdvanceSide::Bottom)).len()))
    } else {
        s
    }
}

fn strip_port<'a>(s: &'a [char], side: AdvanceSide) -> (r: Option<&'a [char]>)
    ensures
        r is Some <==> has_port(s@, side),
        r is Some ==> r->Some_0@ == trim_seq(s@.take(s@.len() - (":"@ + side_name(side)).len())),
{
    let suffix = cat(":", side.name());
    if !ends_with(s, suffix.as_str()) {
        return None;
    }
    let k: usize = s.len() - suffix.as_str().unicode_len();
    if k == 0 || s[k - 1] == ':' {
        return None;
    }
    let head = &s[0..k];
    assert(head@ =~= s@.take(k as int));
    Some(trim(head))
}

/// Split an edge endpoint into its id and the side that a suffix asks for.
pub fn split_endpoint(text: &[char]) -> (r: (String, Option<AdvanceSide>))
    ensures
        r.0@ == endpoint_id(text@),
        r.1 == if has_port(trim_seq(text@), AdvanceSide::Left) {
            Some(AdvanceSide::Left)
        } else if has_port(trim_seq(text@), AdvanceSide::Right) {
            Some(AdvanceSide::Right)
        } else if has_port(trim_seq(text@), AdvanceSide::Top) {
            Some(AdvanceSide::Top)
        } else if has_port(trim_seq(text@), AdvanceSide::Bottom) {
            Some(AdvanceSide::Bottom)
        } else {
            None
        },
{
    let s = trim(text);
    if let Some(h) = strip_port(s, AdvanceSide::Left) {
        return (string_of(h), Some(AdvanceSide::Left));
    }
    if let Some(h) = strip_port(s, AdvanceSide::Right) {
        return (string_of(h), Some(AdvanceSide::Right));
    }
    if let Some(h) = strip_port(s, AdvanceSide::Top) {
        return (string_of(h), Some(AdvanceSide::Top));
    }
    if let Some(h) = strip_port(s, AdvanceSide::Bottom) {
        return (string_of(h), Some(AdvanceSide::Bottom));
    }
    (string_of(s), None)
}

/// The pieces of `s` between the commas outside parentheses, from `i` on;
/// nothing when a parenthesis stays open.
pub open spec fn props_from(s: Seq<char>, i: int, start: int, depth: int) -> Option<Seq<Seq<char>>>
    decreases s.len() - i,
{
    if i < 0 || i >= s.len() {
        if depth == 0 {
            Some(seq![s.subrange(start, s.len() as int)])
        } else {
            None
        }
    } else if s[i] == '(' {
        props_from(s, i + 1, start, depth + 1)
    } else if s[i] == ')' {
        props_from(
            s,
            i + 1,
            start,
            if depth > 0 {
                depth - 1
            } else {
                0
            },
        )
    } else if s[i] == ',' && depth == 0 {
        match props_from(s, i + 1, i + 1, depth) {
            Some(rest) => Some(seq![s.subrange(start, i)] + rest),
            None => None,
        }
    } else {
        props_from(s, i + 1, start, depth)
    }
}

/// The message for a parenthesis that stays open.
pub open spec fn open_paren(s: Seq<char>) -> Seq<char> {
    "unbalanced '(' in style properties: '"@ + s + "'"@
}

/// What stands before more pieces.
pub open spec fn before(head: Seq<Seq<char>>, rest: Option<Seq<Seq<char>>>) -> Option<
    Seq<Seq<char>>,
> {
    match rest {
        Some(r) => Some(head + r),
        None => None,
    }
}

pub fn split_props<'a>(s: &'a [char]) -> (r: Result<Vec<&'a [char]>, String>)
    ensures
        match props_from(s@, 0, 0, 0) {
            Some(p) => r is Ok && texts(r->Ok_0@) == p,
            None => r is Err && r->Err_0@ == open_paren(s@),
        },
{
    let n: usize = s.len();
    let mut out: Vec<&'a [char]> = Vec::new();
    let mut depth: usize = 0;
    let mut start: usize = 0;
    let mut i: usize = 0;
    let ghost want = props_from(s@, 0, 0, 0);
    proof {
        if want is Some {
            assert(texts(out@) + want->Some_0 =~= want->Some_0);
        }
    }
    while i < n
        invariant
            start <= i <= n,
            n == s@.len(),
            depth <= i,
            want == props_from(s@, 0, 0, 0),
            before(texts(out@), props_from(s@, i as int, start as int, depth as int)) == want,
        decreases n - i,
    {
        let ghost prev = out@;
        let c = s[i];
        if c == '(' {
            depth += 1;
        } else if c == ')' {
            if depth > 0 {
                depth -= 1;
            }
        } else if c == ',' && depth == 0 {
            let piece = &s[start..i];
            out.push(piece);
            assert(texts(out@) =~= texts(prev).push(piece@));
            proof {
                let rest = props_from(s@, i as int + 1, i as int + 1, 0);
                if rest is Some {
                    assert(texts(prev) + (seq![piece@] + rest->Some_0) =~= texts(out@)
                        + rest->Some_0);
                }
            }
            start = i + 1;
        }
        i += 1;
    }
    if depth != 0 {
        return Err(cat3("unbalanced '(' in style properties: '", string_of(s).as_str(), "'"));
    }
    let ghost prev = out@;
    let piece = &s[start..n];
    out.push(piece);
    assert(texts(out@) =~= texts(prev) + seq![piece@]);
    Ok(out)
}

/// A stroke width in a style property, such as `2` or `2px`.
pub open spec fn width_prop(v: Seq<char>) -> Result<Seq<char>, Seq<char>> {
    match number(trim_seq(strip_all_suffix(v, "px"@))) {
        None => Err("invalid stroke-width: '"@ + v + "'"@),
        Some(n) => if positive(n) {
            Ok(n)
        } else {
            Err("stroke-width must be a positive finite number, got '"@ + v + "'"@)
        },
    }
}

pub fn parse_stroke_width_prop(v: &[char]) -> (r: Result<Num, String>)
    ensures
        match width_prop(v@) {
            Ok(n) => r is Ok && r->Ok_0@ == n,
            Err(m) => r is Err && r->Err_0@ == m,
        },
{
    match parse_num(trim(trim_end_matches(v, "px"))) {
        None => Err(cat3("invalid stroke-width: '", string_of(v).as_str(), "'")),
        Some(n) => if n.is_positive() {
            Ok(n)
        } else {
            Err(
                cat3(
                    "stroke-width must be a positive finite number, got '",
                    string_of(v).as_str(),
                    "'",
                ),
            )
        },
    }
}

/// One property `key:value`, without the white space around both.
pub open spec fn prop_of(item: Seq<char>) -> Result<(Seq<char>, Seq<char>), Seq<char>> {
    match first_index(item, ':') {
        None => Err("expected 'property:value', got '"@ + item + "'"@),
        Some(k) => Ok((trim_seq(item.take(k)), trim_seq(item.skip(k + 1)))),
    }
}

fn parse_prop<'a>(item: &'a [char]) -> (r: Result<(&'a [char], &'a [char]), String>)
    ensures
        match prop_of(item@) {
            Ok((k, v)) => r is Ok && r->Ok_0.0@ == k && r->Ok_0.1@ == v,
            Err(m) => r is Err && r->Err_0@ == m,
        },
{
    let n: usize = item.len();
    match find_char(item, ':') {
        None => Err(cat3("expected 'property:value', got '", string_of(item).as_str(), "'")),
        Some(k) => {
            let a = &item[0..k];
            let b = &item[k + 1..n];
            assert(a@ =~= item@.take(k as int));
            assert(b@ =~= item@.skip(k as int + 1));
            Ok((trim(a), trim(b)))
        },
    }
}

/// `st` with one node property set. Unknown properties are ignored.
pub open spec fn set_node_prop(st: NodeStyleView, k: Seq<char>, v: Seq<char>) -> Result<
    NodeStyleView,
    Seq<char>,
> {
    if k == "fill"@ {
        Ok(NodeStyleView { fill: Some(v), ..st })
    } else if k == "stroke"@ {
        Ok(NodeStyleView { stroke: Some(v), ..st })
    } else if k == "color"@ {
        Ok(NodeStyleView { color: Some(v), ..st })
    } else if k == "stroke-width"@ {
        match width_prop(v) {
            Ok(n) => Ok(NodeStyleView { stroke_width: Some(n), ..st }),
            Err(m) => Err(m),
        }
    } else {
        Ok(st)
    }
}

/// The node properties from piece `i` on, applied to `st` in order.
pub open spec fn node_props_from(p: Seq<Seq<char>>, i: int, st: NodeStyleView) -> Result<
    NodeStyleView,
    Seq<char>,
>
    decreases p.len() - i,
{
    if i < 0 || i >= p.len() {
        Ok(st)
    } else if trim_seq(p[i]).len() == 0 {
        node_props_from(p, i + 1, st)
    } else {
        match prop_of(trim_seq(p[i])) {
            Err(m) => Err(m),
            Ok((k, v)) => match set_node_prop(st, k, v) {
                Err(m) => Err(m),
                Ok(st) => node_props_from(p, i + 1, st),
            },
        }
    }
}

/// The node style that properties `k:v,k:v` write.
pub open spec fn node_props(s: Seq<char>) -> Result<NodeStyleView, Seq<char>> {
    match props_from(s, 0, 0, 0) {
        None => Err(open_paren(s)),
        Some(p) => node_props_from(p, 0, no_style()),
    }
}

fn apply_node_prop(st: &mut NodeStyle, k: &[char], v: &[char]) -> (r: Result<(), String>)
    ensures
        match set_node_prop(old(st)@, k@, v@) {
            Ok(s) => r is Ok && final(st)@ == s,
            Err(m) => r is Err && r->Err_0@ == m,
        },
{
    if eq(k, "fill") {
        st.fill = Some(string_of(v));
    } else if eq(k, "stroke") {
        st.stroke = Some(string_of(v));
    } else if eq(k, "color") {
        st.color = Some(string_of(v));
    } else if eq(k, "stroke-width") {
        match parse_stroke_width_prop(v) {
            Ok(n) => {
                st.stroke_width = Some(n);
            },
            Err(m) => {
                return Err(m);
            },
        }
    }
    Ok(())
}

pub fn parse_node_style_props(s: &[char]) -> (r: Result<NodeStyle, String>)
    ensures
        match node_props(s@) {
            Ok(st) => r is Ok && r->Ok_0@ == st,
            Err(m) => r is Err && r->Err_0@ == m,
        },
{
    let items = match split_props(s) {
        Ok(p) => p,
        Err(m) => {
            return Err(m);
        },
    };
    let ghost p = texts(items@);
    let mut st = NodeStyle::default();
    let mut i: usize = 0;
    while i < items.len()
        invariant
            i <= items@.len(),
            p == texts(items@),
            node_props(s@) == node_props_from(p, i as int, st@),
        decreases items@.len() - i,
    {
        assert(p[i as int] == items@[i as int]@);
        let item = trim(items[i]);
        if item.len() > 0 {
            match parse_prop(item) {
                Err(m) => {
                    return Err(m);
                },
                Ok((k, v)) => match apply_node_prop(&mut st, k, v) {
                    Ok(_) => {},
                    Err(m) => {
                        return Err(m);
                    },
                },
            }
        }
        i += 1;
    }
    Ok(st)
}

/// `st` with one edge property set. Unknown properties are ignored.
pub open spec fn set_edge_prop(st: EdgeStyleView, k: Seq<char>, v: Seq<char>) -> Result<
    EdgeStyleView,
    Seq<char>,
> {
    if k == "color"@ {
        Ok(EdgeStyleView { color: Some(v), ..st })
    } else if k == "stroke-width"@ {
        match width_prop(v) {
            Ok(n) => Ok(EdgeStyleView { stroke_width: Some(n), ..st }),
            Err(m) => Err(m),
        }
    } else if k == "dash"@ {
        Ok(EdgeStyleView { dash: Some(v), ..st })
    } else if k == "label-fill"@ {
        Ok(EdgeStyleView { label_fill: Some(v), ..st })
    } else {
        Ok(st)
    }
}

/// The edge properties from piece `i` on, applied to `st` in order.
pub open spec fn edge_props_from(p: Seq<Seq<char>>, i: int, st: EdgeStyleView) -> Result<
    EdgeStyleView,
    Seq<char>,
>
    decreases p.len() - i,
{
    if i < 0 || i >= p.len() {
        Ok(st)
    } else if trim_seq(p[i]).len() == 0 {
        edge_props_from(p, i + 1, st)
    } else {
        match prop_of(trim_seq(p[i])) {
            Err(m) => Err(m),
            Ok((k, v)) => match set_edge_prop(st, k, v) {
                Err(m) => Err(m),
                Ok(st) => edge_props_from(p, i + 1, st),
            },
        }
    }
}

/// The edge style that properties `k:v,k:v` write.
pub open spec fn edge_props(s: Seq<char>) -> Result<EdgeStyleView, Seq<char>> {
    match props_from(s, 0, 0, 0) {
        None => Err(open_paren(s)),
        Some(p) => edge_props_from(p, 0, no_edge_style()),
    }
}

fn apply_edge_prop(st: &mut AdvanceEdgeStyle, k: &[char], v: &[char]) -> (r: Result<(), String>)
    ensures
        match set_edge_prop(old(st)@, k@, v@) {
            Ok(s) => r is Ok && final(st)@ == s,
            Err(m) => r is Err && r->Err_0@ == m,
        },
{
    if eq(k, "color") {
        st.color = Some(string_of(v));
    } else if eq(k, "stroke-width") {
        match parse_stroke_width_prop(v) {
            Ok(n) => {
                st.stroke_width = Some(n);
            },
            Err(m) => {
                return Err(m);
            },
        }
    } else if eq(k, "dash") {
        st.dash = Some(string_of(v));
    } else if eq(k, "label-fill") {
        st.label_fill = Some(string_of(v));
    }
    Ok(())
}

pub fn parse_edge_style_props(s: &[char]) -> (r: Result<AdvanceEdgeStyle, String>)
    ensures
        match edge_props(s@) {
            Ok(st) => r is Ok && r->Ok_0@ == st,
            Err(m) => r is Err && r->Err_0@ == m,
        },
{
    let items = match split_props(s) {
        Ok(p) => p,
        Err(m) => {
            return Err(m);
        },
    };
    let ghost p = texts(items@);
    let mut st = AdvanceEdgeStyle::default();
    let mut i: usize = 0;
    while i < items.len()
        invariant
            i <= items@.len(),
            p == texts(items@),
            edge_props(s@) == edge_props_from(p, i as int, st@),
        decreases items@.len() - i,
    {
        assert(p[i as int] == items@[i as int]@);
        let item = trim(items[i]);
        if item.len() > 0 {
            match parse_prop(item) {
                Err(m) => {
                    return Err(m);
                },
                Ok((k, v)) => match apply_edge_prop(&mut st, k, v) {
                    Ok(_) => {},
                    Err(m) => {
                        return Err(m);
                    },
                },
            }
        }
        i += 1;
    }
    Ok(st)
}

/// What follows the keyword of a directive: its first word and the rest,
/// without the white space around both.
pub open spec fn directive(line: Seq<char>, keyword: Seq<char>) -> (Seq<char>, Seq<char>) {
    let (a, b) = cut_white_seq(trim_seq(strip_all_prefix(line, keyword)));
    (
        trim_seq(a),
        trim_seq(
            match b {
                Some(b) => b,
                None => Seq::empty(),
            },
        ),
    )
}

pub fn split_directive<'a>(line: &'a [char], keyword: &str) -> (r: (&'a [char], &'a [char]))
    ensures
        (r.0@, r.1@) == directive(line@, keyword@),
{
    let (a, b) = cut_white(trim(trim_start_matches(line, keyword)));
    (trim(a), trim(b))
}

/// The class that a `classDef` line defines.
pub open spec fn class_def(line: Seq<char>) -> Result<(Seq<char>, NodeStyleView), Seq<char>> {
    let (name, props) = directive(line, "classDef"@);
    if name.len() == 0 {
        Err("expected a class name after 'classDef'"@)
    } else {
        match node_props(props) {
            Ok(st) => Ok((name, st)),
            Err(m) => Err(m),
        }
    }
}

pub fn parse_class_def(line: &[char]) -> (r: Result<(String, NodeStyle), String>)
    ensures
        match class_def(line@) {
            Ok((n, st)) => r is Ok && r->Ok_0.0@ == n && r->Ok_0.1@ == st,
            Err(m) => r is Err && r->Err_0@ == m,
        },
{
    let (name, props) = split_directive(line, "classDef");
    if name.len() == 0 {
        return Err("expected a class name after 'classDef'".to_owned());
    }
    match parse_node_style_props(props) {
        Ok(st) => Ok((string_of(name), st)),
        Err(m) => Err(m),
    }
}

/// The ids from piece `i` on, each with the class.
pub open spec fn assigned_from(p: Seq<Seq<char>>, i: int, class: Seq<char>) -> Seq<
    (Seq<char>, Seq<char>),
>
    decreases p.len() - i,
{
    if i < 0 || i >= p.len() {
        seq![]
    } else if trim_seq(p[i]).len() == 0 {
        assigned_from(p, i + 1, class)
    } else {
        seq![(trim_seq(p[i]), class)] + assigned_from(p, i + 1, class)
    }
}

/// The assignments of a line `class id1,id2 className`.
pub open spec fn class_assign(line: Seq<char>) -> Result<Seq<(Seq<char>, Seq<char>)>, Seq<char>> {
    let (a, b) = rcut_white_seq(trim_seq(strip_all_prefix(line, "class"@)));
    let name = trim_seq(a);
    let ids = trim_seq(
        match b {
            Some(b) => b,
            None => Seq::empty(),
        },
    );
    if name.len() == 0 || ids.len() == 0 {
        Err("expected 'class id1,id2 className'"@)
    } else {
        Ok(assigned_from(split_seq(ids, ','), 0, name))
    }
}

/// Pairs of strings in mathematical terms.
pub open spec fn pairs(v: Seq<(String, String)>) -> Seq<(Seq<char>, Seq<char>)> {
    v.map_values(|p: (String, String)| (p.0@, p.1@))
}

pub fn parse_class_assign(line: &[char], assigns: &mut Vec<(String, String)>) -> (r: Result<
    (),
    String,
>)
    ensures
        match class_assign(line@) {
            Ok(a) => r is Ok && pairs(final(assigns)@) == pairs(old(assigns)@) + a,
            Err(m) => r is Err && r->Err_0@ == m,
        },
{
    let (a, b) = rcut_white(trim(trim_start_matches(line, "class")));
    let name = trim(a);
    let ids = trim(b);
    if name.len() == 0 || ids.len() == 0 {
        return Err("expected 'class id1,id2 className'".to_owned());
    }
    let items = split_char(ids, ',');
    let ghost p = texts(items@);
    let ghost start = pairs(assigns@);
    let mut i: usize = 0;
    while i < items.len()
        invariant
            i <= items@.len(),
            p == texts(items@),
            pairs(assigns@) + assigned_from(p, i as int, name@) == start + assigned_from(
                p,
                0,
                name@,
            ),
        decreases items@.len() - i,
    {
        assert(p[i as int] == items@[i as int]@);
        let id = trim(items[i]);
        if id.len() > 0 {
            let ghost before = assigns@;
            assigns.push((string_of(id), string_of(name)));
            assert(pairs(assigns@) =~= pairs(before).push((id@, name@)));
            assert(pairs(before) + (seq![(id@, name@)] + assigned_from(p, i as int + 1, name@))
                =~= pairs(assigns@) + assigned_from(p, i as int + 1, name@));
        }
        i += 1;
    }
    assert(pairs(assigns@) + assigned_from(p, i as int, name@) =~= pairs(assigns@));
    Ok(())
}

/// What a `style` line says: a style for a node, or for the edges between
/// two nodes.
pub enum StyleLine {
    Node(Seq<char>, NodeStyleView),
    Edge(Seq<char>, Seq<char>, EdgeStyleView),
}

/// The meaning of a line `style <target> <props>`, with a node id or
/// `from-->to` as target.
pub open spec fn style_line(line: Seq<char>) -> Result<StyleLine, Seq<char>> {
    let (target, props) = directive(line, "style"@);
    if target.len() == 0 {
        Err("expected a node id or 'from-->to' after 'style'"@)
    } else {
        match find_seq(target, "-->"@) {
            Some(k) => {
                let from = endpoint_id(target.take(k));
                let to = endpoint_id(target.skip(k + 3));
                if from.len() == 0 || to.len() == 0 {
                    Err("invalid edge target '"@ + target + "'"@)
                } else {
                    match edge_props(props) {
                        Ok(st) => Ok(StyleLine::Edge(from, to, st)),
                        Err(m) => Err(m),
                    }
                }
            },
            None => match node_props(props) {
                Ok(st) => Ok(StyleLine::Node(target, st)),
                Err(m) => Err(m),
            },
        }
    }
}

/// A parsed `style` line.
pub enum ParsedStyle {
    Node(String, NodeStyle),
    Edge(String, String, AdvanceEdgeStyle),
}

pub open spec fn parsed_style_view(p: ParsedStyle) -> StyleLine {
    match p {
        ParsedStyle::Node(id, st) => StyleLine::Node(id@, st@),
        ParsedStyle::Edge(f, t, st) => StyleLine::Edge(f@, t@, st@),
    }
}

pub fn parse_style_line(line: &[char]) -> (r: Result<ParsedStyle, String>)
    ensures
        match style_line(line@) {
            Ok(p) => r is Ok && parsed_style_view(r->Ok_0) == p,
            Err(m) => r is Err && r->Err_0@ == m,
        },
{
    proof {
        reveal_strlit("-->");
    }
    let (target, props) = split_directive(line, "style");
    if target.len() == 0 {
        return Err("expected a node id or 'from-->to' after 'style'".to_owned());
    }
    match find(target, "-->") {
        Some(k) => {
            let a = &target[0..k];
            let b = &target[k + 3..target.len()];
            assert(a@ =~= target@.take(k as int));
            assert(b@ =~= target@.skip(k as int + 3));
            let (from, _) = split_endpoint(a);
            let (to, _) = split_endpoint(b);
            if from.as_str().is_empty() || to.as_str().is_empty() {
                return Err(cat3("invalid edge target '", string_of(target).as_str(), "'"));
            }
            match parse_edge_style_props(props) {
                Ok(st) => Ok(ParsedStyle::Edge(from, to, st)),
                Err(m) => Err(m),
            }
        },
        None => match parse_node_style_props(props) {
            Ok(st) => Ok(ParsedStyle::Node(string_of(target), st)),
            Err(m) => Err(m),
        },
    }
}

/// The configuration after a line `config <key> <value>`.
pub open spec fn config_line(line: Seq<char>, c: ConfigView) -> Result<ConfigView, Seq<char>> {
    let (key, val) = directive(line, "config"@);
    if key.len() == 0 {
        Err("expected a config key after 'config'"@)
    } else if is_config_key(key) {
        match number(val) {
            Some(n) if non_negative(n) => Ok(set_config(c, key, n)),
            _ => Err("config."@ + key + " must be a non-negative finite number"@),
        }
    } else if key == "order"@ {
        match order_of(val) {
            Ok(order) => Ok(ConfigView { order, ..c }),
            Err(m) => Err(m),
        }
    } else {
        Ok(c)
    }
}

pub fn parse_text_config(line: &[char], config: &mut AdvanceConfig) -> (r: Result<(), String>)
    ensures
        match config_line(line@, old(config)@) {
            Ok(c) => r is Ok && final(config)@ == c,
            Err(m) => r is Err && r->Err_0@ == m,
        },
{
    let (k, val) = split_directive(line, "config");
    let key = string_of(k);
    if k.len() == 0 {
        return Err("expected a config key after 'config'".to_owned());
    }
    if AdvanceConfig::is_number_key(key.as_str()) {
        if let Some(n) = parse_num(val) {
            if n.is_non_negative() {
                config.set_number(key.as_str(), n);
                return Ok(());
            }
        }
        return Err(cat3("config.", key.as_str(), " must be a non-negative finite number"));
    }
    if eq(k, "order") {
        match parse_order(string_of(val).as_str()) {
            Ok(o) => {
                config.order = o;
            },
            Err(m) => {
                return Err(m);
            },
        }
    }
    Ok(())
}

} // verus!
