//! Graphs as mermaid flowchart text: node declarations, subgraph blocks,
//! edges and style lines, in a canonical order.
//!
//! Characters that the grammar reserves are written as entity codes. What
//! mermaid text cannot carry is left out or replaced: blank edge labels,
//! stray control characters, style values with a comma outside parentheses,
//! a control character or unbalanced parentheses, and stroke widths that are
//! not finite.

pub mod checks;
pub mod label;
pub mod laws;
pub mod text_laws;

use crate::emit::label::{blank, edge_label, edge_slot, flat, flatten, is_blank, label_text, quoted_label};
use crate::model::{
    opt_text, Direction, Edge, EdgeKind, End, Graph, Node, NodeStyle, NodeStyleView, Shape,
    SubEdge, Subgraph,
};
use crate::peel_laws::partial;
use crate::text::{
    chars_of, control, eq_ignore_case, is_control, join_seq, lower, str_eq, string_of, strings, trim,
    trim_seq,
};
use vstd::prelude::*;

verus! {

/// The word for a flow direction.
pub open spec fn direction_word(d: Direction) -> Seq<char> {
    match d {
        Direction::TD => "TD"@,
        Direction::LR => "LR"@,
        Direction::RL => "RL"@,
        Direction::BT => "BT"@,
    }
}

fn dir_token(d: Direction) -> (r: &'static str)
    ensures
        r@ == direction_word(d),
{
    match d {
        Direction::TD => "TD",
        Direction::LR => "LR",
        Direction::RL => "RL",
        Direction::BT => "BT",
    }
}

/// Whether `id` is a word that starts a statement, letter case aside.
pub open spec fn reserved(id: Seq<char>) -> bool {
    ||| lower(id) == lower("end"@)
    ||| lower(id) == lower("subgraph"@)
    ||| lower(id) == lower("direction"@)
    ||| lower(id) == lower("style"@)
    ||| lower(id) == lower("classDef"@)
    ||| lower(id) == lower("class"@)
    ||| lower(id) == lower("flowchart"@)
    ||| lower(id) == lower("graph"@)
}

fn is_reserved(id: &str) -> (r: bool)
    ensures
        r == reserved(id@),
{
    let c = chars_of(id);
    let s = c.as_slice();
    eq_ignore_case(s, "end") || eq_ignore_case(s, "subgraph") || eq_ignore_case(s, "direction")
        || eq_ignore_case(s, "style") || eq_ignore_case(s, "classDef") || eq_ignore_case(s, "class")
        || eq_ignore_case(s, "flowchart") || eq_ignore_case(s, "graph")
}

/// The delimiters that stand for a shape. Shapes without a form of their own
/// take the nearest look-alike.
pub open spec fn delimiters(s: Shape) -> (Seq<char>, Seq<char>) {
    match s {
        Shape::Rect | Shape::ForkBar => ("["@, "]"@),
        Shape::Rounded => ("("@, ")"@),
        Shape::Stadium => ("(["@, "])"@),
        Shape::Diamond => ("{"@, "}"@),
        Shape::Circle | Shape::StateStart | Shape::StateEnd => ("(("@, "))"@),
        Shape::DoubleCircle => ("((("@, ")))"@),
        Shape::Cylinder => ("[("@, ")]"@),
        Shape::Subroutine => ("[["@, "]]"@),
        Shape::Hexagon => ("{{"@, "}}"@),
        Shape::Parallelogram => ("[/"@, "/]"@),
        Shape::ParallelogramAlt => ("[\\"@, "\\]"@),
    }
}

fn shape_delims(s: Shape) -> (r: (&'static str, &'static str))
    ensures
        (r.0@, r.1@) == delimiters(s),
{
    match s {
        Shape::Rect | Shape::ForkBar => ("[", "]"),
        Shape::Rounded => ("(", ")"),
        Shape::Stadium => ("([", "])"),
        Shape::Diamond => ("{", "}"),
        Shape::Circle | Shape::StateStart | Shape::StateEnd => ("((", "))"),
        Shape::DoubleCircle => ("(((", ")))"),
        Shape::Cylinder => ("[(", ")]"),
        Shape::Subroutine => ("[[", "]]"),
        Shape::Hexagon => ("{{", "}}"),
        Shape::Parallelogram => ("[/", "/]"),
        Shape::ParallelogramAlt => ("[\\", "\\]"),
    }
}

/// A node where it is declared: the bare id where that says everything, else
/// the id with its quoted label in shape delimiters.
pub open spec fn node_text(n: Node) -> Seq<char> {
    if n.label@ == n.id@ && n.shape == Shape::Rect && !reserved(n.id@) {
        n.id@
    } else {
        n.id@ + delimiters(n.shape).0 + quoted_label(n.label@) + delimiters(n.shape).1
    }
}

fn node_ref(n: &Node) -> (r: String)
    ensures
        r@ == node_text(*n),
{
    let plain = match n.shape {
        Shape::Rect => true,
        _ => false,
    };
    if str_eq(n.label.as_str(), n.id.as_str()) && plain && !is_reserved(n.id.as_str()) {
        return n.id.clone();
    }
    let (open, close) = shape_delims(n.shape);
    let mut r = n.id.clone();
    r.append(open);
    r.append(label_text(n.label.as_str()).as_str());
    r.append(close);
    r
}

/// A node where it is only named. A reserved id takes the declared form.
pub open spec fn endpoint_text(n: Node) -> Seq<char> {
    if reserved(n.id@) {
        node_text(n)
    } else {
        n.id@
    }
}

fn endpoint(n: &Node) -> (r: String)
    ensures
        r@ == endpoint_text(*n),
{
    if is_reserved(n.id.as_str()) {
        node_ref(n)
    } else {
        n.id.clone()
    }
}

/// One end of an edge that may touch a subgraph.
pub open spec fn end_text(g: Graph, e: End) -> Seq<char> {
    match e {
        End::Node(v) => endpoint_text(g.nodes@[v as int]),
        End::Sub(s) => g.subgraphs@[s as int].id@,
    }
}

/// Whether an end names something in the graph.
pub open spec fn end_exists(g: Graph, e: End) -> bool {
    match e {
        End::Node(v) => v < g.nodes@.len(),
        End::Sub(s) => s < g.subgraphs@.len(),
    }
}

fn end_ref(g: &Graph, e: End) -> (r: String)
    requires
        end_exists(*g, e),
    ensures
        r@ == end_text(*g, e),
{
    match e {
        End::Node(v) => endpoint(&g.nodes[v]),
        End::Sub(s) => g.subgraphs[s].id.clone(),
    }
}

/// The operator of an edge kind.
pub open spec fn operator(kind: EdgeKind) -> Seq<char> {
    match kind {
        EdgeKind::Arrow => "-->"@,
        EdgeKind::Open => "---"@,
        EdgeKind::Dotted => "-.->"@,
        EdgeKind::DottedOpen => "-.-"@,
        EdgeKind::Thick => "==>"@,
        EdgeKind::ThickOpen => "==="@,
        EdgeKind::Invisible => "~~~"@,
    }
}

/// An edge's operator with its label.
pub open spec fn edge_op(kind: EdgeKind, label: Option<Seq<char>>) -> Seq<char> {
    " "@ + operator(kind) + edge_slot(label) + " "@
}

fn push_edge_op(out: &mut String, kind: EdgeKind, label: &Option<String>)
    ensures
        final(out)@ == old(out)@ + edge_op(kind, opt_text(*label)),
{
    let ghost before = out@;
    let op = match kind {
        EdgeKind::Arrow => "-->",
        EdgeKind::Open => "---",
        EdgeKind::Dotted => "-.->",
        EdgeKind::DottedOpen => "-.-",
        EdgeKind::Thick => "==>",
        EdgeKind::ThickOpen => "===",
        EdgeKind::Invisible => "~~~",
    };
    out.append(" ");
    out.append(op);
    out.append(edge_label(label).as_str());
    out.append(" ");
    assert(out@ =~= before + edge_op(kind, opt_text(*label)));
}

/// Whether a style value, judged without its outer white space, can stand in
/// a style line: `i` is how far it was read, `depth` how many parentheses
/// are open.
pub open spec fn value_fits_from(v: Seq<char>, i: int, depth: int) -> bool
    decreases v.len() - i,
{
    if i < 0 || i >= v.len() {
        depth == 0
    } else if is_control(v[i]) {
        false
    } else if v[i] == '(' {
        value_fits_from(v, i + 1, depth + 1)
    } else if v[i] == ')' {
        depth > 0 && value_fits_from(v, i + 1, depth - 1)
    } else if v[i] == ',' && depth == 0 {
        false
    } else {
        value_fits_from(v, i + 1, depth)
    }
}

/// Whether a style value can stand in a style line: it is not blank, holds
/// no control character, balances its parentheses and has commas only inside
/// them.
pub open spec fn value_fits(v: Seq<char>) -> bool {
    let t = trim_seq(v);
    t.len() > 0 && value_fits_from(t, 0, 0)
}

pub fn style_value_ok(v: &str) -> (r: bool)
    ensures
        r == value_fits(v@),
{
    let chars = chars_of(v);
    let t = trim(chars.as_slice());
    if t.len() == 0 {
        return false;
    }
    let mut depth: usize = 0;
    let mut i: usize = 0;
    while i < t.len()
        invariant
            t@ == trim_seq(v@),
            t@.len() > 0,
            i <= t@.len(),
            depth <= i,
            value_fits(v@) == value_fits_from(t@, i as int, depth as int),
        decreases t@.len() - i,
    {
        let c = t[i];
        if control(c) {
            return false;
        }
        if c == '(' {
            depth += 1;
        } else if c == ')' {
            if depth == 0 {
                return false;
            }
            depth -= 1;
        } else if c == ',' && depth == 0 {
            return false;
        }
        i += 1;
    }
    depth == 0
}

/// The part of a style line for one color, if it can be written.
pub open spec fn color_part(key: Seq<char>, v: Option<Seq<char>>) -> Seq<Seq<char>> {
    match v {
        Some(f) => {
            if value_fits(f) {
                seq![key + trim_seq(f)]
            } else {
                seq![]
            }
        },
        None => seq![],
    }
}

/// The part of a style line for the stroke width, if it is finite.
pub open spec fn width_part(w: Option<Seq<char>>) -> Seq<Seq<char>> {
    match w {
        Some(n) => {
            if crate::num::finite(n) {
                seq!["stroke-width:"@ + n + "px"@]
            } else {
                seq![]
            }
        },
        None => seq![],
    }
}

/// The parts of a style line in their order.
pub open spec fn style_parts(st: NodeStyleView) -> Seq<Seq<char>> {
    color_part("fill:"@, st.fill) + color_part("stroke:"@, st.stroke) + width_part(st.stroke_width)
        + color_part("color:"@, st.color)
}

fn put_color(parts: &mut Vec<String>, key: &str, v: &Option<String>)
    ensures
        strings(final(parts)@) == strings(old(parts)@) + color_part(key@, opt_text(*v)),
{
    let ghost before = strings(parts@);
    if let Some(f) = v {
        if style_value_ok(f.as_str()) {
            let chars = chars_of(f.as_str());
            let mut part = key.to_owned();
            part.append(string_of(trim(chars.as_slice())).as_str());
            parts.push(part);
        }
    }
    assert(strings(parts@) =~= before + color_part(key@, opt_text(*v)));
}

fn join_commas(parts: &Vec<String>) -> (r: String)
    ensures
        r@ == join_seq(strings(parts@), ","@),
{
    let ghost all = strings(parts@);
    if parts.len() == 0 {
        let r = String::new();
        assert(r@ =~= join_seq(all, ","@));
        return r;
    }
    let mut r = parts[0].clone();
    let mut i: usize = 1;
    assert(all.take(1) =~= seq![all[0]]);
    while i < parts.len()
        invariant
            1 <= i <= parts@.len(),
            all == strings(parts@),
            r@ == join_seq(all.take(i as int), ","@),
        decreases parts@.len() - i,
    {
        assert(all.take(i + 1).drop_last() =~= all.take(i as int));
        assert(all.take(i + 1).last() == parts@[i as int]@);
        r.append(",");
        r.append(parts[i].as_str());
        i += 1;
    }
    assert(all.take(all.len() as int) =~= all);
    r
}

/// The properties of a style line, in the order fill, stroke, stroke width,
/// color; nothing where none can be written.
pub fn style_props(st: &NodeStyle) -> (r: Option<String>)
    ensures
        opt_text(r) == (if style_parts(st@).len() == 0 {
            None
        } else {
            Some(join_seq(style_parts(st@), ","@))
        }),
{
    let mut parts: Vec<String> = Vec::new();
    assert(strings(parts@) =~= Seq::empty());
    put_color(&mut parts, "fill:", &st.fill);
    put_color(&mut parts, "stroke:", &st.stroke);
    let ghost before = strings(parts@);
    if let Some(w) = &st.stroke_width {
        if w.is_finite() {
            let mut part = "stroke-width:".to_owned();
            part.append(w.text.as_str());
            part.append("px");
            parts.push(part);
        }
    }
    assert(strings(parts@) =~= before + width_part(st@.stroke_width));
    put_color(&mut parts, "color:", &st.color);
    assert(strings(parts@) =~= style_parts(st@));
    if parts.len() == 0 {
        None
    } else {
        Some(join_commas(&parts))
    }
}

/// Subgraph blocks that were emitted: which ones in which order, and the
/// text so far.
#[verifier::ext_equal]
pub struct Emitted {
    pub order: Seq<int>,
    pub text: Seq<char>,
}

/// The title of a subgraph where it says more than the id.
pub open spec fn title_text(s: Subgraph) -> Seq<char> {
    if s.title@ == s.id@ {
        Seq::empty()
    } else if is_blank(s.title@) {
        "[\"\"]"@
    } else {
        "["@ + quoted_label(flat(s.title@)) + "]"@
    }
}

/// The direction line of a subgraph that has its own direction.
pub open spec fn direction_text(s: Subgraph, pad: Seq<char>) -> Seq<char> {
    match s.direction {
        Some(d) => pad + "    direction "@ + direction_word(d) + "\n"@,
        None => Seq::empty(),
    }
}

/// The lines of the first `k` members of a subgraph.
pub open spec fn members_text(g: Graph, s: Subgraph, pad: Seq<char>, k: int) -> Seq<char>
    decreases k,
{
    if k <= 0 {
        Seq::empty()
    } else {
        members_text(g, s, pad, k - 1) + pad + "    "@ + endpoint_text(
            g.nodes@[s.nodes@[k - 1] as int],
        ) + "\n"@
    }
}

/// A block up to the blocks inside it.
pub open spec fn opening(g: Graph, si: int, pad: Seq<char>) -> Seq<char> {
    let s = g.subgraphs@[si];
    pad + "subgraph "@ + s.id@ + title_text(s) + "\n"@ + direction_text(s, pad) + members_text(
        g,
        s,
        pad,
        s.nodes@.len() as int,
    )
}

/// Whether subgraph `c` is nested directly in subgraph `si`.
pub open spec fn nested_in(g: Graph, c: int, si: int) -> bool {
    g.subgraphs@[c].parent matches Some(p) && p == si
}

/// Emit the block of subgraph `si`, with the blocks inside it, unless it was
/// emitted already.
pub open spec fn block(g: Graph, si: int, pad: Seq<char>, e: Emitted) -> Emitted
    decreases g.subgraphs@.len() - e.order.len(), 0int,
{
    if si < 0 || si >= g.subgraphs@.len() || e.order.contains(si) || e.order.len()
        >= g.subgraphs@.len() {
        e
    } else {
        let opened = Emitted { order: e.order.push(si), text: e.text + opening(g, si, pad) };
        let filled = inner(g, si, pad + "    "@, 0, opened);
        Emitted { order: filled.order, text: filled.text + pad + "end\n"@ }
    }
}

/// Emit the blocks inside subgraph `si`, from subgraph `c` on.
pub open spec fn inner(g: Graph, si: int, pad: Seq<char>, c: int, e: Emitted) -> Emitted
    decreases g.subgraphs@.len() - e.order.len(), g.subgraphs@.len() - c + 1,
{
    if c < 0 || c >= g.subgraphs@.len() {
        e
    } else {
        let next = if nested_in(g, c, si) {
            block(g, c, pad, e)
        } else {
            e
        };
        if e.order.len() <= next.order.len() <= g.subgraphs@.len() {
            inner(g, si, pad, c + 1, next)
        } else {
            next
        }
    }
}

/// Emit the blocks of the first `k` subgraphs that are nested in none.
pub open spec fn roots(g: Graph, k: int, e: Emitted) -> Emitted
    decreases k,
{
    if k <= 0 {
        e
    } else if g.subgraphs@[k - 1].parent is None {
        block(g, k - 1, "    "@, roots(g, k - 1, e))
    } else {
        roots(g, k - 1, e)
    }
}

/// Emit the blocks of the first `k` subgraphs that are still missing.
pub open spec fn strays(g: Graph, k: int, e: Emitted) -> Emitted
    decreases k,
{
    if k <= 0 {
        e
    } else {
        block(g, k - 1, "    "@, strays(g, k - 1, e))
    }
}

/// Whether every index in the graph points at something in it.
pub open spec fn indices_exist(g: Graph) -> bool {
    &&& forall|i: int|
        0 <= i < g.edges@.len() ==> (#[trigger] g.edges@[i]).from < g.nodes@.len() && g.edges@[i].to
            < g.nodes@.len()
    &&& forall|i: int|
        0 <= i < g.sub_edges@.len() ==> end_exists(g, (#[trigger] g.sub_edges@[i]).from)
            && end_exists(g, g.sub_edges@[i].to)
    &&& forall|i: int, j: int|
        0 <= i < g.subgraphs@.len() && 0 <= j < g.subgraphs@[i].nodes@.len()
            ==> #[trigger] g.subgraphs@[i].nodes@[j] < g.nodes@.len()
}

/// Subgraph blocks while they are emitted.
struct Emission {
    visited: Vec<bool>,
    order: Ghost<Seq<int>>,
    text: String,
}

impl View for Emission {
    type V = Emitted;

    closed spec fn view(&self) -> Emitted {
        Emitted { order: self.order@, text: self.text@ }
    }
}

impl Emission {
    spec fn wf(self, n: int) -> bool {
        &&& self.visited@.len() == n
        &&& partial(self.order@, n)
        &&& forall|i: int| 0 <= i < n ==> #[trigger] self.visited@[i] == self.order@.contains(i)
    }
}

/// Distinct numbers below `n` are fewer than `n` while one is missing.
pub proof fn lemma_room(s: Seq<int>, n: int, v: int)
    requires
        partial(s, n),
        0 <= v < n,
        !s.contains(v),
    ensures
        s.len() < n,
        partial(s.push(v), n),
{
    let t = s.push(v);
    assert(t.no_duplicates());
    s.unique_seq_to_set();
    let all = vstd::set_lib::set_int_range(0, n);
    vstd::set_lib::lemma_int_range(0, n);
    assert(s.to_set().subset_of(all.remove(v))) by {
        assert forall|u: int| s.to_set().contains(u) implies all.remove(v).contains(u) by {
            let i = choose|i: int| 0 <= i < s.len() && s[i] == u;
            assert(0 <= s[i] < n);
        }
    }
    vstd::set_lib::lemma_len_subset(s.to_set(), all.remove(v));
}

fn title_part(s: &Subgraph) -> (r: String)
    ensures
        r@ == title_text(*s),
{
    if str_eq(s.title.as_str(), s.id.as_str()) {
        let r = String::new();
        assert(r@ =~= Seq::empty());
        return r;
    }
    if blank(s.title.as_str()) {
        return "[\"\"]".to_owned();
    }
    let mut r = "[".to_owned();
    r.append(label_text(flatten(s.title.as_str()).as_str()).as_str());
    r.append("]");
    r
}

fn direction_part(s: &Subgraph, pad: &str) -> (r: String)
    ensures
        r@ == direction_text(*s, pad@),
{
    match s.direction {
        Some(d) => {
            let mut r = pad.to_owned();
            r.append("    direction ");
            r.append(dir_token(d));
            r.append("\n");
            r
        },
        None => {
            let r = String::new();
            assert(r@ =~= Seq::empty());
            r
        },
    }
}

fn members_part(g: &Graph, s: &Subgraph, pad: &str) -> (r: String)
    requires
        forall|j: int|
            0 <= j < s.nodes@.len() ==> (#[trigger] s.nodes@[j]) < g.nodes@.len(),
    ensures
        r@ == members_text(*g, *s, pad@, s.nodes@.len() as int),
{
    let mut out = String::new();
    let mut j: usize = 0;
    assert(out@ =~= members_text(*g, *s, pad@, 0));
    while j < s.nodes.len()
        invariant
            forall|j: int|
                0 <= j < s.nodes@.len() ==> (#[trigger] s.nodes@[j]) < g.nodes@.len(),
            j <= s.nodes@.len(),
            out@ == members_text(*g, *s, pad@, j as int),
        decreases s.nodes@.len() - j,
    {
        let m: usize = s.nodes[j];
        out.append(pad);
        out.append("    ");
        out.append(endpoint(&g.nodes[m]).as_str());
        out.append("\n");
        j += 1;
    }
    out
}

fn open_block(g: &Graph, si: usize, pad: &str) -> (r: String)
    requires
        indices_exist(*g),
        si < g.subgraphs@.len(),
    ensures
        r@ == opening(*g, si as int, pad@),
{
    let s = &g.subgraphs[si];
    proof {
        assert forall|j: int| 0 <= j < s.nodes@.len() implies (#[trigger] s.nodes@[j])
            < g.nodes@.len() by {
            assert(g.subgraphs@[si as int].nodes@[j] < g.nodes@.len());
        }
    }
    let mut out = pad.to_owned();
    out.append("subgraph ");
    out.append(s.id.as_str());
    out.append(title_part(s).as_str());
    out.append("\n");
    out.append(direction_part(s, pad).as_str());
    out.append(members_part(g, s, pad).as_str());
    out
}

fn emit_subgraph(g: &Graph, si: usize, pad: &str, e: &mut Emission)
    requires
        indices_exist(*g),
        si < g.subgraphs@.len(),
        old(e).wf(g.subgraphs@.len() as int),
    ensures
        final(e)@ == block(*g, si as int, pad@, old(e)@),
        final(e).wf(g.subgraphs@.len() as int),
        final(e)@.order.len() >= old(e)@.order.len(),
    decreases g.subgraphs@.len() - old(e)@.order.len(),
{
    if e.visited[si] {
        return ;
    }
    let ghost n = g.subgraphs@.len() as int;
    proof {
        lemma_room(e.order@, n, si as int);
    }
    let ghost start = e@;
    let head = open_block(g, si, pad);
    e.text.append(head.as_str());
    e.visited.set(si, true);
    proof {
        let ghost longer = e.order@.push(si as int);
        assert forall|i: int| 0 <= i < n implies #[trigger] e.visited@[i] == longer.contains(i) by {
            if i != si {
                if longer.contains(i) {
                    let j = choose|j: int| 0 <= j < longer.len() && longer[j] == i;
                    assert(j < start.order.len());
                    assert(start.order[j] == i);
                }
                if start.order.contains(i) {
                    let j = choose|j: int| 0 <= j < start.order.len() && start.order[j] == i;
                    assert(longer[j] == i);
                }
            } else {
                assert(longer[start.order.len() as int] == i);
            }
        }
        e.order@ = longer;
    }
    let ghost opened = e@;
    let mut deeper = pad.to_owned();
    deeper.append("    ");
    let mut c: usize = 0;
    let count: usize = g.subgraphs.len();
    while c < count
        invariant
            count == g.subgraphs@.len(),
            indices_exist(*g),
            c <= count,
            si < count,
            e.wf(count as int),
            deeper@ == pad@ + "    "@,
            opened.order.len() == start.order.len() + 1,
            start.order == old(e)@.order,
            e@.order.len() >= opened.order.len(),
            inner(*g, si as int, deeper@, c as int, e@) == inner(*g, si as int, deeper@, 0, opened),
        decreases count - c,
    {
        proof {
            lemma_at_most(e.order@, count as int);
        }
        let nested = match g.subgraphs[c].parent {
            Some(p) => p == si,
            None => false,
        };
        assert(nested == nested_in(*g, c as int, si as int));
        if nested {
            emit_subgraph(g, c, deeper.as_str(), e);
        }
        proof {
            lemma_at_most(e.order@, count as int);
        }
        c += 1;
    }
    e.text.append(pad);
    e.text.append("end\n");
}

/// Distinct numbers below `n` are at most `n`.
pub proof fn lemma_at_most(s: Seq<int>, n: int)
    requires
        partial(s, n),
        0 <= n,
    ensures
        s.len() <= n,
{
    s.unique_seq_to_set();
    let all = vstd::set_lib::set_int_range(0, n);
    vstd::set_lib::lemma_int_range(0, n);
    assert(s.to_set().subset_of(all)) by {
        assert forall|u: int| s.to_set().contains(u) implies all.contains(u) by {
            let i = choose|i: int| 0 <= i < s.len() && s[i] == u;
            assert(0 <= s[i] < n);
        }
    }
    vstd::set_lib::lemma_len_subset(s.to_set(), all);
}

/// The lines that declare the first `k` nodes.
pub open spec fn node_lines(nodes: Seq<Node>, k: int) -> Seq<char>
    decreases k,
{
    if k <= 0 {
        Seq::empty()
    } else {
        node_lines(nodes, k - 1) + "    "@ + node_text(nodes[k - 1]) + "\n"@
    }
}

/// The lines of the first `k` edges.
pub open spec fn edge_lines(nodes: Seq<Node>, edges: Seq<Edge>, k: int) -> Seq<char>
    decreases k,
{
    if k <= 0 {
        Seq::empty()
    } else {
        let e = edges[k - 1];
        edge_lines(nodes, edges, k - 1) + "    "@ + endpoint_text(nodes[e.from as int]) + edge_op(
            e.kind,
            opt_text(e.label),
        ) + endpoint_text(nodes[e.to as int]) + "\n"@
    }
}

/// The lines of the first `k` edges that touch subgraphs.
pub open spec fn sub_edge_lines(g: Graph, k: int) -> Seq<char>
    decreases k,
{
    if k <= 0 {
        Seq::empty()
    } else {
        let e = g.sub_edges@[k - 1];
        sub_edge_lines(g, k - 1) + "    "@ + end_text(g, e.from) + edge_op(
            e.kind,
            opt_text(e.label),
        ) + end_text(g, e.to) + "\n"@
    }
}

/// The style line of a node, where it has one.
pub open spec fn style_line(n: Node) -> Seq<char> {
    if style_parts(n.style@).len() == 0 {
        Seq::empty()
    } else {
        "    style "@ + n.id@ + " "@ + join_seq(style_parts(n.style@), ","@) + "\n"@
    }
}

/// The style lines of the first `k` nodes.
pub open spec fn style_lines(nodes: Seq<Node>, k: int) -> Seq<char>
    decreases k,
{
    if k <= 0 {
        Seq::empty()
    } else {
        style_lines(nodes, k - 1) + style_line(nodes[k - 1])
    }
}

/// The subgraph blocks of a graph: first those nested in none, then those
/// that were not reached.
pub open spec fn blocks(g: Graph) -> Emitted {
    let n = g.subgraphs@.len() as int;
    strays(g, n, roots(g, n, Emitted { order: Seq::empty(), text: Seq::empty() }))
}

/// The canonical mermaid text of a graph.
pub open spec fn mermaid(g: Graph) -> Seq<char> {
    "flowchart "@ + direction_word(g.direction) + "\n"@ + node_lines(
        g.nodes@,
        g.nodes@.len() as int,
    ) + blocks(g).text + edge_lines(g.nodes@, g.edges@, g.edges@.len() as int) + sub_edge_lines(
        g,
        g.sub_edges@.len() as int,
    ) + style_lines(g.nodes@, g.nodes@.len() as int)
}

fn emit_nodes(g: &Graph) -> (r: String)
    ensures
        r@ == node_lines(g.nodes@, g.nodes@.len() as int),
{
    let mut out = String::new();
    let mut i: usize = 0;
    assert(out@ =~= node_lines(g.nodes@, 0));
    while i < g.nodes.len()
        invariant
            i <= g.nodes@.len(),
            out@ == node_lines(g.nodes@, i as int),
        decreases g.nodes@.len() - i,
    {
        out.append("    ");
        out.append(node_ref(&g.nodes[i]).as_str());
        out.append("\n");
        i += 1;
    }
    out
}

fn emit_blocks(g: &Graph) -> (r: String)
    requires
        indices_exist(*g),
    ensures
        r@ == blocks(*g).text,
{
    let n: usize = g.subgraphs.len();
    let mut visited: Vec<bool> = Vec::new();
    let mut i: usize = 0;
    while i < n
        invariant
            i <= n,
            visited@.len() == i,
            forall|j: int| 0 <= j < i ==> !(#[trigger] visited@[j]),
        decreases n - i,
    {
        visited.push(false);
        i += 1;
    }
    let mut e = Emission { visited, order: Ghost(Seq::empty()), text: String::new() };
    let ghost none = Emitted { order: Seq::empty(), text: Seq::empty() };
    assert(e@ =~= none);
    let mut r: usize = 0;
    while r < n
        invariant
            n == g.subgraphs@.len(),
            indices_exist(*g),
            r <= n,
            e.wf(n as int),
            none == (Emitted { order: Seq::empty(), text: Seq::empty() }),
            e@ == roots(*g, r as int, none),
        decreases n - r,
    {
        if g.subgraphs[r].parent.is_none() {
            emit_subgraph(g, r, "    ", &mut e);
        }
        r += 1;
    }
    let ghost rooted = e@;
    let mut r: usize = 0;
    while r < n
        invariant
            n == g.subgraphs@.len(),
            indices_exist(*g),
            r <= n,
            e.wf(n as int),
            e@ == strays(*g, r as int, rooted),
        decreases n - r,
    {
        emit_subgraph(g, r, "    ", &mut e);
        r += 1;
    }
    e.text
}

fn emit_edges(g: &Graph) -> (r: String)
    requires
        indices_exist(*g),
    ensures
        r@ == edge_lines(g.nodes@, g.edges@, g.edges@.len() as int),
{
    let mut out = String::new();
    let mut i: usize = 0;
    assert(out@ =~= edge_lines(g.nodes@, g.edges@, 0));
    while i < g.edges.len()
        invariant
            indices_exist(*g),
            i <= g.edges@.len(),
            out@ == edge_lines(g.nodes@, g.edges@, i as int),
        decreases g.edges@.len() - i,
    {
        let e = &g.edges[i];
        assert(g.edges@[i as int].from < g.nodes@.len());
        out.append("    ");
        out.append(endpoint(&g.nodes[e.from]).as_str());
        push_edge_op(&mut out, e.kind, &e.label);
        out.append(endpoint(&g.nodes[e.to]).as_str());
        out.append("\n");
        i += 1;
    }
    out
}

fn emit_sub_edges(g: &Graph) -> (r: String)
    requires
        indices_exist(*g),
    ensures
        r@ == sub_edge_lines(*g, g.sub_edges@.len() as int),
{
    let mut out = String::new();
    let mut i: usize = 0;
    assert(out@ =~= sub_edge_lines(*g, 0));
    while i < g.sub_edges.len()
        invariant
            indices_exist(*g),
            i <= g.sub_edges@.len(),
            out@ == sub_edge_lines(*g, i as int),
        decreases g.sub_edges@.len() - i,
    {
        let e: &SubEdge = &g.sub_edges[i];
        assert(end_exists(*g, g.sub_edges@[i as int].from));
        out.append("    ");
        out.append(end_ref(g, e.from).as_str());
        push_edge_op(&mut out, e.kind, &e.label);
        out.append(end_ref(g, e.to).as_str());
        out.append("\n");
        i += 1;
    }
    out
}

fn emit_styles(g: &Graph) -> (r: String)
    ensures
        r@ == style_lines(g.nodes@, g.nodes@.len() as int),
{
    let mut out = String::new();
    let mut i: usize = 0;
    assert(out@ =~= style_lines(g.nodes@, 0));
    while i < g.nodes.len()
        invariant
            i <= g.nodes@.len(),
            out@ == style_lines(g.nodes@, i as int),
        decreases g.nodes@.len() - i,
    {
        let ghost before = out@;
        let n = &g.nodes[i];
        if let Some(props) = style_props(&n.style) {
            out.append("    style ");
            out.append(n.id.as_str());
            out.append(" ");
            out.append(props.as_str());
            out.append("\n");
        }
        assert(out@ =~= before + style_line(g.nodes@[i as int]));
        i += 1;
    }
    out
}

/// Emit canonical mermaid flowchart text for `g`.
pub fn to_mermaid(g: &Graph) -> (r: String)
    requires
        indices_exist(*g),
    ensures
        r@ == mermaid(*g),
{
    let mut out = "flowchart ".to_owned();
    out.append(dir_token(g.direction));
    out.append("\n");
    out.append(emit_nodes(g).as_str());
    out.append(emit_blocks(g).as_str());
    out.append(emit_edges(g).as_str());
    out.append(emit_sub_edges(g).as_str());
    out.append(emit_styles(g).as_str());
    out
}

} // verus!
