//! What emitted text says of a graph.

use vstd::prelude::*;

use crate::emit::label::{
    cleaned, coded, edge_slot, flat, is_blank, label_body, slot_body, with_breaks,
};
use crate::emit::{
    blocks, color_part, delimiters, direction_word, edge_lines, edge_op, end_text, endpoint_text,
    mermaid, node_lines, node_text, operator, reserved, style_line, style_lines, style_parts,
    sub_edge_lines, value_fits, width_part,
};
use crate::model::{opt_text, Direction, Edge, EdgeKind, End, Graph, Node, Shape};
use crate::text::{is_white, join_seq, occurs_at, trim_end_seq, trim_seq};

verus! {

/// Whether an edge of this kind has a head.
pub open spec fn headed(kind: EdgeKind) -> bool {
    kind is Arrow || kind is Dotted || kind is Thick
}

/// Whether an edge of this kind is drawn in dots.
pub open spec fn in_dots(kind: EdgeKind) -> bool {
    kind is Dotted || kind is DottedOpen
}

/// Whether an edge of this kind is drawn heavily.
pub open spec fn heavy(kind: EdgeKind) -> bool {
    kind is Thick || kind is ThickOpen
}

/// Whether an operator shows how edges of a kind look: it ends in `>` where
/// they have a head, holds a `.` where they are dotted, is made of `=` where
/// they are thick, of `~` where they are not seen, else of `-`.
pub open spec fn shows(o: Seq<char>, kind: EdgeKind) -> bool {
    &&& 3 <= o.len() <= 4
    &&& o.contains('>') == headed(kind)
    &&& headed(kind) ==> o.last() == '>'
    &&& o.contains('.') == in_dots(kind)
    &&& o.contains('=') == heavy(kind)
    &&& o.contains('~') == (kind is Invisible)
    &&& o.contains('-') == (!heavy(kind) && !(kind is Invisible))
    &&& o[0] != '.' && o[0] != '>'
    &&& forall|i: int| 0 <= i < o.len() ==> #[trigger] o[i] == o[0] || o[i] == '.' || o[i] == '>'
}

/// The operator of an edge kind shows how its edges look.
pub proof fn law_operators_show_their_kinds(kind: EdgeKind)
    ensures
        shows(operator(kind), kind),
{
    reveal_strlit("-->");
    reveal_strlit("---");
    reveal_strlit("-.->");
    reveal_strlit("-.-");
    reveal_strlit("==>");
    reveal_strlit("===");
    reveal_strlit("~~~");
    let o = operator(kind);
    assert(o[0] == '-' || o[0] == '=' || o[0] == '~');
    assert(o.contains(o[0]));
    assert(o.contains(o[o.len() - 1]));
    assert(o.contains(o[1]));
    assert(o.contains(o[2]));
}

/// What an operator shows belongs to one kind.
pub proof fn law_operators_tell_kinds_apart(o: Seq<char>, a: EdgeKind, b: EdgeKind)
    requires
        shows(o, a),
        shows(o, b),
    ensures
        a == b,
{
}

/// A letter, a digit or a space: what a label may hold without being
/// rewritten.
pub open spec fn is_common(c: char) -> bool {
    ('a' <= c && c <= 'z') || ('A' <= c && c <= 'Z') || ('0' <= c && c <= '9') || c == ' '
}

/// A text of letters, digits and spaces that starts with none of the latter.
pub open spec fn is_caption(s: Seq<char>) -> bool {
    &&& s.len() > 0
    &&& s[0] != ' '
    &&& forall|i: int| 0 <= i < s.len() ==> is_common(#[trigger] s[i])
}

proof fn lemma_common_kept(s: Seq<char>, pipes: bool)
    requires
        forall|i: int| 0 <= i < s.len() ==> is_common(#[trigger] s[i]),
    ensures
        coded(s, pipes) == s,
    decreases s.len(),
{
    if s.len() > 0 {
        let rest = s.skip(1);
        assert forall|i: int| 0 <= i < rest.len() implies is_common(#[trigger] rest[i]) by {
            assert(is_common(s[i + 1]));
        }
        lemma_common_kept(rest, pipes);
        assert(is_common(s[0]));
        assert(seq![s[0]] + rest =~= s);
    } else {
        assert(s =~= Seq::empty());
    }
}

proof fn lemma_no_breaks(s: Seq<char>)
    requires
        forall|i: int| 0 <= i < s.len() ==> is_common(#[trigger] s[i]),
    ensures
        with_breaks(s) == s,
    decreases s.len(),
{
    if s.len() > 0 {
        let h = s.drop_last();
        assert forall|i: int| 0 <= i < h.len() implies is_common(#[trigger] h[i]) by {
            assert(is_common(s[i]));
        }
        lemma_no_breaks(h);
        assert(is_common(s[s.len() - 1]));
        assert(h + seq![s.last()] =~= s);
    } else {
        assert(s =~= Seq::empty());
    }
}

proof fn lemma_trim_end_keeps(s: Seq<char>)
    requires
        s.len() > 0,
        !is_white(s[0]),
    ensures
        trim_end_seq(s).len() > 0,
    decreases s.len(),
{
    if s.len() > 1 {
        lemma_trim_end_keeps(s.drop_last());
    }
}

proof fn lemma_not_blank(s: Seq<char>)
    requires
        is_caption(s),
    ensures
        !is_blank(s),
{
    assert(is_common(s[0]));
    lemma_trim_end_keeps(s);
}

/// A caption is written as it is.
proof fn lemma_caption(s: Seq<char>)
    requires
        is_caption(s),
    ensures
        label_body(s) == s,
        slot_body(s) == s,
        !is_blank(s),
{
    lemma_common_kept(s, false);
    lemma_common_kept(s, true);
    lemma_no_breaks(s);
    lemma_not_blank(s);
    assert forall|i: int| 0 <= i < s.len() implies cleaned(s)[i] == s[i] by {
        assert(is_common(s[i]));
    }
    assert(cleaned(s) =~= s);
    assert forall|i: int| 0 <= i < s.len() implies flat(s)[i] == s[i] by {
        assert(is_common(s[i]));
    }
    assert(flat(s) =~= s);
    assert(is_common(s[0]));
}

/// Whether a text holds a piece.
pub open spec fn holds(text: Seq<char>, t: Seq<char>) -> bool {
    exists|p: int| #[trigger] occurs_at(text, t, p)
}

pub proof fn lemma_holds_here(a: Seq<char>, m: Seq<char>, b: Seq<char>)
    ensures
        holds(a + m + b, m),
{
    let s = a + m + b;
    let p = a.len() as int;
    assert(s.subrange(p, p + m.len()) =~= m);
    assert(occurs_at(s, m, p));
}

pub proof fn lemma_holds_around(a: Seq<char>, s: Seq<char>, b: Seq<char>, t: Seq<char>)
    requires
        holds(s, t),
    ensures
        holds(a + s + b, t),
{
    let p = choose|p: int| #[trigger] occurs_at(s, t, p);
    let all = a + s + b;
    let q = a.len() + p;
    assert(all.subrange(q, q + t.len()) =~= s.subrange(p, p + t.len()));
    assert(occurs_at(all, t, q));
}

pub proof fn lemma_holds_last(a: Seq<char>, m: Seq<char>)
    ensures
        holds(a + m, m),
{
    let s = a + m;
    let p = a.len() as int;
    assert(s.subrange(p, p + m.len()) =~= m);
    assert(occurs_at(s, m, p));
}

pub proof fn lemma_holds_more(s: Seq<char>, b: Seq<char>, t: Seq<char>)
    requires
        holds(s, t),
    ensures
        holds(s + b, t),
{
    let p = choose|p: int| #[trigger] occurs_at(s, t, p);
    let all = s + b;
    assert(all.subrange(p, p + t.len()) =~= s.subrange(p, p + t.len()));
    assert(occurs_at(all, t, p));
}

pub proof fn lemma_holds_part(s: Seq<char>, t: Seq<char>, u: Seq<char>)
    requires
        holds(s, t),
        holds(t, u),
    ensures
        holds(s, u),
{
    let p = choose|p: int| #[trigger] occurs_at(s, t, p);
    let q = choose|q: int| #[trigger] occurs_at(t, u, q);
    assert(s.subrange(p + q, p + q + u.len()) =~= s.subrange(p, p + t.len()).subrange(
        q,
        q + u.len(),
    ));
    assert(occurs_at(s, u, p + q));
}

/// The line of an edge between two names.
pub open spec fn edge_line(
    from: Seq<char>,
    o: Seq<char>,
    label: Option<Seq<char>>,
    to: Seq<char>,
) -> Seq<char> {
    "    "@ + from + " "@ + o + (match label {
        Some(l) => "|\""@ + l + "\"|"@,
        None => ""@,
    }) + " "@ + to + "\n"@
}

/// Whether a label is missing or a caption.
pub open spec fn easy_label(label: Option<Seq<char>>) -> bool {
    label matches Some(l) ==> is_caption(l)
}

proof fn lemma_slot(label: Option<Seq<char>>)
    requires
        easy_label(label),
    ensures
        edge_slot(label) == (match label {
            Some(l) => "|\""@ + l + "\"|"@,
            None => ""@,
        }),
{
    reveal_strlit("");
    if let Some(l) = label {
        lemma_caption(l);
    } else {
        assert(""@ =~= Seq::empty());
    }
}

proof fn lemma_edge_lines(nodes: Seq<Node>, edges: Seq<Edge>, k: int, i: int)
    requires
        0 <= i < k <= edges.len(),
        easy_label(opt_text(edges[i].label)),
    ensures
        holds(
            edge_lines(nodes, edges, k),
            edge_line(
                endpoint_text(nodes[edges[i].from as int]),
                operator(edges[i].kind),
                opt_text(edges[i].label),
                endpoint_text(nodes[edges[i].to as int]),
            ),
        ),
    decreases k,
{
    let e = edges[k - 1];
    let none = Seq::<char>::empty();
    let before = edge_lines(nodes, edges, k - 1);
    let own = "    "@ + endpoint_text(nodes[e.from as int]) + edge_op(e.kind, opt_text(e.label))
        + endpoint_text(nodes[e.to as int]) + "\n"@;
    assert(edge_lines(nodes, edges, k) =~= before + own + none);
    if i < k - 1 {
        lemma_edge_lines(nodes, edges, k - 1, i);
        let t = edge_line(
            endpoint_text(nodes[edges[i].from as int]),
            operator(edges[i].kind),
            opt_text(edges[i].label),
            endpoint_text(nodes[edges[i].to as int]),
        );
        lemma_holds_around(none, before, own, t);
        assert(none + before + own =~= edge_lines(nodes, edges, k));
    } else {
        lemma_slot(opt_text(e.label));
        let t = edge_line(
            endpoint_text(nodes[e.from as int]),
            operator(e.kind),
            opt_text(e.label),
            endpoint_text(nodes[e.to as int]),
        );
        assert(own =~= t);
        lemma_holds_here(before, own, none);
    }
}

/// Every edge between two nodes is written on a line of its own: the id of
/// the node it comes from, an operator that shows how it looks, its label,
/// and the id of the node it leads to.
pub proof fn law_edges_are_written(g: Graph, i: int)
    requires
        0 <= i < g.edges@.len(),
        !reserved(g.nodes@[g.edges@[i].from as int].id@),
        !reserved(g.nodes@[g.edges@[i].to as int].id@),
        easy_label(opt_text(g.edges@[i].label)),
    ensures
        exists|o: Seq<char>|
            shows(o, g.edges@[i].kind) && holds(
                mermaid(g),
                #[trigger] edge_line(
                    g.nodes@[g.edges@[i].from as int].id@,
                    o,
                    opt_text(g.edges@[i].label),
                    g.nodes@[g.edges@[i].to as int].id@,
                ),
            ),
{
    let e = g.edges@[i];
    let k = g.edges@.len() as int;
    lemma_edge_lines(g.nodes@, g.edges@, k, i);
    law_operators_show_their_kinds(e.kind);
    let head = "flowchart "@ + direction_word(g.direction) + "\n"@ + node_lines(
        g.nodes@,
        g.nodes@.len() as int,
    ) + blocks(g).text;
    let tail = sub_edge_lines(g, g.sub_edges@.len() as int) + style_lines(
        g.nodes@,
        g.nodes@.len() as int,
    );
    let t = edge_line(
        g.nodes@[e.from as int].id@,
        operator(e.kind),
        opt_text(e.label),
        g.nodes@[e.to as int].id@,
    );
    lemma_holds_around(head, edge_lines(g.nodes@, g.edges@, k), tail, t);
    assert(head + edge_lines(g.nodes@, g.edges@, k) + tail =~= mermaid(g));
}

/// The name of one end of an edge.
pub open spec fn end_id(g: Graph, e: End) -> Seq<char> {
    match e {
        End::Node(v) => g.nodes@[v as int].id@,
        End::Sub(s) => g.subgraphs@[s as int].id@,
    }
}

proof fn lemma_sub_edge_lines(g: Graph, k: int, i: int)
    requires
        0 <= i < k <= g.sub_edges@.len(),
        easy_label(opt_text(g.sub_edges@[i].label)),
    ensures
        holds(
            sub_edge_lines(g, k),
            edge_line(
                end_text(g, g.sub_edges@[i].from),
                operator(g.sub_edges@[i].kind),
                opt_text(g.sub_edges@[i].label),
                end_text(g, g.sub_edges@[i].to),
            ),
        ),
    decreases k,
{
    let e = g.sub_edges@[k - 1];
    let none = Seq::<char>::empty();
    let before = sub_edge_lines(g, k - 1);
    let own = "    "@ + end_text(g, e.from) + edge_op(e.kind, opt_text(e.label)) + end_text(g, e.to)
        + "\n"@;
    assert(sub_edge_lines(g, k) =~= before + own + none);
    if i < k - 1 {
        lemma_sub_edge_lines(g, k - 1, i);
        let t = edge_line(
            end_text(g, g.sub_edges@[i].from),
            operator(g.sub_edges@[i].kind),
            opt_text(g.sub_edges@[i].label),
            end_text(g, g.sub_edges@[i].to),
        );
        lemma_holds_around(none, before, own, t);
        assert(none + before + own =~= sub_edge_lines(g, k));
    } else {
        lemma_slot(opt_text(e.label));
        let t = edge_line(
            end_text(g, e.from),
            operator(e.kind),
            opt_text(e.label),
            end_text(g, e.to),
        );
        assert(own =~= t);
        lemma_holds_here(before, own, none);
    }
}

/// Every edge that touches a subgraph is written on a line of its own, with
/// the ids of both ends in their order.
pub proof fn law_subgraph_edges_are_written(g: Graph, i: int)
    requires
        0 <= i < g.sub_edges@.len(),
        g.sub_edges@[i].from matches End::Node(v) ==> !reserved(g.nodes@[v as int].id@),
        g.sub_edges@[i].to matches End::Node(v) ==> !reserved(g.nodes@[v as int].id@),
        easy_label(opt_text(g.sub_edges@[i].label)),
    ensures
        exists|o: Seq<char>|
            shows(o, g.sub_edges@[i].kind) && holds(
                mermaid(g),
                #[trigger] edge_line(
                    end_id(g, g.sub_edges@[i].from),
                    o,
                    opt_text(g.sub_edges@[i].label),
                    end_id(g, g.sub_edges@[i].to),
                ),
            ),
{
    let e = g.sub_edges@[i];
    let k = g.sub_edges@.len() as int;
    lemma_sub_edge_lines(g, k, i);
    law_operators_show_their_kinds(e.kind);
    let head = "flowchart "@ + direction_word(g.direction) + "\n"@ + node_lines(
        g.nodes@,
        g.nodes@.len() as int,
    ) + blocks(g).text + edge_lines(g.nodes@, g.edges@, g.edges@.len() as int);
    let tail = style_lines(g.nodes@, g.nodes@.len() as int);
    let t = edge_line(
        end_id(g, e.from),
        operator(e.kind),
        opt_text(e.label),
        end_id(g, e.to),
    );
    lemma_holds_around(head, sub_edge_lines(g, k), tail, t);
    assert(head + sub_edge_lines(g, k) + tail =~= mermaid(g));
}

/// Whether a word names a direction by the sides that it leads from and to.
pub open spec fn names_direction(w: Seq<char>, d: Direction) -> bool {
    &&& w.len() == 2
    &&& (w[0] == 'T') == (d is TD) && (w[0] == 'B') == (d is BT)
    &&& (w[0] == 'L') == (d is LR) && (w[0] == 'R') == (d is RL)
    &&& (w[1] == 'D') == (d is TD) && (w[1] == 'T') == (d is BT)
    &&& (w[1] == 'R') == (d is LR) && (w[1] == 'L') == (d is RL)
}

/// Emitted text opens with the direction of the graph.
pub proof fn law_direction_is_written(g: Graph)
    ensures
        exists|w: Seq<char>|
            names_direction(w, g.direction) && #[trigger] occurs_at(
                mermaid(g),
                "flowchart "@ + w + "\n"@,
                0,
            ),
{
    reveal_strlit("TD");
    reveal_strlit("LR");
    reveal_strlit("RL");
    reveal_strlit("BT");
    let w = direction_word(g.direction);
    let t = "flowchart "@ + w + "\n"@;
    assert(mermaid(g).subrange(0, 0 + t.len() as int) =~= t);
    assert(occurs_at(mermaid(g), t, 0));
}

/// The bracket that closes what another opens.
pub open spec fn closing(c: char) -> char {
    if c == '(' {
        ')'
    } else if c == '[' {
        ']'
    } else if c == '{' {
        '}'
    } else {
        c
    }
}

/// Whether a shape is drawn with arcs.
pub open spec fn has_arcs(s: Shape) -> bool {
    s is Rounded || s is Stadium || s is Circle || s is DoubleCircle || s is Cylinder
        || s is StateStart || s is StateEnd
}

/// Whether a shape is drawn with straight sides all around or in the middle.
pub open spec fn has_bars(s: Shape) -> bool {
    s is Rect || s is ForkBar || s is Stadium || s is Cylinder || s is Subroutine
        || s is Parallelogram || s is ParallelogramAlt
}

/// Whether two delimiters enclose the label of a shape: they mirror each
/// other, are round where the shape has arcs, square where it has straight
/// sides, curly where it has corners at its sides, and slanted as it is.
pub open spec fn encloses(o: Seq<char>, c: Seq<char>, s: Shape) -> bool {
    &&& o.len() == c.len()
    &&& o.len() == (if s is Rect || s is ForkBar || s is Rounded || s is Diamond {
        1int
    } else if s is DoubleCircle {
        3
    } else {
        2
    })
    &&& forall|i: int| 0 <= i < o.len() ==> #[trigger] c[o.len() - 1 - i] == closing(o[i])
    &&& o.contains('(') == has_arcs(s)
    &&& o.contains('[') == has_bars(s)
    &&& o.contains('{') == (s is Diamond || s is Hexagon)
    &&& o.contains('/') == (s is Parallelogram)
    &&& o.contains('\\') == (s is ParallelogramAlt)
    &&& o[0] == '[' <==> has_bars(s) && !(s is Stadium)
}

/// The delimiters of a shape enclose its label.
pub proof fn law_delimiters_enclose(s: Shape)
    ensures
        encloses(delimiters(s).0, delimiters(s).1, s),
{
    reveal_strlit("[");
    reveal_strlit("]");
    reveal_strlit("(");
    reveal_strlit(")");
    reveal_strlit("([");
    reveal_strlit("])");
    reveal_strlit("{");
    reveal_strlit("}");
    reveal_strlit("((");
    reveal_strlit("))");
    reveal_strlit("(((");
    reveal_strlit(")))");
    reveal_strlit("[(");
    reveal_strlit(")]");
    reveal_strlit("[[");
    reveal_strlit("]]");
    reveal_strlit("{{");
    reveal_strlit("}}");
    reveal_strlit("[/");
    reveal_strlit("/]");
    reveal_strlit("[\\");
    reveal_strlit("\\]");
    let (o, c) = delimiters(s);
    assert(o.contains(o[0]));
    if o.len() > 1 {
        assert(o.contains(o[1]));
    }
}

proof fn lemma_node_lines(nodes: Seq<Node>, k: int, i: int)
    requires
        0 <= i < k <= nodes.len(),
    ensures
        holds(node_lines(nodes, k), "    "@ + node_text(nodes[i]) + "\n"@),
    decreases k,
{
    let none = Seq::<char>::empty();
    let before = node_lines(nodes, k - 1);
    let own = "    "@ + node_text(nodes[k - 1]) + "\n"@;
    assert(node_lines(nodes, k) =~= before + own + none);
    if i < k - 1 {
        lemma_node_lines(nodes, k - 1, i);
        lemma_holds_around(none, before, own, "    "@ + node_text(nodes[i]) + "\n"@);
        assert(none + before + own =~= node_lines(nodes, k));
    } else {
        lemma_holds_here(before, own, none);
    }
}

/// Every node is declared on a line of its own: by its id alone where it is
/// a rectangle that is labelled with it, else by its id and its label
/// between delimiters that show its shape.
pub proof fn law_nodes_are_written(g: Graph, i: int)
    requires
        0 <= i < g.nodes@.len(),
        !reserved(g.nodes@[i].id@),
        is_caption(g.nodes@[i].label@),
    ensures
        ({
            let n = g.nodes@[i];
            if n.shape is Rect && n.label@ == n.id@ {
                holds(mermaid(g), "    "@ + n.id@ + "\n"@)
            } else {
                exists|o: Seq<char>, c: Seq<char>|
                    #[trigger] encloses(o, c, n.shape) && holds(
                        mermaid(g),
                        "    "@ + n.id@ + o + ("\""@ + n.label@ + "\""@) + c + "\n"@,
                    )
            }
        }),
{
    let n = g.nodes@[i];
    let k = g.nodes@.len() as int;
    lemma_node_lines(g.nodes@, k, i);
    let head = "flowchart "@ + direction_word(g.direction) + "\n"@;
    let tail = blocks(g).text + edge_lines(g.nodes@, g.edges@, g.edges@.len() as int)
        + sub_edge_lines(g, g.sub_edges@.len() as int) + style_lines(g.nodes@, k);
    let t = "    "@ + node_text(n) + "\n"@;
    lemma_holds_around(head, node_lines(g.nodes@, k), tail, t);
    assert(head + node_lines(g.nodes@, k) + tail =~= mermaid(g));
    if !(n.shape is Rect && n.label@ == n.id@) {
        law_delimiters_enclose(n.shape);
        lemma_caption(n.label@);
        let (o, c) = delimiters(n.shape);
        assert(t =~= "    "@ + n.id@ + o + ("\""@ + n.label@ + "\""@) + c + "\n"@);
        assert(encloses(o, c, n.shape));
    }
}

proof fn lemma_joined(parts: Seq<Seq<char>>, i: int)
    requires
        0 <= i < parts.len(),
    ensures
        holds(join_seq(parts, ","@), parts[i]),
    decreases parts.len(),
{
    let none = Seq::<char>::empty();
    let all = join_seq(parts, ","@);
    if parts.len() == 1 {
        lemma_holds_here(none, parts[0], none);
        assert(none + parts[0] + none =~= all);
    } else {
        let before = join_seq(parts.drop_last(), ","@);
        if i < parts.len() - 1 {
            lemma_joined(parts.drop_last(), i);
            lemma_holds_around(none, before, ","@ + parts.last(), parts[i]);
            assert(none + before + (","@ + parts.last()) =~= all);
        } else {
            lemma_holds_here(before + ","@, parts.last(), none);
            assert(before + ","@ + parts.last() + none =~= all);
        }
    }
}

proof fn lemma_style_lines(nodes: Seq<Node>, k: int, i: int)
    requires
        0 <= i < k <= nodes.len(),
    ensures
        holds(style_lines(nodes, k), style_line(nodes[i])),
    decreases k,
{
    let none = Seq::<char>::empty();
    let before = style_lines(nodes, k - 1);
    let own = style_line(nodes[k - 1]);
    assert(style_lines(nodes, k) =~= before + own + none);
    if i < k - 1 {
        lemma_style_lines(nodes, k - 1, i);
        lemma_holds_around(none, before, own, style_line(nodes[i]));
        assert(none + before + own =~= style_lines(nodes, k));
    } else {
        lemma_holds_here(before, own, none);
    }
}

/// Whether the line `style <id> …` with a property is in the text.
pub open spec fn styles(text: Seq<char>, id: Seq<char>, property: Seq<char>) -> bool {
    exists|rest: Seq<char>|
        holds(rest, property) && holds(text, #[trigger] style_of(id, rest))
}

/// A style line.
pub open spec fn style_of(id: Seq<char>, properties: Seq<char>) -> Seq<char> {
    "    style "@ + id + " "@ + properties + "\n"@
}

/// The colours and the stroke width of a node are written on a style line
/// for its id, each behind the key of what it colours.
pub proof fn law_styles_are_written(g: Graph, i: int)
    requires
        0 <= i < g.nodes@.len(),
    ensures
        ({
            let n = g.nodes@[i];
            let st = n.style@;
            &&& st.fill matches Some(v) ==> (value_fits(v) ==> styles(
                mermaid(g),
                n.id@,
                "fill:"@ + trim_seq(v),
            ))
            &&& st.stroke matches Some(v) ==> (value_fits(v) ==> styles(
                mermaid(g),
                n.id@,
                "stroke:"@ + trim_seq(v),
            ))
            &&& st.color matches Some(v) ==> (value_fits(v) ==> styles(
                mermaid(g),
                n.id@,
                "color:"@ + trim_seq(v),
            ))
            &&& st.stroke_width matches Some(v) ==> (crate::num::finite(v) ==> styles(
                mermaid(g),
                n.id@,
                "stroke-width:"@ + v + "px"@,
            ))
        }),
{
    let n = g.nodes@[i];
    let k = g.nodes@.len() as int;
    let parts = style_parts(n.style@);
    lemma_style_lines(g.nodes@, k, i);
    let head = "flowchart "@ + direction_word(g.direction) + "\n"@ + node_lines(g.nodes@, k) + blocks(
        g,
    ).text + edge_lines(g.nodes@, g.edges@, g.edges@.len() as int) + sub_edge_lines(
        g,
        g.sub_edges@.len() as int,
    );
    let none = Seq::<char>::empty();
    lemma_holds_around(head, style_lines(g.nodes@, k), none, style_line(n));
    assert(head + style_lines(g.nodes@, k) + none =~= mermaid(g));
    let rest = join_seq(parts, ","@);
    if parts.len() > 0 {
        assert(style_line(n) == style_of(n.id@, rest));
    }
    assert forall|j: int| 0 <= j < parts.len() implies styles(
        mermaid(g),
        n.id@,
        #[trigger] parts[j],
    ) by {
        lemma_joined(parts, j);
    }
    let a = color_part("fill:"@, n.style@.fill);
    let b = color_part("stroke:"@, n.style@.stroke);
    let c = width_part(n.style@.stroke_width);
    let d = color_part("color:"@, n.style@.color);
    assert(parts =~= a + b + c + d);
    if a.len() > 0 {
        assert(parts[0] == a[0]);
    }
    if b.len() > 0 {
        assert(parts[a.len() as int] == b[0]);
    }
    if c.len() > 0 {
        assert(parts[(a.len() + b.len()) as int] == c[0]);
    }
    if d.len() > 0 {
        assert(parts[(a.len() + b.len() + c.len()) as int] == d[0]);
    }
}

} // verus!
