//! Reading a swimlane diagram from its line-oriented notation.
//!
//! The source is first cut into statements, one per line; a block written
//! on one line counts as the statements it holds. The statements then drive
//! a small machine: [`step`] says what each of them does to the state.

use vstd::prelude::*;

use crate::advance::ends::{
    anchor_ids, anchor_index, anchor_of, check_id, element_ids, element_index, end_of, end_side,
    id_check, lane_node_ids, lane_node_index, layout_of, parse_anchor_line, parse_end,
    parse_layout_word, resolve_end_side,
};
use crate::advance::lane_tree::{
    assemble_lane_tree, forest, rec_views, LaneRec, LaneRecView,
};
use crate::advance::text_parts::{
    breaks, class_assign, class_def, config_line, cut_class, declared, directive, inline_block,
    normalize_breaks, pairs, parse_class_assign, parse_class_def, parse_style_line,
    parse_text_config, parse_text_node_shorthand, split_inline_block, split_node_class_shorthand,
    split_top_level, style_line, top_level, top_level_from, ParsedStyle, StyleLine,
};
use crate::advance::{
    adv_err, anchor_views, default_config, default_style, element_view, element_views,
    lane_edge_views, lane_node_views, no_edge_style, overlay_edge, AdvanceAnchor, AdvanceConfig,
    AdvanceDiagram, AdvanceDirection, AdvanceEdge, AdvanceEdgeStyle, AdvanceElement, AdvanceError,
    AdvanceNode, AdvanceStyle, AnchorView, ConfigView, DiagramView, EdgeStyleView, ElementLayout,
    ElementView, LaneEdgeView, LaneNodeView,
};
use crate::model::{
    name_from, name_index, no_style, opt_text, overlay, EdgeKind, NodeStyle, NodeStyleView, Shape,
};
use crate::text::{
    cat, cat3, cat5, chars_of, contains, decimal, decimal_string, ends_with_char, eq,
    eq_ignore_case, find, find_char, find_seq, first_index, has, has_prefix, lines, lines_seq,
    lower, starts_with, str_eq, string_of, strip_all_prefix, strip_char, texts, trim, trim_end,
    trim_end_seq, trim_quotes, trim_seq, trim_start, trim_start_matches, trim_start_seq,
};

verus! {

/// A statement and the number of the line it came from, counted from zero.
pub type Statement = (int, Seq<char>);

/// The statements of one line; `decl { a; b }` stands for the block it
/// abbreviates.
pub open spec fn expand(n: int, line: Seq<char>) -> Seq<Statement>
    decreases line.len(), 1int, 0int,
{
    match inline_block(line) {
        Some((decl, body)) => seq![(n, decl + " {"@)] + expand_all(
            n,
            top_level(body),
            0,
            line.len(),
        ) + seq![(n, "}"@)],
        None => seq![(n, line)],
    }
}

/// The statements of the pieces from number `i` on; each is shorter than
/// `bound`.
pub open spec fn expand_all(n: int, pieces: Seq<Seq<char>>, i: int, bound: nat) -> Seq<Statement>
    decreases bound, 0int, pieces.len() - i,
{
    if i < 0 || i >= pieces.len() {
        seq![]
    } else {
        let st = trim_seq(pieces[i]);
        if 0 < st.len() < bound {
            expand(n, st) + expand_all(n, pieces, i + 1, bound)
        } else {
            expand_all(n, pieces, i + 1, bound)
        }
    }
}

proof fn lemma_trim_end_len(s: Seq<char>)
    ensures
        trim_end_seq(s).len() <= s.len(),
    decreases s.len(),
{
    if s.len() > 0 && crate::text::is_white(s.last()) {
        lemma_trim_end_len(s.drop_last());
    }
}

pub proof fn lemma_trim_len(s: Seq<char>)
    ensures
        trim_seq(s).len() <= s.len(),
{
    crate::text::lemma_trim_start_len(s);
    lemma_trim_end_len(trim_start_seq(s));
}

/// Whether every piece is at most as long as `n`.
pub open spec fn short(pieces: Seq<Seq<char>>, n: nat) -> bool {
    forall|k: int| 0 <= k < pieces.len() ==> (#[trigger] pieces[k]).len() <= n
}

proof fn lemma_pieces_short(s: Seq<char>, i: int, start: int, depth: int)
    requires
        0 <= start <= i <= s.len(),
    ensures
        short(top_level_from(s, i, start, depth), s.len()),
    decreases s.len() - i,
{
    if i < s.len() {
        if s[i] == '{' {
            lemma_pieces_short(s, i + 1, start, depth + 1);
        } else if s[i] == '}' {
            lemma_pieces_short(s, i + 1, start, depth - 1);
        } else if s[i] == ';' && depth == 0 {
            lemma_pieces_short(s, i + 1, i + 1, depth);
            let rest = top_level_from(s, i + 1, i + 1, depth);
            let all = top_level_from(s, i, start, depth);
            assert forall|k: int| 0 <= k < all.len() implies (#[trigger] all[k]).len()
                <= s.len() by {
                if k > 0 {
                    assert(all[k] == rest[k - 1]);
                }
            }
        } else {
            lemma_pieces_short(s, i + 1, start, depth);
        }
    }
}

/// Statements in mathematical terms.
pub open spec fn statement_views(v: Seq<(usize, String)>) -> Seq<Statement> {
    v.map_values(|p: (usize, String)| (p.0 as int, p.1@))
}

fn push_statement(out: &mut Vec<(usize, String)>, n: usize, s: String)
    ensures
        statement_views(final(out)@) == statement_views(old(out)@).push((n as int, s@)),
{
    out.push((n, s));
    assert(statement_views(out@) =~= statement_views(old(out)@).push((n as int, s@)));
}

/// Turn one line into statements, expanding blocks written on it.
pub fn expand_inline(n: usize, line: &[char], out: &mut Vec<(usize, String)>)
    ensures
        statement_views(final(out)@) == statement_views(old(out)@) + expand(n as int, line@),
    decreases line@.len(),
{
    let ghost start = statement_views(out@);
    match split_inline_block(line) {
        Some((decl, body)) => {
            push_statement(out, n, cat(string_of(decl).as_str(), " {"));
            let ghost head = statement_views(out@);
            let pieces = split_top_level(body);
            let ghost p = texts(pieces@);
            proof {
                lemma_pieces_short(body@, 0, 0, 0);
                let k = first_index(line@, '{')->Some_0;
                crate::text::lemma_index_from(line@, '{', 0);
                reveal_strlit("}");
                assert(line@.subrange(line@.len() - 1, line@.len() as int)[0] == '}');
                lemma_trim_len(line@.subrange(k + 1, line@.len() - 1));
            }
            let mut i: usize = 0;
            while i < pieces.len()
                invariant
                    i <= pieces@.len(),
                    p == texts(pieces@),
                    body@.len() < line@.len(),
                    short(p, body@.len()),
                    statement_views(out@) + expand_all(n as int, p, i as int, line@.len()) == head
                        + expand_all(n as int, p, 0, line@.len()),
                decreases pieces@.len() - i,
            {
                assert(p[i as int] == pieces@[i as int]@);
                let st = trim(pieces[i]);
                proof {
                    lemma_trim_len(p[i as int]);
                }
                if st.len() > 0 {
                    let ghost before = statement_views(out@);
                    expand_inline(n, st, out);
                    assert(before + (expand(n as int, st@) + expand_all(
                        n as int,
                        p,
                        i as int + 1,
                        line@.len(),
                    )) =~= statement_views(out@) + expand_all(
                        n as int,
                        p,
                        i as int + 1,
                        line@.len(),
                    ));
                }
                i += 1;
            }
            assert(statement_views(out@) + expand_all(n as int, p, i as int, line@.len())
                =~= statement_views(out@));
            push_statement(out, n, "}".to_owned());
            assert(statement_views(out@) =~= start + expand(n as int, line@));
        },
        None => {
            push_statement(out, n, string_of(line));
            assert(statement_views(out@) =~= start + expand(n as int, line@));
        },
    }
}

/// The statements of the lines from number `i` on.
pub open spec fn statements_from(l: Seq<Seq<char>>, i: int) -> Seq<Statement>
    decreases l.len() - i,
{
    if i < 0 || i >= l.len() {
        seq![]
    } else {
        expand(i, trim_seq(l[i])) + statements_from(l, i + 1)
    }
}

fn all_statements(l: &Vec<&[char]>) -> (r: Vec<(usize, String)>)
    ensures
        statement_views(r@) == statements_from(texts(l@), 0),
{
    let ghost ls = texts(l@);
    let mut out: Vec<(usize, String)> = Vec::new();
    let mut i: usize = 0;
    assert(statement_views(out@) + statements_from(ls, 0) =~= statements_from(ls, 0));
    while i < l.len()
        invariant
            i <= l@.len(),
            ls == texts(l@),
            statement_views(out@) + statements_from(ls, i as int) == statements_from(ls, 0),
        decreases l@.len() - i,
    {
        let ghost before = statement_views(out@);
        assert(ls[i as int] == l@[i as int]@);
        let line = trim(l[i]);
        expand_inline(i, line, &mut out);
        assert(before + (expand(i as int, line@) + statements_from(ls, i as int + 1))
            =~= statement_views(out@) + statements_from(ls, i as int + 1));
        i += 1;
    }
    assert(statement_views(out@) + statements_from(ls, i as int) =~= statement_views(out@));
    out
}

/// What is wrong with a statement, and in which column where that is known.
pub struct FaultView {
    pub col: Option<int>,
    pub message: Seq<char>,
}

pub open spec fn fault(message: Seq<char>) -> FaultView {
    FaultView { col: None, message }
}

/// An error in a statement.
pub struct Fault {
    pub col: Option<usize>,
    pub message: String,
}

impl View for Fault {
    type V = FaultView;

    open spec fn view(&self) -> FaultView {
        FaultView {
            col: match self.col {
                Some(c) => Some(c as int),
                None => None,
            },
            message: self.message@,
        }
    }
}

fn fail(message: String) -> (r: Fault)
    ensures
        r@ == fault(message@),
{
    Fault { col: None, message }
}

pub open spec fn spaces(n: nat) -> Seq<char> {
    Seq::new(n, |i: int| ' ')
}

/// An error message with its line number, the line itself, and a caret
/// under the column.
pub open spec fn located(l: Seq<Seq<char>>, n: int, f: FaultView) -> Seq<char> {
    let snippet = if 0 <= n < l.len() {
        trim_end_seq(l[n])
    } else {
        Seq::empty()
    };
    let head = "line "@ + decimal((n + 1) as nat) + ": "@ + f.message;
    let shown = if snippet.len() > 0 {
        head + "\n  "@ + snippet
    } else {
        head
    };
    match f.col {
        None => shown,
        Some(c) => shown + "\n  "@ + spaces(
            if c < snippet.len() {
                c as nat
            } else {
                snippet.len()
            },
        ) + seq!['^'],
    }
}

fn text_err(l: &Vec<&[char]>, n: usize, f: Fault) -> (r: AdvanceError)
    requires
        n < usize::MAX,
    ensures
        r.message@ == located(texts(l@), n as int, f@),
{
    let ghost ls = texts(l@);
    let mut out = cat("line ", decimal_string(n + 1).as_str());
    out.append(": ");
    out.append(f.message.as_str());
    let mut width: usize = 0;
    let ghost mut snippet: Seq<char> = Seq::empty();
    if n < l.len() {
        let t = trim_end(l[n]);
        assert(ls[n as int] == l@[n as int]@);
        proof {
            snippet = t@;
        }
        width = t.len();
        if t.len() > 0 {
            out.append("\n  ");
            out.append(string_of(t).as_str());
        }
    }
    if let Some(c) = f.col {
        out.append("\n  ");
        let ghost before = out@;
        let stop: usize = if c < width {
            c
        } else {
            width
        };
        let mut i: usize = 0;
        assert(out@ =~= before + spaces(0));
        while i < stop
            invariant
                i <= stop,
                out@ == before + spaces(i as nat),
            decreases stop - i,
        {
            out.push(' ');
            i += 1;
            assert(out@ =~= before + spaces(i as nat));
        }
        out.push('^');
        assert(out@ =~= before + spaces(stop as nat) + seq!['^']);
    }
    adv_err(out)
}

/// Title, description, direction and configuration.
#[verifier::ext_equal]
pub struct HeadView {
    pub title: Option<Seq<char>>,
    pub description: Option<Seq<char>>,
    pub direction: AdvanceDirection,
    pub config: ConfigView,
}

struct Head {
    title: Option<String>,
    description: Option<String>,
    direction: AdvanceDirection,
    config: AdvanceConfig,
}

impl View for Head {
    type V = HeadView;

    closed spec fn view(&self) -> HeadView {
        HeadView {
            title: opt_text(self.title),
            description: opt_text(self.description),
            direction: self.direction,
            config: self.config@,
        }
    }
}

/// The lanes declared so far: their records, the records whose block is
/// open, the lines those blocks opened on, and the lane that takes nodes.
#[verifier::ext_equal]
pub struct LanesView {
    pub recs: Seq<LaneRecView>,
    pub stack: Seq<int>,
    pub lines: Seq<int>,
    pub current: Option<Seq<char>>,
}

struct Lanes {
    recs: Vec<LaneRec>,
    stack: Vec<usize>,
    lines: Vec<usize>,
    current: Option<String>,
}

pub open spec fn ints(v: Seq<usize>) -> Seq<int> {
    v.map_values(|x: usize| x as int)
}

impl View for Lanes {
    type V = LanesView;

    closed spec fn view(&self) -> LanesView {
        LanesView {
            recs: rec_views(self.recs@),
            stack: ints(self.stack@),
            lines: ints(self.lines@),
            current: opt_text(self.current),
        }
    }
}

/// What a `{` opened.
#[derive(Debug, Clone, Copy, PartialEq, Eq, Structural)]
pub enum Frame {
    Lane,
    Node,
}

/// The blocks that are open, the node whose block is open, the sub-elements
/// opened inside it, innermost last, and the line that block opened on.
#[verifier::ext_equal]
pub struct BlocksView {
    pub frames: Seq<Frame>,
    pub node: Option<LaneNodeView>,
    pub open: Seq<ElementView>,
    pub line: int,
}

struct Blocks {
    frames: Vec<Frame>,
    node: Option<AdvanceNode>,
    open: Vec<AdvanceElement>,
    line: usize,
}

pub open spec fn opt_node(n: Option<AdvanceNode>) -> Option<LaneNodeView> {
    match n {
        Some(n) => Some(n@),
        None => None,
    }
}

impl View for Blocks {
    type V = BlocksView;

    closed spec fn view(&self) -> BlocksView {
        BlocksView {
            frames: self.frames@,
            node: opt_node(self.node),
            open: element_views(self.open@),
            line: self.line as int,
        }
    }
}

/// Styling collected for the end: class definitions, class assignments,
/// styles of nodes and styles of edges.
#[verifier::ext_equal]
pub struct StylesView {
    pub defs: Seq<(Seq<char>, NodeStyleView)>,
    pub assigns: Seq<(Seq<char>, Seq<char>)>,
    pub nodes: Seq<(Seq<char>, NodeStyleView)>,
    pub edges: Seq<(Seq<char>, Seq<char>, EdgeStyleView)>,
}

struct Styles {
    defs: Vec<(String, NodeStyle)>,
    assigns: Vec<(String, String)>,
    nodes: Vec<(String, NodeStyle)>,
    edges: Vec<(String, String, AdvanceEdgeStyle)>,
}

pub open spec fn named_styles(v: Seq<(String, NodeStyle)>) -> Seq<(Seq<char>, NodeStyleView)> {
    v.map_values(|p: (String, NodeStyle)| (p.0@, p.1@))
}

pub open spec fn edge_styles(v: Seq<(String, String, AdvanceEdgeStyle)>) -> Seq<
    (Seq<char>, Seq<char>, EdgeStyleView),
> {
    v.map_values(|p: (String, String, AdvanceEdgeStyle)| (p.0@, p.1@, p.2@))
}

impl View for Styles {
    type V = StylesView;

    closed spec fn view(&self) -> StylesView {
        StylesView {
            defs: named_styles(self.defs@),
            assigns: pairs(self.assigns@),
            nodes: named_styles(self.nodes@),
            edges: edge_styles(self.edges@),
        }
    }
}

/// The state between two statements.
#[verifier::ext_equal]
pub struct ReaderView {
    pub head: HeadView,
    pub lanes: LanesView,
    pub blocks: BlocksView,
    pub styles: StylesView,
    pub nodes: Seq<LaneNodeView>,
    pub edges: Seq<LaneEdgeView>,
}

struct Reader {
    head: Head,
    lanes: Lanes,
    blocks: Blocks,
    styles: Styles,
    nodes: Vec<AdvanceNode>,
    edges: Vec<AdvanceEdge>,
}

impl View for Reader {
    type V = ReaderView;

    closed spec fn view(&self) -> ReaderView {
        ReaderView {
            head: self.head@,
            lanes: self.lanes@,
            blocks: self.blocks@,
            styles: self.styles@,
            nodes: lane_node_views(self.nodes@),
            edges: lane_edge_views(self.edges@),
        }
    }
}

/// The state before the first statement.
pub open spec fn initial() -> ReaderView {
    ReaderView {
        head: HeadView {
            title: None,
            description: None,
            direction: AdvanceDirection::Vertical,
            config: default_config(),
        },
        lanes: LanesView {
            recs: Seq::empty(),
            stack: Seq::empty(),
            lines: Seq::empty(),
            current: None,
        },
        blocks: BlocksView { frames: Seq::empty(), node: None, open: Seq::empty(), line: 0 },
        styles: StylesView {
            defs: Seq::empty(),
            assigns: Seq::empty(),
            nodes: Seq::empty(),
            edges: Seq::empty(),
        },
        nodes: Seq::empty(),
        edges: Seq::empty(),
    }
}

pub type Next = Result<ReaderView, FaultView>;

/// An element with one more child.
pub open spec fn with_child(e: ElementView, child: ElementView) -> ElementView {
    ElementView { elements: e.elements.push(child), ..e }
}

/// The blocks with one more sub-element in the innermost host.
pub open spec fn add_child(b: BlocksView, child: ElementView) -> BlocksView {
    if b.open.len() > 0 {
        BlocksView { open: b.open.drop_last().push(with_child(b.open.last(), child)), ..b }
    } else {
        match b.node {
            Some(n) => BlocksView {
                node: Some(LaneNodeView { elements: n.elements.push(child), ..n }),
                ..b
            },
            None => b,
        }
    }
}

/// The sub-elements of the innermost host.
pub open spec fn host_elements(b: BlocksView) -> Seq<ElementView> {
    if b.open.len() > 0 {
        b.open.last().elements
    } else {
        match b.node {
            Some(n) => n.elements,
            None => Seq::empty(),
        }
    }
}

/// The anchors of the innermost host.
pub open spec fn host_anchors(b: BlocksView) -> Seq<AnchorView> {
    if b.open.len() > 0 {
        b.open.last().anchors
    } else {
        match b.node {
            Some(n) => n.anchors,
            None => Seq::empty(),
        }
    }
}

/// The blocks with one more anchor on the innermost host.
pub open spec fn add_anchor(b: BlocksView, a: AnchorView) -> BlocksView {
    if b.open.len() > 0 {
        let e = b.open.last();
        BlocksView {
            open: b.open.drop_last().push(ElementView { anchors: e.anchors.push(a), ..e }),
            ..b
        }
    } else {
        match b.node {
            Some(n) => BlocksView {
                node: Some(LaneNodeView { anchors: n.anchors.push(a), ..n }),
                ..b
            },
            None => b,
        }
    }
}

/// The blocks with the layout of the innermost host set.
pub open spec fn set_layout(b: BlocksView, l: ElementLayout) -> BlocksView {
    if b.open.len() > 0 {
        let e = b.open.last();
        BlocksView { open: b.open.drop_last().push(ElementView { layout: l, ..e }), ..b }
    } else {
        match b.node {
            Some(n) => BlocksView { node: Some(LaneNodeView { layout: l, ..n }), ..b },
            None => b,
        }
    }
}

proof fn lemma_element_views_last(s: Seq<AdvanceElement>)
    requires
        s.len() > 0,
    ensures
        element_views(s) == element_views(s.drop_last()).push(element_view(s.last())),
{
    assert(element_views(s) =~= element_views(s.drop_last()).push(element_view(s.last())));
}

proof fn lemma_element_views_push(s: Seq<AdvanceElement>, e: AdvanceElement)
    ensures
        element_views(s.push(e)) == element_views(s).push(element_view(e)),
{
    assert(element_views(s.push(e)) =~= element_views(s).push(element_view(e)));
}

impl Blocks {
    fn add_child(&mut self, child: AdvanceElement)
        ensures
            final(self)@ == add_child(old(self)@, child@),
    {
        let ghost open0 = self.open@;
        match self.open.pop() {
            Some(e) => {
                let mut e = e;
                let ghost kids = e.elements@;
                proof {
                    lemma_element_views_last(open0);
                    lemma_element_views_push(kids, child);
                }
                e.elements.push(child);
                proof {
                    lemma_element_views_push(self.open@, e);
                }
                assert(self.open@ == open0.drop_last());
                self.open.push(e);
            },
            None => {
                if let Some(n) = self.node.take() {
                    let mut n = n;
                    proof {
                        lemma_element_views_push(n.elements@, child);
                    }
                    n.elements.push(child);
                    self.node = Some(n);
                }
            },
        }
        assert(self@ =~= add_child(old(self)@, child@));
    }

    fn add_anchor(&mut self, a: AdvanceAnchor)
        ensures
            final(self)@ == add_anchor(old(self)@, a@),
    {
        let ghost open0 = self.open@;
        match self.open.pop() {
            Some(e) => {
                let mut e = e;
                proof {
                    lemma_element_views_last(open0);
                }
                let ghost before = e.anchors@;
                e.anchors.push(a);
                assert(anchor_views(e.anchors@) =~= anchor_views(before).push(a@));
                proof {
                    lemma_element_views_push(self.open@, e);
                }
                assert(self.open@ == open0.drop_last());
                self.open.push(e);
            },
            None => {
                if let Some(n) = self.node.take() {
                    let mut n = n;
                    let ghost before = n.anchors@;
                    n.anchors.push(a);
                    assert(anchor_views(n.anchors@) =~= anchor_views(before).push(a@));
                    self.node = Some(n);
                }
            },
        }
        assert(self@ =~= add_anchor(old(self)@, a@));
    }

    fn set_layout(&mut self, l: ElementLayout)
        ensures
            final(self)@ == set_layout(old(self)@, l),
    {
        let ghost open0 = self.open@;
        match self.open.pop() {
            Some(e) => {
                let mut e = e;
                proof {
                    lemma_element_views_last(open0);
                }
                e.layout = l;
                proof {
                    lemma_element_views_push(self.open@, e);
                }
                assert(self.open@ == open0.drop_last());
                self.open.push(e);
            },
            None => {
                if let Some(n) = self.node.take() {
                    let mut n = n;
                    n.layout = l;
                    self.node = Some(n);
                }
            },
        }
        assert(self@ =~= set_layout(old(self)@, l));
    }

    fn has_anchor(&self, id: &str) -> (r: bool)
        ensures
            r == (name_index(anchor_ids(host_anchors(self@)), id@) is Some),
    {
        let n: usize = self.open.len();
        if n > 0 {
            proof {
                lemma_element_views_last(self.open@);
            }
            anchor_index(&self.open[n - 1].anchors, id).is_some()
        } else {
            match &self.node {
                Some(node) => anchor_index(&node.anchors, id).is_some(),
                None => {
                    assert(anchor_ids(Seq::empty()).len() == 0);
                    false
                },
            }
        }
    }

    fn has_element(&self, id: &str) -> (r: bool)
        ensures
            r == (name_index(element_ids(host_elements(self@)), id@) is Some),
    {
        let n: usize = self.open.len();
        if n > 0 {
            proof {
                lemma_element_views_last(self.open@);
            }
            element_index(&self.open[n - 1].elements, id).is_some()
        } else {
            match &self.node {
                Some(node) => element_index(&node.elements, id).is_some(),
                None => {
                    assert(element_ids(Seq::empty()).len() == 0);
                    false
                },
            }
        }
    }
}

proof fn lemma_expand_line(n: int, line: Seq<char>)
    ensures
        forall|k: int| 0 <= k < expand(n, line).len() ==> (#[trigger] expand(n, line)[k]).0 == n,
    decreases line.len(), 1int, 0int,
{
    let e = expand(n, line);
    if let Some((decl, body)) = inline_block(line) {
        let inner = expand_all(n, top_level(body), 0, line.len());
        lemma_expand_all_line(n, top_level(body), 0, line.len());
        assert forall|k: int| 0 <= k < e.len() implies (#[trigger] e[k]).0 == n by {
            if 0 < k < e.len() - 1 {
                assert(e[k] == inner[k - 1]);
            }
        }
    } else {
        assert(e =~= seq![(n, line)]);
    }
}

proof fn lemma_expand_all_line(n: int, pieces: Seq<Seq<char>>, i: int, bound: nat)
    ensures
        forall|k: int|
            0 <= k < expand_all(n, pieces, i, bound).len() ==> (#[trigger] expand_all(
                n,
                pieces,
                i,
                bound,
            )[k]).0 == n,
    decreases bound, 0int, pieces.len() - i,
{
    if 0 <= i < pieces.len() {
        let all = expand_all(n, pieces, i, bound);
        let st = trim_seq(pieces[i]);
        let rest = expand_all(n, pieces, i + 1, bound);
        lemma_expand_all_line(n, pieces, i + 1, bound);
        if 0 < st.len() < bound {
            let first = expand(n, st);
            lemma_expand_line(n, st);
            assert forall|k: int| 0 <= k < all.len() implies (#[trigger] all[k]).0 == n by {
                if k < first.len() {
                    assert(all[k] == first[k]);
                } else {
                    assert(all[k] == rest[k - first.len()]);
                }
            }
        } else {
            assert(all == rest);
        }
    }
}

proof fn lemma_statement_lines(l: Seq<Seq<char>>, i: int)
    requires
        0 <= i,
    ensures
        forall|k: int|
            0 <= k < statements_from(l, i).len() ==> i <= (#[trigger] statements_from(
                l,
                i,
            )[k]).0 < l.len(),
    decreases l.len() - i,
{
    if i < l.len() {
        let all = statements_from(l, i);
        let first = expand(i, trim_seq(l[i]));
        let rest = statements_from(l, i + 1);
        lemma_expand_line(i, trim_seq(l[i]));
        lemma_statement_lines(l, i + 1);
        assert forall|k: int| 0 <= k < all.len() implies i <= (#[trigger] all[k]).0 < l.len() by {
            if k < first.len() {
                assert(all[k] == first[k]);
            } else {
                assert(all[k] == rest[k - first.len()]);
            }
        }
    }
}

/// The lane scope after the innermost lane block closed: the lane whose
/// block is then innermost, if any.
pub open spec fn close_lane(l: LanesView) -> LanesView {
    let stack = if l.stack.len() > 0 {
        l.stack.drop_last()
    } else {
        l.stack
    };
    let lines = if l.lines.len() > 0 {
        l.lines.drop_last()
    } else {
        l.lines
    };
    LanesView {
        recs: l.recs,
        stack,
        lines,
        current: if stack.len() > 0 {
            Some(l.recs[stack.last()].id)
        } else {
            None
        },
    }
}

/// A closing brace closes the innermost block: a sub-element joins its
/// host, a node joins the diagram, a lane gives up its scope.
pub open spec fn close_brace(st: ReaderView) -> Next {
    let b = st.blocks;
    if b.frames.len() == 0 {
        Err(FaultView { col: Some(0), message: "unbalanced '}'"@ })
    } else {
        let frames = b.frames.drop_last();
        match b.frames.last() {
            Frame::Lane => Ok(
                ReaderView {
                    lanes: close_lane(st.lanes),
                    blocks: BlocksView { frames, ..b },
                    ..st
                },
            ),
            Frame::Node => if b.open.len() > 0 {
                Ok(
                    ReaderView {
                        blocks: add_child(
                            BlocksView { frames, open: b.open.drop_last(), ..b },
                            b.open.last(),
                        ),
                        ..st
                    },
                )
            } else {
                match b.node {
                    Some(n) => Ok(
                        ReaderView {
                            blocks: BlocksView { frames, node: None, ..b },
                            nodes: st.nodes.push(n),
                            ..st
                        },
                    ),
                    None => Ok(ReaderView { blocks: BlocksView { frames, ..b }, ..st }),
                }
            },
        }
    }
}

/// A declaration without a trailing brace, and whether there was one.
pub open spec fn cut_brace(line: Seq<char>) -> (Seq<char>, bool) {
    if line.len() > 0 && line.last() == '{' {
        (trim_end_seq(line.drop_last()), true)
    } else {
        (line, false)
    }
}

fn split_brace<'a>(line: &'a [char]) -> (r: (&'a [char], bool))
    ensures
        (r.0@, r.1) == cut_brace(line@),
{
    if ends_with_char(line, '{') {
        let head = &line[0..line.len() - 1];
        assert(head@ =~= line@.drop_last());
        (trim_end(head), true)
    } else {
        (line, false)
    }
}

/// A sub-element with nothing in it.
pub open spec fn new_element(id: Seq<char>, label: Seq<char>) -> ElementView {
    ElementView {
        id,
        label,
        anchors: Seq::empty(),
        elements: Seq::empty(),
        layout: ElementLayout::Column,
        style: no_style(),
    }
}

/// What the innermost host of an open node block is called.
pub open spec fn host_kind(b: BlocksView) -> Seq<char> {
    if b.open.len() == 0 {
        "node"@
    } else {
        "sub-element"@
    }
}

/// A sub-element declaration inside a node block.
pub open spec fn declare_element(b: BlocksView, line: Seq<char>) -> Result<BlocksView, FaultView> {
    let (decl, opens) = cut_brace(line);
    match declared(decl) {
        None => Err(fault("invalid sub-element declaration '"@ + line + "'"@)),
        Some(d) => match id_check("sub-element"@, d.id) {
            Err(m) => Err(fault(m)),
            Ok(_) => if name_index(element_ids(host_elements(b)), d.id) is Some {
                Err(fault("duplicate sub-element '"@ + d.id + "'"@))
            } else {
                let e = new_element(d.id, breaks(d.label));
                if opens {
                    Ok(
                        BlocksView {
                            open: b.open.push(e),
                            frames: b.frames.push(Frame::Node),
                            ..b
                        },
                    )
                } else {
                    Ok(add_child(b, e))
                }
            },
        },
    }
}

/// A statement inside a node block: an anchor, a layout or a sub-element.
pub open spec fn in_node(b: BlocksView, line: Seq<char>) -> Result<BlocksView, FaultView> {
    if has_prefix(line, "anchor "@) {
        match anchor_of(line.skip(7)) {
            Err(m) => Err(fault(m)),
            Ok(a) => if name_index(anchor_ids(host_anchors(b)), a.id) is Some {
                Err(fault("duplicate anchor '"@ + a.id + "'"@))
            } else {
                Ok(add_anchor(b, a))
            },
        }
    } else if has_prefix(line, "layout "@) {
        let word = trim_seq(line.skip(7));
        match layout_of(word) {
            None => Err(fault("unknown layout '"@ + word + "', expected column or row"@)),
            Some(l) => Ok(set_layout(b, l)),
        }
    } else if has(line, "-->"@) || has(line, "-.->"@) || has(line, "==>"@) || has_prefix(
        line,
        "lane "@,
    ) {
        Err(
            fault(
                "'"@ + line + "' is not allowed inside a "@ + host_kind(b)
                    + " block — only anchor, layout and sub-elements"@,
            ),
        )
    } else {
        declare_element(b, line)
    }
}

impl Blocks {
    fn declare_element(&mut self, line: &[char]) -> (r: Result<(), Fault>)
        ensures
            match declare_element(old(self)@, line@) {
                Ok(b) => r is Ok && final(self)@ == b,
                Err(f) => r is Err && r->Err_0@ == f,
            },
    {
        let (decl, opens) = split_brace(line);
        let (id, label) = match parse_text_node_shorthand(decl) {
            Some((id, label, _)) => (id, label),
            None => {
                return Err(
                    fail(
                        cat3("invalid sub-element declaration '", string_of(line).as_str(), "'"),
                    ),
                );
            },
        };
        match check_id("sub-element", id.as_str()) {
            Ok(_) => {},
            Err(m) => {
                return Err(fail(m));
            },
        }
        if self.has_element(id.as_str()) {
            return Err(fail(cat3("duplicate sub-element '", id.as_str(), "'")));
        }
        let e = AdvanceElement {
            id,
            label: normalize_breaks(chars_of(label.as_str()).as_slice()),
            anchors: Vec::new(),
            elements: Vec::new(),
            layout: ElementLayout::Column,
            style: NodeStyle::default(),
        };
        assert(anchor_views(e.anchors@) =~= Seq::empty());
        assert(element_views(e.elements@) =~= Seq::empty());
        assert(e@ =~= new_element(id@, breaks(label@)));
        if opens {
            proof {
                lemma_element_views_push(self.open@, e);
            }
            self.open.push(e);
            self.frames.push(Frame::Node);
            assert(self@ =~= declare_element(old(self)@, line@)->Ok_0);
        } else {
            self.add_child(e);
        }
        Ok(())
    }

    fn in_node(&mut self, line: &[char]) -> (r: Result<(), Fault>)
        ensures
            match in_node(old(self)@, line@) {
                Ok(b) => r is Ok && final(self)@ == b,
                Err(f) => r is Err && r->Err_0@ == f,
            },
    {
        proof {
            reveal_strlit("anchor ");
            reveal_strlit("layout ");
        }
        if starts_with(line, "anchor ") {
            let rest = &line[7..line.len()];
            assert(rest@ =~= line@.skip(7));
            match parse_anchor_line(rest) {
                Err(m) => {
                    return Err(fail(m));
                },
                Ok(a) => {
                    if self.has_anchor(a.id.as_str()) {
                        return Err(fail(cat3("duplicate anchor '", a.id.as_str(), "'")));
                    }
                    self.add_anchor(a);
                    return Ok(());
                },
            }
        }
        if starts_with(line, "layout ") {
            let rest = &line[7..line.len()];
            assert(rest@ =~= line@.skip(7));
            let word = trim(rest);
            match parse_layout_word(word) {
                None => {
                    return Err(
                        fail(
                            cat3(
                                "unknown layout '",
                                string_of(word).as_str(),
                                "', expected column or row",
                            ),
                        ),
                    );
                },
                Some(l) => {
                    self.set_layout(l);
                    return Ok(());
                },
            }
        }
        if contains(line, "-->") || contains(line, "-.->") || contains(line, "==>") || starts_with(
            line,
            "lane ",
        ) {
            let kind = if self.open.len() == 0 {
                "node"
            } else {
                "sub-element"
            };
            return Err(
                fail(
                    cat5(
                        "'",
                        string_of(line).as_str(),
                        "' is not allowed inside a ",
                        kind,
                        " block — only anchor, layout and sub-elements",
                    ),
                ),
            );
        }
        self.declare_element(line)
    }
}

/// The direction after a header line.
pub open spec fn header(line: Seq<char>, d: AdvanceDirection) -> AdvanceDirection {
    let rest = trim_seq(strip_all_prefix(line, "swimlane"@));
    if lower(rest) == lower("horizontal"@) || lower(rest) == lower("lr"@) {
        AdvanceDirection::Horizontal
    } else {
        d
    }
}

/// The text of a title or description line.
pub open spec fn caption(line: Seq<char>, keyword: Seq<char>) -> Seq<char> {
    strip_char(trim_seq(strip_all_prefix(line, keyword)), '"')
}

fn caption_string(line: &[char], keyword: &str) -> (r: String)
    ensures
        r@ == caption(line@, keyword@),
{
    string_of(trim_quotes(trim(trim_start_matches(line, keyword))))
}

/// The statements that set title, description, direction or configuration.
pub open spec fn is_head(line: Seq<char>) -> bool {
    has_prefix(line, "swimlane"@) || has_prefix(line, "title "@) || has_prefix(line, "desc "@)
        || has_prefix(line, "description "@) || has_prefix(line, "config "@)
}

pub open spec fn head_step(h: HeadView, line: Seq<char>) -> Result<HeadView, FaultView> {
    if has_prefix(line, "swimlane"@) {
        Ok(HeadView { direction: header(line, h.direction), ..h })
    } else if has_prefix(line, "title "@) {
        Ok(HeadView { title: Some(caption(line, "title "@)), ..h })
    } else if has_prefix(line, "desc "@) {
        Ok(HeadView { description: Some(caption(line, "desc "@)), ..h })
    } else if has_prefix(line, "description "@) {
        Ok(HeadView { description: Some(caption(line, "description "@)), ..h })
    } else {
        match config_line(line, h.config) {
            Ok(config) => Ok(HeadView { config, ..h }),
            Err(m) => Err(fault(m)),
        }
    }
}

impl Head {
    fn step(&mut self, line: &[char]) -> (r: Result<(), Fault>)
        ensures
            match head_step(old(self)@, line@) {
                Ok(h) => r is Ok && final(self)@ == h,
                Err(f) => r is Err && r->Err_0@ == f,
            },
    {
        if starts_with(line, "swimlane") {
            let rest = trim(trim_start_matches(line, "swimlane"));
            if eq_ignore_case(rest, "horizontal") || eq_ignore_case(rest, "lr") {
                self.direction = AdvanceDirection::Horizontal;
            }
        } else if starts_with(line, "title ") {
            self.title = Some(caption_string(line, "title "));
        } else if starts_with(line, "desc ") {
            self.description = Some(caption_string(line, "desc "));
        } else if starts_with(line, "description ") {
            self.description = Some(caption_string(line, "description "));
        } else {
            match parse_text_config(line, &mut self.config) {
                Ok(_) => {},
                Err(m) => {
                    return Err(fail(m));
                },
            }
        }
        Ok(())
    }
}

/// The statements that style nodes and edges.
pub open spec fn is_styling(line: Seq<char>) -> bool {
    has_prefix(line, "classDef "@) || has_prefix(line, "class "@) || has_prefix(line, "style "@)
}

pub open spec fn styling_step(s: StylesView, line: Seq<char>) -> Result<StylesView, FaultView> {
    if has_prefix(line, "classDef "@) {
        match class_def(line) {
            Ok(d) => Ok(StylesView { defs: s.defs.push(d), ..s }),
            Err(m) => Err(fault(m)),
        }
    } else if has_prefix(line, "class "@) {
        match class_assign(line) {
            Ok(a) => Ok(StylesView { assigns: s.assigns + a, ..s }),
            Err(m) => Err(fault(m)),
        }
    } else {
        match style_line(line) {
            Ok(StyleLine::Node(id, st)) => Ok(StylesView { nodes: s.nodes.push((id, st)), ..s }),
            Ok(StyleLine::Edge(f, t, st)) => Ok(
                StylesView { edges: s.edges.push((f, t, st)), ..s },
            ),
            Err(m) => Err(fault(m)),
        }
    }
}

impl Styles {
    fn step(&mut self, line: &[char]) -> (r: Result<(), Fault>)
        ensures
            match styling_step(old(self)@, line@) {
                Ok(s) => r is Ok && final(self)@ == s,
                Err(f) => r is Err && r->Err_0@ == f,
            },
    {
        if starts_with(line, "classDef ") {
            match parse_class_def(line) {
                Ok(d) => {
                    let ghost before = self.defs@;
                    let ghost item = (d.0@, d.1@);
                    self.defs.push(d);
                    assert(named_styles(self.defs@) =~= named_styles(before).push(item));
                },
                Err(m) => {
                    return Err(fail(m));
                },
            }
        } else if starts_with(line, "class ") {
            match parse_class_assign(line, &mut self.assigns) {
                Ok(_) => {},
                Err(m) => {
                    return Err(fail(m));
                },
            }
        } else {
            match parse_style_line(line) {
                Ok(ParsedStyle::Node(id, st)) => {
                    let ghost before = self.nodes@;
                    let ghost item = (id@, st@);
                    self.nodes.push((id, st));
                    assert(named_styles(self.nodes@) =~= named_styles(before).push(item));
                },
                Ok(ParsedStyle::Edge(f, t, st)) => {
                    let ghost before = self.edges@;
                    let ghost item = (f@, t@, st@);
                    self.edges.push((f, t, st));
                    assert(edge_styles(self.edges@) =~= edge_styles(before).push(item));
                },
                Err(m) => {
                    return Err(fail(m));
                },
            }
        }
        Ok(())
    }
}

/// The ids of lane records.
pub open spec fn rec_ids(r: Seq<LaneRecView>) -> Seq<Seq<char>> {
    r.map_values(|x: LaneRecView| x.id)
}

/// The title of a lane declaration, and whether it opens a block.
pub open spec fn lane_title(id: Seq<char>, rest: Seq<char>) -> (Seq<char>, bool) {
    let brace = rest.len() > 0 && rest.last() == '{';
    let title = if brace {
        trim_seq(rest.drop_last())
    } else {
        rest
    };
    (
        if title.len() == 0 {
            id
        } else {
            breaks(strip_char(trim_seq(title), '"'))
        },
        brace,
    )
}

/// A lane declaration `lane <id> ["title"] [{]` on line `n`.
pub open spec fn declare_lane(l: LanesView, frames: Seq<Frame>, n: int, line: Seq<char>) -> Result<
    (LanesView, Seq<Frame>),
    FaultView,
> {
    let (id, rest) = directive(line, "lane "@);
    let (title, brace) = lane_title(id, rest);
    if id.len() == 0 {
        Err(FaultView { col: Some(5), message: "lane ID cannot be empty"@ })
    } else if name_index(rec_ids(l.recs), id) is Some {
        Err(FaultView { col: Some(5), message: "duplicate lane ID '"@ + id + "'"@ })
    } else {
        let recs = l.recs.push(LaneRecView { id, title, depth: l.stack.len() as int });
        if brace {
            Ok(
                (
                    LanesView {
                        recs,
                        stack: l.stack.push(l.recs.len() as int),
                        lines: l.lines.push(n),
                        current: Some(id),
                    },
                    frames.push(Frame::Lane),
                ),
            )
        } else {
            Ok((LanesView { recs, current: Some(id), ..l }, frames))
        }
    }
}

impl Lanes {
    /// The open records exist, each with the line its block opened on.
    closed spec fn wf(&self) -> bool {
        &&& self.stack@.len() == self.lines@.len()
        &&& forall|i: int| 0 <= i < self.stack@.len() ==> #[trigger] self.stack@[i]
            < self.recs@.len()
        &&& forall|i: int| 0 <= i < self.lines@.len() ==> #[trigger] self.lines@[i] < usize::MAX
    }

    fn has_id(&self, id: &[char]) -> (r: bool)
        ensures
            r == (name_index(rec_ids(self@.recs), id@) is Some),
    {
        let ghost ids = rec_ids(self@.recs);
        let mut i: usize = 0;
        while i < self.recs.len()
            invariant
                i <= self.recs@.len(),
                ids == rec_ids(rec_views(self.recs@)),
                name_index(ids, id@) == name_from(ids, id@, i as int),
            decreases self.recs@.len() - i,
        {
            assert(ids[i as int] == self.recs@[i as int].id@);
            if eq(id, self.recs[i].id.as_str()) {
                return true;
            }
            i += 1;
        }
        false
    }

    fn declare(&mut self, frames: &mut Vec<Frame>, n: usize, line: &[char]) -> (r: Result<
        (),
        Fault,
    >)
        requires
            old(self).wf(),
            n < usize::MAX,
        ensures
            match declare_lane(old(self)@, old(frames)@, n as int, line@) {
                Ok((l, f)) => r is Ok && final(self)@ == l && final(frames)@ == f
                    && final(self).wf(),
                Err(f) => r is Err && r->Err_0@ == f,
            },
    {
        let (id, rest) = crate::advance::text_parts::split_directive(line, "lane ");
        if id.len() == 0 {
            return Err(Fault { col: Some(5), message: "lane ID cannot be empty".to_owned() });
        }
        let brace = ends_with_char(rest, '{');
        let mut t = rest;
        if brace {
            let head = &rest[0..rest.len() - 1];
            assert(head@ =~= rest@.drop_last());
            t = trim(head);
        }
        let title = if t.len() == 0 {
            string_of(id)
        } else {
            normalize_breaks(trim_quotes(trim(t)))
        };
        if self.has_id(id) {
            return Err(
                Fault {
                    col: Some(5),
                    message: cat3("duplicate lane ID '", string_of(id).as_str(), "'"),
                },
            );
        }
        let depth: usize = self.stack.len();
        let k: usize = self.recs.len();
        let ghost before = self.recs@;
        let rec = LaneRec { id: string_of(id), title, depth };
        let ghost item = rec@;
        self.recs.push(rec);
        assert(rec_views(self.recs@) =~= rec_views(before).push(item));
        if brace {
            let ghost stack0 = self.stack@;
            let ghost lines0 = self.lines@;
            self.stack.push(k);
            self.lines.push(n);
            frames.push(Frame::Lane);
            assert(ints(self.stack@) =~= ints(stack0).push(k as int));
            assert(ints(self.lines@) =~= ints(lines0).push(n as int));
        }
        self.current = Some(string_of(id));
        Ok(())
    }

    fn close(&mut self)
        requires
            old(self).wf(),
        ensures
            final(self)@ == close_lane(old(self)@),
            final(self).wf(),
    {
        let ghost stack0 = self.stack@;
        let ghost lines0 = self.lines@;
        let _ = self.stack.pop();
        let _ = self.lines.pop();
        proof {
            if stack0.len() > 0 {
                assert(ints(self.stack@) =~= ints(stack0).drop_last());
                assert(ints(self.lines@) =~= ints(lines0).drop_last());
                assert forall|i: int| 0 <= i < self.stack@.len() implies #[trigger] self.stack@[i]
                    < self.recs@.len() by {
                    assert(self.stack@[i] == stack0[i]);
                }
                assert forall|i: int| 0 <= i < self.lines@.len() implies #[trigger] self.lines@[i]
                    < usize::MAX by {
                    assert(self.lines@[i] == lines0[i]);
                }
            }
        }
        let m: usize = self.stack.len();
        if m > 0 {
            let top = self.stack[m - 1];
            assert(rec_views(self.recs@)[top as int].id == self.recs@[top as int].id@);
            self.current = Some(self.recs[top].id.clone());
        } else {
            self.current = None;
        }
        assert(self@ =~= close_lane(old(self)@));
    }
}

/// The two sides of an edge statement and the kind of its arrow. The
/// operators are tried in a fixed order, each at its first occurrence.
pub open spec fn cut_edge(line: Seq<char>) -> Option<(Seq<char>, EdgeKind, Seq<char>)> {
    if let Some(k) = find_seq(line, "-->"@) {
        Some((line.take(k), EdgeKind::Arrow, line.skip(k + 3)))
    } else if let Some(k) = find_seq(line, "-.->"@) {
        Some((line.take(k), EdgeKind::Dotted, line.skip(k + 4)))
    } else if let Some(k) = find_seq(line, "==>"@) {
        Some((line.take(k), EdgeKind::Thick, line.skip(k + 3)))
    } else if let Some(k) = find_seq(line, "---"@) {
        Some((line.take(k), EdgeKind::Open, line.skip(k + 3)))
    } else {
        None
    }
}

fn split_edge<'a>(line: &'a [char]) -> (r: Option<(&'a [char], EdgeKind, &'a [char])>)
    ensures
        match cut_edge(line@) {
            Some(p) => r is Some && r->Some_0.0@ == p.0 && r->Some_0.1 == p.1 && r->Some_0.2@
                == p.2,
            None => r is None,
        },
{
    proof {
        reveal_strlit("-->");
        reveal_strlit("-.->");
        reveal_strlit("==>");
        reveal_strlit("---");
    }
    let n: usize = line.len();
    if let Some(k) = find(line, "-->") {
        let (a, b) = (&line[0..k], &line[k + 3..n]);
        assert(a@ =~= line@.take(k as int) && b@ =~= line@.skip(k + 3));
        return Some((a, EdgeKind::Arrow, b));
    }
    if let Some(k) = find(line, "-.->") {
        let (a, b) = (&line[0..k], &line[k + 4..n]);
        assert(a@ =~= line@.take(k as int) && b@ =~= line@.skip(k + 4));
        return Some((a, EdgeKind::Dotted, b));
    }
    if let Some(k) = find(line, "==>") {
        let (a, b) = (&line[0..k], &line[k + 3..n]);
        assert(a@ =~= line@.take(k as int) && b@ =~= line@.skip(k + 3));
        return Some((a, EdgeKind::Thick, b));
    }
    if let Some(k) = find(line, "---") {
        let (a, b) = (&line[0..k], &line[k + 3..n]);
        assert(a@ =~= line@.take(k as int) && b@ =~= line@.skip(k + 3));
        return Some((a, EdgeKind::Open, b));
    }
    None
}

/// The label `|text|` behind an edge operator, and the target behind it.
/// Without a closing bar there is no label.
pub open spec fn edge_target(rest: Seq<char>) -> (Option<Seq<char>>, Seq<char>) {
    let t = trim_start_seq(rest);
    if t.len() > 0 && t[0] == '|' {
        let u = trim_start_seq(t.skip(1));
        match first_index(u, '|') {
            Some(k) => (Some(breaks(trim_seq(u.take(k)))), trim_seq(u.skip(k + 1))),
            None => (None, trim_seq(rest)),
        }
    } else {
        (None, trim_seq(rest))
    }
}

fn split_target<'a>(rest: &'a [char]) -> (r: (Option<String>, &'a [char]))
    ensures
        opt_text(r.0) == edge_target(rest@).0,
        r.1@ == edge_target(rest@).1,
{
    let t = trim_start(rest);
    let n: usize = t.len();
    if n > 0 && t[0] == '|' {
        let t1 = &t[1..n];
        assert(t1@ =~= t@.skip(1));
        let u = trim_start(t1);
        if let Some(k) = find_char(u, '|') {
            let m: usize = u.len();
            let (a, b) = (&u[0..k], &u[k + 1..m]);
            assert(a@ =~= u@.take(k as int) && b@ =~= u@.skip(k + 1));
            return (Some(normalize_breaks(trim(a))), trim(b));
        }
    }
    (None, trim(rest))
}

/// An edge statement: both ends are read, then both are looked up among
/// the nodes declared so far.
pub open spec fn declare_edge(nodes: Seq<LaneNodeView>, line: Seq<char>) -> Result<
    LaneEdgeView,
    FaultView,
> {
    let (left, kind, rest) = cut_edge(line)->Some_0;
    let (label, right) = edge_target(rest);
    match end_of(left) {
        Err(m) => Err(fault(m)),
        Ok(from_end) => match end_of(right) {
            Err(m) => Err(fault(m)),
            Ok(to_end) => match end_side(nodes, from_end) {
                Err(m) => Err(fault(m)),
                Ok(from_side) => match end_side(nodes, to_end) {
                    Err(m) => Err(fault(m)),
                    Ok(to_side) => Ok(
                        LaneEdgeView {
                            from: from_end.node,
                            to: to_end.node,
                            label,
                            kind,
                            style: no_edge_style(),
                            from_side,
                            to_side,
                            from_end,
                            to_end,
                        },
                    ),
                },
            },
        },
    }
}

fn read_edge(
    nodes: &Vec<AdvanceNode>,
    left: &[char],
    kind: EdgeKind,
    rest: &[char],
    Ghost(line): Ghost<Seq<char>>,
) -> (r: Result<AdvanceEdge, Fault>)
    requires
        cut_edge(line) == Some((left@, kind, rest@)),
    ensures
        match declare_edge(lane_node_views(nodes@), line) {
            Ok(e) => r is Ok && r->Ok_0@ == e,
            Err(f) => r is Err && r->Err_0@ == f,
        },
{
    let from_end = match parse_end(left) {
        Ok(e) => e,
        Err(m) => {
            return Err(fail(m));
        },
    };
    let (label, right) = split_target(rest);
    let to_end = match parse_end(right) {
        Ok(e) => e,
        Err(m) => {
            return Err(fail(m));
        },
    };
    let from_side = match resolve_end_side(nodes, &from_end) {
        Ok(s) => s,
        Err(m) => {
            return Err(fail(m));
        },
    };
    let to_side = match resolve_end_side(nodes, &to_end) {
        Ok(s) => s,
        Err(m) => {
            return Err(fail(m));
        },
    };
    let e = AdvanceEdge {
        from: from_end.node.clone(),
        to: to_end.node.clone(),
        label,
        kind,
        style: AdvanceEdgeStyle::default(),
        from_side,
        to_side,
        from_end,
        to_end,
    };
    assert(e@ =~= declare_edge(lane_node_views(nodes@), line)->Ok_0);
    Ok(e)
}

/// A node without a place, a style or contents.
pub open spec fn new_node(
    id: Seq<char>,
    label: Seq<char>,
    lane: Seq<char>,
    shape: Shape,
) -> LaneNodeView {
    LaneNodeView {
        id,
        label,
        lane,
        shape,
        x: None,
        y: None,
        w: None,
        h: None,
        style: no_style(),
        anchors: Seq::empty(),
        elements: Seq::empty(),
        layout: ElementLayout::Column,
    }
}

/// A node declaration on line `n`, in the innermost lane; a trailing brace
/// opens its block.
pub open spec fn declare_node(st: ReaderView, n: int, line: Seq<char>) -> Next {
    match st.lanes.current {
        None => Err(fault("node '"@ + line + "' declared outside of any lane"@)),
        Some(lane) => {
            let (text, opens) = cut_brace(line);
            let (decl, class) = cut_class(text);
            match declared(decl) {
                None => Err(fault("invalid node declaration '"@ + line + "'"@)),
                Some(d) => match id_check("node"@, d.id) {
                    Err(m) => Err(fault(m)),
                    Ok(_) => if name_index(lane_node_ids(st.nodes), d.id) is Some {
                        Err(fault("duplicate node ID '"@ + d.id + "'"@))
                    } else {
                        let node = new_node(d.id, breaks(d.label), lane, d.shape);
                        let assigns = match class {
                            Some(c) => st.styles.assigns.push((d.id, c)),
                            None => st.styles.assigns,
                        };
                        let styles = StylesView { assigns, ..st.styles };
                        if opens {
                            Ok(
                                ReaderView {
                                    styles,
                                    blocks: BlocksView {
                                        node: Some(node),
                                        line: n,
                                        frames: st.blocks.frames.push(Frame::Node),
                                        ..st.blocks
                                    },
                                    ..st
                                },
                            )
                        } else {
                            Ok(ReaderView { styles, nodes: st.nodes.push(node), ..st })
                        }
                    },
                },
            }
        },
    }
}

/// The statements that say nothing: blank lines and comments.
pub open spec fn is_silent(line: Seq<char>) -> bool {
    line.len() == 0 || has_prefix(line, "%%"@) || has_prefix(line, "//"@) || has_prefix(
        line,
        "#"@,
    )
}

/// What the statement `line` of line `n` does to the state.
pub open spec fn step(st: ReaderView, n: int, line: Seq<char>) -> Next {
    if is_silent(line) {
        Ok(st)
    } else if line == "}"@ {
        close_brace(st)
    } else if st.blocks.node is Some {
        match in_node(st.blocks, line) {
            Ok(blocks) => Ok(ReaderView { blocks, ..st }),
            Err(f) => Err(f),
        }
    } else if is_head(line) {
        match head_step(st.head, line) {
            Ok(head) => Ok(ReaderView { head, ..st }),
            Err(f) => Err(f),
        }
    } else if is_styling(line) {
        match styling_step(st.styles, line) {
            Ok(styles) => Ok(ReaderView { styles, ..st }),
            Err(f) => Err(f),
        }
    } else if has_prefix(line, "lane "@) {
        match declare_lane(st.lanes, st.blocks.frames, n, line) {
            Ok((lanes, frames)) => Ok(
                ReaderView { lanes, blocks: BlocksView { frames, ..st.blocks }, ..st },
            ),
            Err(f) => Err(f),
        }
    } else if cut_edge(line) is Some {
        match declare_edge(st.nodes, line) {
            Ok(e) => Ok(ReaderView { edges: st.edges.push(e), ..st }),
            Err(f) => Err(f),
        }
    } else {
        declare_node(st, n, line)
    }
}

impl Reader {
    closed spec fn wf(&self) -> bool {
        self.lanes.wf() && self.blocks.line < usize::MAX
    }

    fn new() -> (r: Reader)
        ensures
            r@ == initial(),
            r.wf(),
    {
        let r = Reader {
            head: Head {
                title: None,
                description: None,
                direction: AdvanceDirection::Vertical,
                config: AdvanceConfig::default(),
            },
            lanes: Lanes {
                recs: Vec::new(),
                stack: Vec::new(),
                lines: Vec::new(),
                current: None,
            },
            blocks: Blocks { frames: Vec::new(), node: None, open: Vec::new(), line: 0 },
            styles: Styles {
                defs: Vec::new(),
                assigns: Vec::new(),
                nodes: Vec::new(),
                edges: Vec::new(),
            },
            nodes: Vec::new(),
            edges: Vec::new(),
        };
        assert(element_views(r.blocks.open@) =~= Seq::empty());
        assert(r@ =~~= initial());
        r
    }

    fn close_brace(&mut self) -> (r: Result<(), Fault>)
        requires
            old(self).wf(),
        ensures
            match close_brace(old(self)@) {
                Ok(st) => r is Ok && final(self)@ == st && final(self).wf(),
                Err(f) => r is Err && r->Err_0@ == f,
            },
    {
        match self.blocks.frames.pop() {
            None => Err(Fault { col: Some(0), message: "unbalanced '}'".to_owned() }),
            Some(Frame::Lane) => {
                self.lanes.close();
                assert(self@ =~= close_brace(old(self)@)->Ok_0);
                Ok(())
            },
            Some(Frame::Node) => {
                proof {
                    if self.blocks.open@.len() > 0 {
                        lemma_element_views_last(self.blocks.open@);
                    }
                }
                match self.blocks.open.pop() {
                    Some(e) => {
                        self.blocks.add_child(e);
                        assert(self@ =~= close_brace(old(self)@)->Ok_0);
                    },
                    None => {
                        match self.blocks.node.take() {
                            Some(node) => {
                                let ghost before = self.nodes@;
                                let ghost item = node@;
                                self.nodes.push(node);
                                assert(lane_node_views(self.nodes@) =~= lane_node_views(
                                    before,
                                ).push(item));
                            },
                            None => {},
                        }
                        assert(self@ =~= close_brace(old(self)@)->Ok_0);
                    },
                }
                Ok(())
            },
        }
    }

    fn declare_node(&mut self, n: usize, line: &[char]) -> (r: Result<(), Fault>)
        requires
            old(self).wf(),
            n < usize::MAX,
        ensures
            match declare_node(old(self)@, n as int, line@) {
                Ok(st) => r is Ok && final(self)@ == st && final(self).wf(),
                Err(f) => r is Err && r->Err_0@ == f,
            },
    {
        let lane = match &self.lanes.current {
            Some(l) => l.clone(),
            None => {
                return Err(
                    fail(
                        cat3("node '", string_of(line).as_str(), "' declared outside of any lane"),
                    ),
                );
            },
        };
        let (text, opens) = split_brace(line);
        let (decl, class) = split_node_class_shorthand(text);
        let (id, label, shape) = match parse_text_node_shorthand(decl) {
            Some(d) => d,
            None => {
                return Err(
                    fail(cat3("invalid node declaration '", string_of(line).as_str(), "'")),
                );
            },
        };
        match check_id("node", id.as_str()) {
            Ok(_) => {},
            Err(m) => {
                return Err(fail(m));
            },
        }
        if lane_node_index(&self.nodes, id.as_str()).is_some() {
            return Err(fail(cat3("duplicate node ID '", id.as_str(), "'")));
        }
        if let Some(c) = class {
            let ghost before = self.styles.assigns@;
            self.styles.assigns.push((id.clone(), string_of(c)));
            assert(pairs(self.styles.assigns@) =~= pairs(before).push((id@, c@)));
        }
        let node = AdvanceNode {
            id,
            label: normalize_breaks(chars_of(label.as_str()).as_slice()),
            lane,
            shape,
            x: None,
            y: None,
            w: None,
            h: None,
            style: NodeStyle::default(),
            anchors: Vec::new(),
            elements: Vec::new(),
            layout: ElementLayout::Column,
        };
        assert(anchor_views(node.anchors@) =~= Seq::empty());
        assert(element_views(node.elements@) =~= Seq::empty());
        assert(node@ =~= new_node(id@, breaks(label@), lane@, shape));
        if opens {
            self.blocks.node = Some(node);
            self.blocks.line = n;
            self.blocks.frames.push(Frame::Node);
        } else {
            let ghost before = self.nodes@;
            let ghost item = node@;
            self.nodes.push(node);
            assert(lane_node_views(self.nodes@) =~= lane_node_views(before).push(item));
        }
        assert(self@ =~= declare_node(old(self)@, n as int, line@)->Ok_0);
        Ok(())
    }

    fn step(&mut self, n: usize, line: &[char]) -> (r: Result<(), Fault>)
        requires
            old(self).wf(),
            n < usize::MAX,
        ensures
            match step(old(self)@, n as int, line@) {
                Ok(st) => r is Ok && final(self)@ == st && final(self).wf(),
                Err(f) => r is Err && r->Err_0@ == f,
            },
    {
        if line.len() == 0 || starts_with(line, "%%") || starts_with(line, "//") || starts_with(
            line,
            "#",
        ) {
            return Ok(());
        }
        if eq(line, "}") {
            return self.close_brace();
        }
        if self.blocks.node.is_some() {
            return self.blocks.in_node(line);
        }
        if starts_with(line, "swimlane") || starts_with(line, "title ") || starts_with(
            line,
            "desc ",
        ) || starts_with(line, "description ") || starts_with(line, "config ") {
            return self.head.step(line);
        }
        if starts_with(line, "classDef ") || starts_with(line, "class ") || starts_with(
            line,
            "style ",
        ) {
            return self.styles.step(line);
        }
        if starts_with(line, "lane ") {
            return self.lanes.declare(&mut self.blocks.frames, n, line);
        }
        if let Some((left, kind, rest)) = split_edge(line) {
            return match read_edge(&self.nodes, left, kind, rest, Ghost(line@)) {
                Ok(e) => {
                    let ghost before = self.edges@;
                    let ghost item = e@;
                    self.edges.push(e);
                    assert(lane_edge_views(self.edges@) =~= lane_edge_views(before).push(item));
                    Ok(())
                },
                Err(f) => Err(f),
            };
        }
        self.declare_node(n, line)
    }
}

/// An error with the number of the line it is about.
pub type Failure = (int, FaultView);

/// The state after all statements from the `i`-th on.
pub open spec fn run_from(s: Seq<Statement>, i: int, st: ReaderView) -> Result<ReaderView, Failure>
    decreases s.len() - i,
{
    if 0 <= i < s.len() {
        match step(st, s[i].0, s[i].1) {
            Ok(next) => run_from(s, i + 1, next),
            Err(f) => Err((s[i].0, f)),
        }
    } else {
        Ok(st)
    }
}

/// The style of the last definition of the class `name`, among the first
/// `k` definitions.
pub open spec fn class_style(
    defs: Seq<(Seq<char>, NodeStyleView)>,
    name: Seq<char>,
    k: int,
) -> Option<NodeStyleView>
    decreases k,
{
    if k <= 0 {
        None
    } else if defs[k - 1].0 == name {
        Some(defs[k - 1].1)
    } else {
        class_style(defs, name, k - 1)
    }
}

/// What the first `k` class assignments give the node `id`, later ones over
/// earlier ones.
pub open spec fn class_layers(s: StylesView, id: Seq<char>, k: int) -> NodeStyleView
    decreases k,
{
    if k <= 0 {
        no_style()
    } else {
        let under = class_layers(s, id, k - 1);
        match class_style(s.defs, s.assigns[k - 1].1, s.defs.len() as int) {
            Some(st) if s.assigns[k - 1].0 == id => overlay(under, st),
            _ => under,
        }
    }
}

/// What the first `k` style lines then give it.
pub open spec fn style_layers(s: StylesView, id: Seq<char>, k: int) -> NodeStyleView
    decreases k,
{
    if k <= 0 {
        class_layers(s, id, s.assigns.len() as int)
    } else {
        let under = style_layers(s, id, k - 1);
        if s.nodes[k - 1].0 == id {
            overlay(under, s.nodes[k - 1].1)
        } else {
            under
        }
    }
}

/// The style of the node `id`: its classes in order of assignment, then its
/// style lines in order.
pub open spec fn node_style(s: StylesView, id: Seq<char>) -> NodeStyleView {
    style_layers(s, id, s.nodes.len() as int)
}

/// What the first `k` edge style lines give the edges between two nodes.
pub open spec fn edge_layers(s: StylesView, from: Seq<char>, to: Seq<char>, k: int) -> EdgeStyleView
    decreases k,
{
    if k <= 0 {
        no_edge_style()
    } else {
        let under = edge_layers(s, from, to, k - 1);
        if s.edges[k - 1].0 == from && s.edges[k - 1].1 == to {
            overlay_edge(under, s.edges[k - 1].2)
        } else {
            under
        }
    }
}

pub open spec fn edge_style(s: StylesView, from: Seq<char>, to: Seq<char>) -> EdgeStyleView {
    edge_layers(s, from, to, s.edges.len() as int)
}

/// The nodes with their styles resolved.
pub open spec fn styled_nodes(s: StylesView, nodes: Seq<LaneNodeView>) -> Seq<LaneNodeView> {
    nodes.map_values(|n: LaneNodeView| LaneNodeView { style: node_style(s, n.id), ..n })
}

pub open spec fn styled_edges(s: StylesView, edges: Seq<LaneEdgeView>) -> Seq<LaneEdgeView> {
    edges.map_values(|e: LaneEdgeView| LaneEdgeView { style: edge_style(s, e.from, e.to), ..e })
}

/// The diagram that the state after the last statement amounts to.
pub open spec fn finish(st: ReaderView) -> Result<DiagramView, Failure> {
    match st.blocks.node {
        Some(n) => Err((st.blocks.line, fault("node '"@ + n.id + "' block is never closed"@))),
        None => if st.lanes.stack.len() > 0 {
            Err(
                (
                    st.lanes.lines[0],
                    fault(
                        "lane '"@ + st.lanes.recs[st.lanes.stack[0]].id
                            + "' block is never closed"@,
                    ),
                ),
            )
        } else if st.lanes.recs.len() == 0 {
            Err((0, fault("diagram must define at least one lane"@)))
        } else {
            Ok(
                DiagramView {
                    title: st.head.title,
                    description: st.head.description,
                    direction: st.head.direction,
                    style: default_style(),
                    config: st.head.config,
                    lanes: forest(st.lanes.recs, 0, st.lanes.recs.len() as int),
                    nodes: styled_nodes(st.styles, st.nodes),
                    edges: styled_edges(st.styles, st.edges),
                },
            )
        },
    }
}

/// The diagram that a sequence of statements describes.
pub open spec fn diagram_of_statements(s: Seq<Statement>) -> Result<DiagramView, Failure> {
    match run_from(s, 0, initial()) {
        Ok(st) => finish(st),
        Err(e) => Err(e),
    }
}

/// The diagram that a source text describes, or the message that says where
/// and why it describes none.
pub open spec fn diagram_of_notation(source: Seq<char>) -> Result<DiagramView, Seq<char>> {
    let l = lines_seq(source);
    match diagram_of_statements(statements_from(l, 0)) {
        Ok(d) => Ok(d),
        Err((n, f)) => Err(located(l, n, f)),
    }
}

impl Styles {
    fn find_class<'a>(&'a self, name: &str) -> (r: Option<&'a NodeStyle>)
        ensures
            match class_style(self@.defs, name@, self@.defs.len() as int) {
                Some(st) => r is Some && r->Some_0@ == st,
                None => r is None,
            },
    {
        let mut k: usize = self.defs.len();
        while k > 0
            invariant
                k <= self.defs@.len(),
                class_style(self@.defs, name@, self@.defs.len() as int) == class_style(
                    self@.defs,
                    name@,
                    k as int,
                ),
            decreases k,
        {
            assert(self@.defs[k - 1] == (self.defs@[k - 1].0@, self.defs@[k - 1].1@));
            if str_eq(self.defs[k - 1].0.as_str(), name) {
                return Some(&self.defs[k - 1].1);
            }
            k -= 1;
        }
        None
    }

    fn node_style(&self, id: &str) -> (r: NodeStyle)
        ensures
            r@ == node_style(self@, id@),
    {
        let mut st = NodeStyle::default();
        let mut k: usize = 0;
        while k < self.assigns.len()
            invariant
                k <= self.assigns@.len(),
                st@ == class_layers(self@, id@, k as int),
            decreases self.assigns@.len() - k,
        {
            assert(self@.assigns[k as int] == (
                self.assigns@[k as int].0@,
                self.assigns@[k as int].1@,
            ));
            if str_eq(self.assigns[k].0.as_str(), id) {
                if let Some(c) = self.find_class(self.assigns[k].1.as_str()) {
                    st.apply_over(c);
                }
            }
            k += 1;
        }
        k = 0;
        while k < self.nodes.len()
            invariant
                k <= self.nodes@.len(),
                st@ == style_layers(self@, id@, k as int),
            decreases self.nodes@.len() - k,
        {
            assert(self@.nodes[k as int] == (self.nodes@[k as int].0@, self.nodes@[k as int].1@));
            if str_eq(self.nodes[k].0.as_str(), id) {
                st.apply_over(&self.nodes[k].1);
            }
            k += 1;
        }
        st
    }

    fn edge_style(&self, from: &str, to: &str) -> (r: AdvanceEdgeStyle)
        ensures
            r@ == edge_style(self@, from@, to@),
    {
        let mut st = AdvanceEdgeStyle::default();
        let mut k: usize = 0;
        while k < self.edges.len()
            invariant
                k <= self.edges@.len(),
                st@ == edge_layers(self@, from@, to@, k as int),
            decreases self.edges@.len() - k,
        {
            assert(self@.edges[k as int] == (
                self.edges@[k as int].0@,
                self.edges@[k as int].1@,
                self.edges@[k as int].2@,
            ));
            if str_eq(self.edges[k].0.as_str(), from) && str_eq(self.edges[k].1.as_str(), to) {
                st.apply_over(&self.edges[k].2);
            }
            k += 1;
        }
        st
    }
}

fn style_nodes(s: &Styles, nodes: Vec<AdvanceNode>) -> (r: Vec<AdvanceNode>)
    ensures
        lane_node_views(r@) == styled_nodes(s@, lane_node_views(nodes@)),
{
    let mut nodes = nodes;
    let ghost before = nodes@;
    let n: usize = nodes.len();
    let mut i: usize = 0;
    while i < n
        invariant
            i <= n,
            nodes@.len() == n,
            before.len() == n,
            forall|j: int|
                0 <= j < i ==> (#[trigger] nodes@[j])@ == (LaneNodeView {
                    style: node_style(s@, before[j].id@),
                    ..before[j]@
                }),
            forall|j: int| i <= j < n ==> #[trigger] nodes@[j] == before[j],
        decreases n - i,
    {
        let st = s.node_style(nodes[i].id.as_str());
        nodes[i].style = st;
        i += 1;
    }
    assert(lane_node_views(nodes@) =~= styled_nodes(s@, lane_node_views(before)));
    nodes
}

fn style_edges(s: &Styles, edges: Vec<AdvanceEdge>) -> (r: Vec<AdvanceEdge>)
    ensures
        lane_edge_views(r@) == styled_edges(s@, lane_edge_views(edges@)),
{
    let mut edges = edges;
    let ghost before = edges@;
    let n: usize = edges.len();
    let mut i: usize = 0;
    while i < n
        invariant
            i <= n,
            edges@.len() == n,
            before.len() == n,
            forall|j: int|
                0 <= j < i ==> (#[trigger] edges@[j])@ == (LaneEdgeView {
                    style: edge_style(s@, before[j].from@, before[j].to@),
                    ..before[j]@
                }),
            forall|j: int| i <= j < n ==> #[trigger] edges@[j] == before[j],
        decreases n - i,
    {
        let st = s.edge_style(edges[i].from.as_str(), edges[i].to.as_str());
        edges[i].style = st;
        i += 1;
    }
    assert(lane_edge_views(edges@) =~= styled_edges(s@, lane_edge_views(before)));
    edges
}

impl Reader {
    fn run(&mut self, s: &Vec<(usize, String)>) -> (r: Result<(), (usize, Fault)>)
        requires
            old(self).wf(),
            forall|k: int| 0 <= k < s@.len() ==> (#[trigger] s@[k]).0 < usize::MAX,
        ensures
            match run_from(statement_views(s@), 0, old(self)@) {
                Ok(st) => r is Ok && final(self)@ == st && final(self).wf(),
                Err((n, f)) => r is Err && r->Err_0.0 == n && r->Err_0.1@ == f && r->Err_0.0
                    < usize::MAX,
            },
    {
        let ghost all = statement_views(s@);
        let mut i: usize = 0;
        while i < s.len()
            invariant
                i <= s@.len(),
                all == statement_views(s@),
                self.wf(),
                forall|k: int| 0 <= k < s@.len() ==> (#[trigger] s@[k]).0 < usize::MAX,
                run_from(all, 0, old(self)@) == run_from(all, i as int, self@),
            decreases s@.len() - i,
        {
            assert(all[i as int] == (s@[i as int].0 as int, s@[i as int].1@));
            match self.step(s[i].0, chars_of(s[i].1.as_str()).as_slice()) {
                Ok(_) => {},
                Err(f) => {
                    return Err((s[i].0, f));
                },
            }
            i += 1;
        }
        Ok(())
    }

    fn finish(self) -> (r: Result<AdvanceDiagram, (usize, Fault)>)
        requires
            self.wf(),
        ensures
            match finish(self@) {
                Ok(d) => r is Ok && r->Ok_0@ == d,
                Err((n, f)) => r is Err && r->Err_0.0 == n && r->Err_0.1@ == f && r->Err_0.0
                    < usize::MAX,
            },
    {
        let ghost st = self@;
        if let Some(node) = &self.blocks.node {
            return Err(
                (
                    self.blocks.line,
                    fail(cat3("node '", node.id.as_str(), "' block is never closed")),
                ),
            );
        }
        if self.lanes.stack.len() > 0 {
            let top = self.lanes.stack[0];
            assert(st.lanes.stack[0] == top as int);
            assert(st.lanes.recs[top as int].id == self.lanes.recs@[top as int].id@);
            return Err(
                (
                    self.lanes.lines[0],
                    fail(
                        cat3("lane '", self.lanes.recs[top].id.as_str(), "' block is never closed"),
                    ),
                ),
            );
        }
        if self.lanes.recs.len() == 0 {
            return Err((0, fail("diagram must define at least one lane".to_owned())));
        }
        let lanes = assemble_lane_tree(&self.lanes.recs);
        let nodes = style_nodes(&self.styles, self.nodes);
        let edges = style_edges(&self.styles, self.edges);
        Ok(
            AdvanceDiagram {
                title: self.head.title,
                description: self.head.description,
                direction: self.head.direction,
                style: AdvanceStyle::default(),
                config: self.head.config,
                lanes,
                nodes,
                edges,
            },
        )
    }
}

impl AdvanceDiagram {
    /// Reads a diagram from its line-oriented notation.
    pub fn parse_text(source: &str) -> (r: Result<AdvanceDiagram, AdvanceError>)
        ensures
            match diagram_of_notation(source@) {
                Ok(d) => r is Ok && r->Ok_0@ == d,
                Err(m) => r is Err && r->Err_0.message@ == m,
            },
    {
        let src = chars_of(source);
        let l = lines(src.as_slice());
        let s = all_statements(&l);
        proof {
            lemma_statement_lines(texts(l@), 0);
            assert(l.len() <= usize::MAX);
            assert forall|k: int| 0 <= k < s@.len() implies (#[trigger] s@[k]).0 < usize::MAX by {
                assert(statements_from(texts(l@), 0)[k].0 == s@[k].0);
            }
        }
        let mut reader = Reader::new();
        match reader.run(&s) {
            Ok(_) => {},
            Err((n, f)) => {
                return Err(text_err(&l, n, f));
            },
        }
        match reader.finish() {
            Ok(d) => Ok(d),
            Err((n, f)) => Err(text_err(&l, n, f)),
        }
    }
}

} // verus!
