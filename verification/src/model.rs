//! The data model: graphs and the other diagram types.
//!
//! Where a diagram names its parts, a name stands for the first part that
//! carries it; the `ensure_*` functions keep names unique.

use vstd::prelude::*;

use crate::num::Num;
use crate::text::str_eq;

verus! {

/// Flow direction of the diagram.
#[derive(Debug, Clone, Copy, PartialEq, Eq, Structural)]
pub enum Direction {
    /// Top-down. Alias: TB.
    TD,
    /// Left to right.
    LR,
    /// Right to left.
    RL,
    /// Bottom to top.
    BT,
}

impl Default for Direction {
    fn default() -> (r: Self)
        ensures
            r == Direction::TD,
    {
        Direction::TD
    }
}

/// Node shape.
#[derive(Debug, Clone, Copy, PartialEq, Eq, Structural)]
pub enum Shape {
    /// `A[text]`: rectangle.
    Rect,
    /// `A(text)`: rounded corners.
    Rounded,
    /// `A([text])`: stadium.
    Stadium,
    /// `A{text}`: diamond (decision).
    Diamond,
    /// `A((text))`: circle.
    Circle,
    /// `A(((text)))`: double circle (terminal).
    DoubleCircle,
    /// `A[(text)]`: cylinder (database).
    Cylinder,
    /// `A[[text]]`: subroutine.
    Subroutine,
    /// `A{{text}}`: hexagon.
    Hexagon,
    /// `A[/text/]`: parallelogram.
    Parallelogram,
    /// `A[\text\]`: parallelogram, slanted the other way.
    ParallelogramAlt,
    /// The initial pseudostate of a state diagram.
    StateStart,
    /// The final pseudostate of a state diagram.
    StateEnd,
    /// A fork or join bar of a state diagram.
    ForkBar,
}

/// Edge line style.
#[derive(Debug, Clone, Copy, PartialEq, Eq, Structural)]
pub enum EdgeKind {
    /// `-->` regular arrow.
    Arrow,
    /// `---` plain line, no arrowhead.
    Open,
    /// `-.->` dotted line with arrowhead.
    Dotted,
    /// `-.-` dotted line, no arrowhead.
    DottedOpen,
    /// `==>` thick line with arrowhead.
    Thick,
    /// `===` thick line, no arrowhead.
    ThickOpen,
    /// `~~~` invisible link: takes part in the layout but is never drawn.
    Invisible,
}

impl EdgeKind {
    /// Whether renderers should draw an arrowhead.
    pub fn has_arrow(self) -> (r: bool)
        ensures
            r == arrowed(self),
    {
        matches!(self, EdgeKind::Arrow | EdgeKind::Dotted | EdgeKind::Thick)
    }
}

pub open spec fn arrowed(k: EdgeKind) -> bool {
    k == EdgeKind::Arrow || k == EdgeKind::Dotted || k == EdgeKind::Thick
}

/// The text of an optional string.
pub open spec fn opt_text(o: Option<String>) -> Option<Seq<char>> {
    match o {
        Some(s) => Some(s@),
        None => None,
    }
}

/// The text of an optional number.
pub open spec fn opt_num(o: Option<Num>) -> Option<Seq<char>> {
    match o {
        Some(n) => Some(n@),
        None => None,
    }
}

/// A copy of an optional string.
pub fn copy_opt(o: &Option<String>) -> (r: Option<String>)
    ensures
        opt_text(r) == opt_text(*o),
{
    match o {
        Some(s) => Some(s.clone()),
        None => None,
    }
}

/// A copy of an optional number.
pub fn copy_num(o: &Option<Num>) -> (r: Option<Num>)
    ensures
        opt_num(r) == opt_num(*o),
{
    match o {
        Some(s) => Some(s.clone()),
        None => None,
    }
}

/// The second choice where the first is missing.
pub open spec fn or_else<T>(first: Option<T>, second: Option<T>) -> Option<T> {
    if first is Some {
        first
    } else {
        second
    }
}

/// Custom per-node styling; `None` fields follow the shape's theme.
#[derive(Debug, PartialEq)]
pub struct NodeStyle {
    /// `fill:#rrggbb`
    pub fill: Option<String>,
    /// `stroke:#rrggbb`
    pub stroke: Option<String>,
    /// `stroke-width:4px` (pixels)
    pub stroke_width: Option<Num>,
    /// `color:#rrggbb`: label text color.
    pub color: Option<String>,
}

/// A [`NodeStyle`] in mathematical terms.
#[verifier::ext_equal]
pub struct NodeStyleView {
    pub fill: Option<Seq<char>>,
    pub stroke: Option<Seq<char>>,
    pub stroke_width: Option<Seq<char>>,
    pub color: Option<Seq<char>>,
}

impl View for NodeStyle {
    type V = NodeStyleView;

    open spec fn view(&self) -> NodeStyleView {
        NodeStyleView {
            fill: opt_text(self.fill),
            stroke: opt_text(self.stroke),
            stroke_width: opt_num(self.stroke_width),
            color: opt_text(self.color),
        }
    }
}

/// The style that overrides nothing.
pub open spec fn no_style() -> NodeStyleView {
    NodeStyleView { fill: None, stroke: None, stroke_width: None, color: None }
}

/// `over` laid over `under`: what `over` sets wins.
pub open spec fn overlay(under: NodeStyleView, over: NodeStyleView) -> NodeStyleView {
    NodeStyleView {
        fill: or_else(over.fill, under.fill),
        stroke: or_else(over.stroke, under.stroke),
        stroke_width: or_else(over.stroke_width, under.stroke_width),
        color: or_else(over.color, under.color),
    }
}

impl Default for NodeStyle {
    fn default() -> (r: Self)
        ensures
            r@ == no_style(),
    {
        NodeStyle { fill: None, stroke: None, stroke_width: None, color: None }
    }
}

impl Clone for NodeStyle {
    fn clone(&self) -> (r: Self)
        ensures
            r@ == self@,
    {
        NodeStyle {
            fill: copy_opt(&self.fill),
            stroke: copy_opt(&self.stroke),
            stroke_width: copy_num(&self.stroke_width),
            color: copy_opt(&self.color),
        }
    }
}

impl NodeStyle {
    /// Overlay `over`'s set fields onto `self`.
    pub fn apply_over(&mut self, over: &NodeStyle)
        ensures
            final(self)@ == overlay(old(self)@, over@),
    {
        if over.fill.is_some() {
            self.fill = copy_opt(&over.fill);
        }
        if over.stroke.is_some() {
            self.stroke = copy_opt(&over.stroke);
        }
        if over.stroke_width.is_some() {
            self.stroke_width = copy_num(&over.stroke_width);
        }
        if over.color.is_some() {
            self.color = copy_opt(&over.color);
        }
    }

    /// Whether the style overrides nothing.
    pub fn is_default(&self) -> (r: bool)
        ensures
            r == (self@ == no_style()),
    {
        self.fill.is_none() && self.stroke.is_none() && self.stroke_width.is_none()
            && self.color.is_none()
    }
}

/// Laying a style over itself changes nothing, laying the empty style over
/// one changes nothing, and layers may be merged before they are applied.
pub proof fn law_overlay(a: NodeStyleView, b: NodeStyleView, c: NodeStyleView)
    ensures
        overlay(a, a) == a,
        overlay(a, no_style()) == a,
        overlay(no_style(), a) == a,
        overlay(overlay(a, b), c) == overlay(a, overlay(b, c)),
{
}

/// A node of a graph.
#[derive(Debug)]
pub struct Node {
    pub id: String,
    pub label: String,
    pub shape: Shape,
    /// Custom colors; empty means to follow the shape theme.
    pub style: NodeStyle,
}

/// A [`Node`] in mathematical terms.
#[verifier::ext_equal]
pub struct NodeView {
    pub id: Seq<char>,
    pub label: Seq<char>,
    pub shape: Shape,
    pub style: NodeStyleView,
}

impl View for Node {
    type V = NodeView;

    open spec fn view(&self) -> NodeView {
        NodeView { id: self.id@, label: self.label@, shape: self.shape, style: self.style@ }
    }
}

/// An edge between two nodes, by their indices.
#[derive(Debug)]
pub struct Edge {
    pub from: usize,
    pub to: usize,
    pub label: Option<String>,
    pub kind: EdgeKind,
}

/// An [`Edge`] in mathematical terms.
#[verifier::ext_equal]
pub struct EdgeView {
    pub from: int,
    pub to: int,
    pub label: Option<Seq<char>>,
    pub kind: EdgeKind,
}

impl View for Edge {
    type V = EdgeView;

    open spec fn view(&self) -> EdgeView {
        EdgeView {
            from: self.from as int,
            to: self.to as int,
            label: opt_text(self.label),
            kind: self.kind,
        }
    }
}

/// A titled cluster of nodes, possibly nested. Membership is by node index;
/// nested members belong to the child, not the parent.
#[derive(Debug)]
pub struct Subgraph {
    pub id: String,
    pub title: String,
    /// Direct member node indices.
    pub nodes: Vec<usize>,
    /// Enclosing subgraph, when nested.
    pub parent: Option<usize>,
    /// Flow direction of this subgraph alone.
    pub direction: Option<Direction>,
}

/// One endpoint of an edge that touches a subgraph.
#[derive(Debug, Clone, Copy, PartialEq, Eq, Structural)]
pub enum End {
    Node(usize),
    Sub(usize),
}

/// An edge where at least one endpoint is a subgraph.
#[derive(Debug)]
pub struct SubEdge {
    pub from: End,
    pub to: End,
    pub label: Option<String>,
    pub kind: EdgeKind,
}

/// A graph, ready for layout.
#[derive(Debug)]
pub struct Graph {
    pub direction: Direction,
    pub nodes: Vec<Node>,
    pub edges: Vec<Edge>,
    pub subgraphs: Vec<Subgraph>,
    /// Edges with a subgraph as an endpoint.
    pub sub_edges: Vec<SubEdge>,
}

/// The nodes of a graph in mathematical terms.
pub open spec fn node_views(nodes: Seq<Node>) -> Seq<NodeView> {
    nodes.map_values(|n: Node| n@)
}

/// The first position at or after `i` whose name is `name`.
pub open spec fn name_from(names: Seq<Seq<char>>, name: Seq<char>, i: int) -> Option<int>
    decreases names.len() - i,
{
    if i < 0 || i >= names.len() {
        None
    } else if names[i] == name {
        Some(i)
    } else {
        name_from(names, name, i + 1)
    }
}

/// The first position whose name is `name`.
pub open spec fn name_index(names: Seq<Seq<char>>, name: Seq<char>) -> Option<int> {
    name_from(names, name, 0)
}

/// Whether no name occurs twice.
pub open spec fn distinct(names: Seq<Seq<char>>) -> bool {
    forall|i: int, j: int| 0 <= i < j < names.len() ==> names[i] != names[j]
}

pub proof fn lemma_name_from(names: Seq<Seq<char>>, name: Seq<char>, i: int)
    requires
        0 <= i,
    ensures
        name_from(names, name, i) matches Some(k) ==> i <= k < names.len() && names[k] == name && (
        forall|j: int| i <= j < k ==> names[j] != name),
        name_from(names, name, i) is None ==> (forall|j: int|
            i <= j < names.len() ==> names[j] != name),
    decreases names.len() - i,
{
    if i < names.len() && names[i] != name {
        lemma_name_from(names, name, i + 1);
    }
}

/// Appending a name that is not there yet keeps names distinct, keeps what
/// every other name stands for, and gives the new name the last position.
pub proof fn lemma_push_name(names: Seq<Seq<char>>, name: Seq<char>)
    requires
        name_index(names, name) is None,
    ensures
        name_index(names.push(name), name) == Some(names.len() as int),
        distinct(names) ==> distinct(names.push(name)),
        forall|other: Seq<char>|
            other != name ==> #[trigger] name_index(names.push(name), other) == name_index(
                names,
                other,
            ),
{
    let all = names.push(name);
    lemma_name_from(names, name, 0);
    lemma_name_from(all, name, 0);
    assert(all[names.len() as int] == name);
    assert(forall|j: int| 0 <= j < names.len() ==> all[j] == names[j]);
    assert forall|other: Seq<char>| other != name implies #[trigger] name_index(all, other)
        == name_index(names, other) by {
        lemma_name_from(names, other, 0);
        lemma_name_from(all, other, 0);
    }
}

/// The node ids of a graph.
pub open spec fn node_ids(nodes: Seq<Node>) -> Seq<Seq<char>> {
    nodes.map_values(|n: Node| n.id@)
}

/// What [`Graph::ensure_node`] leaves behind.
pub open spec fn with_node(
    nodes: Seq<NodeView>,
    at: Option<int>,
    id: Seq<char>,
    label: Option<Seq<char>>,
    shape: Option<Shape>,
) -> Seq<NodeView> {
    match at {
        Some(i) => nodes.update(
            i,
            NodeView {
                id: nodes[i].id,
                label: match label {
                    Some(l) => l,
                    None => nodes[i].label,
                },
                shape: match shape {
                    Some(s) => s,
                    None => nodes[i].shape,
                },
                style: nodes[i].style,
            },
        ),
        None => nodes.push(
            NodeView {
                id,
                label: match label {
                    Some(l) => l,
                    None => id,
                },
                shape: match shape {
                    Some(s) => s,
                    None => Shape::Rect,
                },
                style: no_style(),
            },
        ),
    }
}

impl Default for Graph {
    fn default() -> (r: Self)
        ensures
            r.direction == Direction::TD,
            r.nodes@.len() == 0,
            r.edges@.len() == 0,
            r.subgraphs@.len() == 0,
            r.sub_edges@.len() == 0,
    {
        Graph {
            direction: Direction::TD,
            nodes: Vec::new(),
            edges: Vec::new(),
            subgraphs: Vec::new(),
            sub_edges: Vec::new(),
        }
    }
}

impl Graph {
    /// Look up a node by id; create it if missing. The latest label and
    /// shape override earlier ones.
    pub fn ensure_node(&mut self, id: &str, label: Option<String>, shape: Option<Shape>) -> (r:
        usize)
        ensures
            node_views(final(self).nodes@) == with_node(
                node_views(old(self).nodes@),
                name_index(node_ids(old(self).nodes@), id@),
                id@,
                opt_text(label),
                shape,
            ),
            r == match name_index(node_ids(old(self).nodes@), id@) {
                Some(i) => i,
                None => old(self).nodes@.len() as int,
            },
            name_index(node_ids(final(self).nodes@), id@) == Some(r as int),
            distinct(node_ids(old(self).nodes@)) ==> distinct(node_ids(final(self).nodes@)),
            final(self).direction == old(self).direction,
            final(self).edges == old(self).edges,
            final(self).subgraphs == old(self).subgraphs,
            final(self).sub_edges == old(self).sub_edges,
    {
        let ghost ids = node_ids(self.nodes@);
        let ghost before = node_views(self.nodes@);
        match self.node_index(id) {
            Some(i) => {
                if let Some(l) = label {
                    self.nodes[i].label = l;
                }
                if let Some(s) = shape {
                    self.nodes[i].shape = s;
                }
                assert(node_ids(self.nodes@) =~= ids);
                assert(node_views(self.nodes@) =~= with_node(
                    before,
                    Some(i as int),
                    id@,
                    opt_text(label),
                    shape,
                ));
                i
            },
            None => {
                let i: usize = self.nodes.len();
                let label = match label {
                    Some(l) => l,
                    None => id.to_owned(),
                };
                let shape = match shape {
                    Some(s) => s,
                    None => Shape::Rect,
                };
                self.nodes.push(Node { id: id.to_owned(), label, shape, style: NodeStyle::default() });
                proof {
                    lemma_push_name(ids, id@);
                    assert(node_ids(self.nodes@) =~= ids.push(id@));
                    assert(node_views(self.nodes@) =~= before.push(self.nodes@.last()@));
                }
                i
            },
        }
    }

    /// Append an edge.
    pub fn add_edge(&mut self, from: usize, to: usize, label: Option<String>, kind: EdgeKind)
        ensures
            final(self).edges@ == old(self).edges@.push(Edge { from, to, label, kind }),
            final(self).direction == old(self).direction,
            final(self).nodes == old(self).nodes,
            final(self).subgraphs == old(self).subgraphs,
            final(self).sub_edges == old(self).sub_edges,
    {
        self.edges.push(Edge { from, to, label, kind });
    }

    /// Index of an existing node by id, without creating it.
    pub fn node_index(&self, id: &str) -> (r: Option<usize>)
        ensures
            match name_index(node_ids(self.nodes@), id@) {
                Some(i) => r is Some && r->Some_0 == i && 0 <= i < self.nodes@.len(),
                None => r is None,
            },
    {
        let ghost ids = node_ids(self.nodes@);
        let mut i: usize = 0;
        while i < self.nodes.len()
            invariant
                i <= self.nodes@.len(),
                ids == node_ids(self.nodes@),
                name_index(ids, id@) == name_from(ids, id@, i as int),
            decreases self.nodes@.len() - i,
        {
            if str_eq(self.nodes[i].id.as_str(), id) {
                return Some(i);
            }
            i += 1;
        }
        None
    }
}

/// UML class diagram.
#[derive(Debug)]
pub struct ClassDiagram {
    pub classes: Vec<Class>,
    pub relations: Vec<ClassRel>,
}

impl Default for ClassDiagram {
    fn default() -> (r: Self)
        ensures
            r.classes@.len() == 0,
            r.relations@.len() == 0,
    {
        ClassDiagram { classes: Vec::new(), relations: Vec::new() }
    }
}

/// A class box: name, fields and methods.
#[derive(Debug)]
pub struct Class {
    pub name: String,
    pub fields: Vec<Member>,
    pub methods: Vec<Member>,
}

/// One field or method row.
#[derive(Debug)]
pub struct Member {
    pub visibility: Visibility,
    /// Display text after the visibility marker.
    pub text: String,
}

/// UML member visibility, shown as a leading glyph.
#[derive(Debug, Clone, Copy, PartialEq, Eq, Structural)]
pub enum Visibility {
    Public,
    Private,
    Protected,
    Package,
    Unmarked,
}

/// The glyph that marks a visibility.
pub open spec fn glyph_text(v: Visibility) -> Seq<char> {
    match v {
        Visibility::Public => "+"@,
        Visibility::Private => "-"@,
        Visibility::Protected => "#"@,
        Visibility::Package => "~"@,
        Visibility::Unmarked => ""@,
    }
}

impl Visibility {
    pub fn glyph(self) -> (r: &'static str)
        ensures
            r@ == glyph_text(self),
    {
        match self {
            Visibility::Public => "+",
            Visibility::Private => "-",
            Visibility::Protected => "#",
            Visibility::Package => "~",
            Visibility::Unmarked => "",
        }
    }
}

/// A relationship between two classes; the end glyph sits at the `to` end.
#[derive(Debug)]
pub struct ClassRel {
    pub from: usize,
    pub to: usize,
    pub kind: RelKind,
    /// Dashed line (realization, dependency, `..` link).
    pub dashed: bool,
    pub from_card: Option<String>,
    pub to_card: Option<String>,
    pub label: Option<String>,
}

/// UML relationship type.
#[derive(Debug, Clone, Copy, PartialEq, Eq, Structural)]
pub enum RelKind {
    /// `<|--`: hollow triangle at the parent.
    Inheritance,
    /// `..|>`: hollow triangle, dashed line.
    Realization,
    /// `*--`: filled diamond.
    Composition,
    /// `o--`: hollow diamond.
    Aggregation,
    /// `-->`: open arrow.
    Association,
    /// `..>`: open arrow, dashed line.
    Dependency,
    /// `--`: plain line.
    Link,
}

/// The names of the classes in order.
pub open spec fn class_names(classes: Seq<Class>) -> Seq<Seq<char>> {
    classes.map_values(|x: Class| x.name@)
}

impl ClassDiagram {
    /// Look up a class by name; create it, empty, if missing.
    pub fn ensure_class(&mut self, name: &str) -> (r: usize)
        ensures
            match name_index(class_names(old(self).classes@), name@) {
                Some(i) => r == i && final(self).classes@ == old(self).classes@,
                None => {
                    &&& r == old(self).classes@.len()
                    &&& final(self).classes@.len() == r + 1
                    &&& final(self).classes@.drop_last() == old(self).classes@
                    &&& final(self).classes@.last().name@ == name@
                    &&& final(self).classes@.last().fields@.len() == 0
                    &&& final(self).classes@.last().methods@.len() == 0
                },
            },
            name_index(class_names(final(self).classes@), name@) == Some(r as int),
            distinct(class_names(old(self).classes@)) ==> distinct(class_names(final(self).classes@)),
            final(self).relations == old(self).relations,
    {
        let ghost names = class_names(self.classes@);
        match self.class_index(name) {
            Some(i) => i,
            None => {
                let i: usize = self.classes.len();
                let ghost before = self.classes@;
                self.classes.push(Class { name: name.to_owned(), fields: Vec::new(), methods: Vec::new() });
                proof {
                    lemma_push_name(names, name@);
                    assert(class_names(self.classes@) =~= names.push(name@));
                    assert(self.classes@.drop_last() =~= before);
                }
                i
            },
        }
    }

    /// Index of an existing class by name.
    pub fn class_index(&self, name: &str) -> (r: Option<usize>)
        ensures
            match name_index(class_names(self.classes@), name@) {
                Some(i) => r is Some && r->Some_0 == i && 0 <= i < self.classes@.len(),
                None => r is None,
            },
    {
        let ghost names = class_names(self.classes@);
        let mut i: usize = 0;
        while i < self.classes.len()
            invariant
                i <= self.classes@.len(),
                names == class_names(self.classes@),
                name_index(names, name@) == name_from(names, name@, i as int),
            decreases self.classes@.len() - i,
        {
            if str_eq(self.classes[i].name.as_str(), name) {
                return Some(i);
            }
            i += 1;
        }
        None
    }
}

/// Sequence diagram: participants and statements in source order.
#[derive(Debug)]
pub struct SequenceDiagram {
    pub participants: Vec<Participant>,
    pub items: Vec<SeqItem>,
    /// Messages get a running number.
    pub autonumber: bool,
}

impl Default for SequenceDiagram {
    fn default() -> (r: Self)
        ensures
            r.participants@.len() == 0,
            r.items@.len() == 0,
            !r.autonumber,
    {
        SequenceDiagram { participants: Vec::new(), items: Vec::new(), autonumber: false }
    }
}

/// One lifeline column.
#[derive(Debug)]
pub struct Participant {
    pub id: String,
    pub label: String,
    /// Declared with `actor`: drawn as an outlined box.
    pub actor: bool,
}

/// One statement of a sequence diagram.
#[derive(Debug)]
pub enum SeqItem {
    /// `A->>B: text` with any arrow operator.
    Message {
        from: usize,
        to: usize,
        text: String,
        /// Dashed line.
        dashed: bool,
        head: SeqHead,
        /// Activate `to` at this message.
        activate: bool,
        /// Deactivate `from` at this message.
        deactivate: bool,
    },
    /// `Note over A,B: text` and its other forms.
    Note { side: NoteSide, text: String },
    /// `activate A`.
    Activate(usize),
    /// `deactivate A`.
    Deactivate(usize),
    /// Opens a labeled frame.
    FrameStart { kind: FrameKind, label: String },
    /// A divider inside the innermost frame.
    FrameElse { label: String },
    /// Closes the innermost frame.
    FrameEnd,
}

/// Arrowhead at the target end of a message.
#[derive(Debug, Clone, Copy, PartialEq, Eq, Structural)]
pub enum SeqHead {
    /// Filled triangle.
    Filled,
    /// Thin open V.
    Open,
    /// Cross just before the lifeline.
    Cross,
    /// Async open arrow.
    Async,
    /// Plain line.
    Plain,
}

/// Where a note attaches.
#[derive(Debug, Clone, Copy, PartialEq, Eq, Structural)]
pub enum NoteSide {
    /// Spans one or two lifelines.
    Over(usize, Option<usize>),
    LeftOf(usize),
    RightOf(usize),
}

/// Kind of a frame.
#[derive(Debug, Clone, Copy, PartialEq, Eq, Structural)]
pub enum FrameKind {
    Loop,
    Opt,
    Alt,
    Par,
}

/// The keyword of a frame kind.
pub open spec fn keyword_text(k: FrameKind) -> Seq<char> {
    match k {
        FrameKind::Loop => "loop"@,
        FrameKind::Opt => "opt"@,
        FrameKind::Alt => "alt"@,
        FrameKind::Par => "par"@,
    }
}

impl FrameKind {
    pub fn keyword(self) -> (r: &'static str)
        ensures
            r@ == keyword_text(self),
    {
        match self {
            FrameKind::Loop => "loop",
            FrameKind::Opt => "opt",
            FrameKind::Alt => "alt",
            FrameKind::Par => "par",
        }
    }
}

/// The names of the participants in order.
pub open spec fn participant_ids(participants: Seq<Participant>) -> Seq<Seq<char>> {
    participants.map_values(|x: Participant| x.id@)
}

impl SequenceDiagram {
    /// Look up a participant by id; create it, labelled by its id, if missing.
    pub fn ensure_participant(&mut self, name: &str) -> (r: usize)
        ensures
            match name_index(participant_ids(old(self).participants@), name@) {
                Some(i) => r == i && final(self).participants@ == old(self).participants@,
                None => {
                    &&& r == old(self).participants@.len()
                    &&& final(self).participants@.len() == r + 1
                    &&& final(self).participants@.drop_last() == old(self).participants@
                    &&& final(self).participants@.last().id@ == name@
                    &&& final(self).participants@.last().label@ == name@
                    &&& !final(self).participants@.last().actor
                },
            },
            name_index(participant_ids(final(self).participants@), name@) == Some(r as int),
            distinct(participant_ids(old(self).participants@)) ==> distinct(participant_ids(final(self).participants@)),
            final(self).items == old(self).items,
            final(self).autonumber == old(self).autonumber,
    {
        let ghost names = participant_ids(self.participants@);
        match self.participant_index(name) {
            Some(i) => i,
            None => {
                let i: usize = self.participants.len();
                let ghost before = self.participants@;
                self.participants.push(Participant {
                    id: name.to_owned(),
                    label: name.to_owned(),
                    actor: false,
                });
                proof {
                    lemma_push_name(names, name@);
                    assert(participant_ids(self.participants@) =~= names.push(name@));
                    assert(self.participants@.drop_last() =~= before);
                }
                i
            },
        }
    }

    /// Index of an existing participant by id.
    pub fn participant_index(&self, name: &str) -> (r: Option<usize>)
        ensures
            match name_index(participant_ids(self.participants@), name@) {
                Some(i) => r is Some && r->Some_0 == i && 0 <= i < self.participants@.len(),
                None => r is None,
            },
    {
        let ghost names = participant_ids(self.participants@);
        let mut i: usize = 0;
        while i < self.participants.len()
            invariant
                i <= self.participants@.len(),
                names == participant_ids(self.participants@),
                name_index(names, name@) == name_from(names, name@, i as int),
            decreases self.participants@.len() - i,
        {
            if str_eq(self.participants[i].id.as_str(), name) {
                return Some(i);
            }
            i += 1;
        }
        None
    }
}

/// Entity-relationship diagram.
#[derive(Debug)]
pub struct ErDiagram {
    pub entities: Vec<Entity>,
    pub relations: Vec<Relation>,
}

impl Default for ErDiagram {
    fn default() -> (r: Self)
        ensures
            r.entities@.len() == 0,
            r.relations@.len() == 0,
    {
        ErDiagram { entities: Vec::new(), relations: Vec::new() }
    }
}

/// A database entity.
#[derive(Debug)]
pub struct Entity {
    pub name: String,
    pub attrs: Vec<Attr>,
}

/// One attribute row of an entity.
#[derive(Debug)]
pub struct Attr {
    pub ty: String,
    pub name: String,
    pub keys: Vec<Key>,
    pub comment: Option<String>,
}

/// Attribute key marker.
#[derive(Debug, Clone, Copy, PartialEq, Eq, Structural)]
pub enum Key {
    Pk,
    Fk,
    Uk,
}

/// The display tag of a key marker.
pub open spec fn tag_text(k: Key) -> Seq<char> {
    match k {
        Key::Pk => "PK"@,
        Key::Fk => "FK"@,
        Key::Uk => "UK"@,
    }
}

impl Key {
    pub fn tag(self) -> (r: &'static str)
        ensures
            r@ == tag_text(self),
    {
        match self {
            Key::Pk => "PK",
            Key::Fk => "FK",
            Key::Uk => "UK",
        }
    }
}

/// Relationship between two entities.
#[derive(Debug)]
pub struct Relation {
    pub from: usize,
    pub to: usize,
    pub card_from: Card,
    pub card_to: Card,
    /// Identifying (solid line) or not (dashed).
    pub identifying: bool,
    pub label: Option<String>,
}

/// Relationship cardinality on one side.
#[derive(Debug, Clone, Copy, PartialEq, Eq, Structural)]
pub enum Card {
    /// `||` exactly one.
    One,
    /// `|o` zero or one.
    ZeroOne,
    /// `}o` zero or many.
    ZeroMany,
    /// `}|` one or many.
    OneMany,
}

/// The names of the entities in order.
pub open spec fn entity_names(entities: Seq<Entity>) -> Seq<Seq<char>> {
    entities.map_values(|x: Entity| x.name@)
}

impl ErDiagram {
    /// Look up an entity by name; create it, without attributes, if missing.
    pub fn ensure_entity(&mut self, name: &str) -> (r: usize)
        ensures
            match name_index(entity_names(old(self).entities@), name@) {
                Some(i) => r == i && final(self).entities@ == old(self).entities@,
                None => {
                    &&& r == old(self).entities@.len()
                    &&& final(self).entities@.len() == r + 1
                    &&& final(self).entities@.drop_last() == old(self).entities@
                    &&& final(self).entities@.last().name@ == name@
                    &&& final(self).entities@.last().attrs@.len() == 0
                },
            },
            name_index(entity_names(final(self).entities@), name@) == Some(r as int),
            distinct(entity_names(old(self).entities@)) ==> distinct(entity_names(final(self).entities@)),
            final(self).relations == old(self).relations,
    {
        let ghost names = entity_names(self.entities@);
        match self.entity_index(name) {
            Some(i) => i,
            None => {
                let i: usize = self.entities.len();
                let ghost before = self.entities@;
                self.entities.push(Entity { name: name.to_owned(), attrs: Vec::new() });
                proof {
                    lemma_push_name(names, name@);
                    assert(entity_names(self.entities@) =~= names.push(name@));
                    assert(self.entities@.drop_last() =~= before);
                }
                i
            },
        }
    }

    /// Index of an existing entity by name.
    pub fn entity_index(&self, name: &str) -> (r: Option<usize>)
        ensures
            match name_index(entity_names(self.entities@), name@) {
                Some(i) => r is Some && r->Some_0 == i && 0 <= i < self.entities@.len(),
                None => r is None,
            },
    {
        let ghost names = entity_names(self.entities@);
        let mut i: usize = 0;
        while i < self.entities.len()
            invariant
                i <= self.entities@.len(),
                names == entity_names(self.entities@),
                name_index(names, name@) == name_from(names, name@, i as int),
            decreases self.entities@.len() - i,
        {
            if str_eq(self.entities[i].name.as_str(), name) {
                return Some(i);
            }
            i += 1;
        }
        None
    }
}

/// A mindmap: a tree of text nodes, the root first.
#[derive(Debug)]
pub struct Mindmap {
    pub nodes: Vec<MindNode>,
}

/// One mindmap node. `branch` is the index of the child of the root that
/// the node descends from; `None` for the root.
#[derive(Debug)]
pub struct MindNode {
    pub text: String,
    pub shape: MindShape,
    pub parent: Option<usize>,
    pub children: Vec<usize>,
    pub depth: usize,
    pub branch: Option<usize>,
}

/// Node outline in a mindmap.
#[derive(Debug, Clone, Copy, PartialEq, Eq, Structural)]
pub enum MindShape {
    Rounded,
    Square,
    Circle,
    Hexagon,
    Bang,
    Cloud,
}

} // verus!
