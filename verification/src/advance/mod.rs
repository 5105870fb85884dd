//! Swimlane diagrams: lanes, nodes inside lanes, and edges between them.
//!
//! A diagram is read from JSON ([`read_json`]) or from a line-oriented
//! notation ([`read_text`]) and written back to JSON ([`write_json`]).

use vstd::prelude::*;

use crate::model::{copy_num, copy_opt, opt_num, opt_text, or_else};
use crate::model::{EdgeKind, NodeStyle, NodeStyleView, Shape};
use crate::num::Num;
use crate::text::strings;

pub mod end_laws;
pub mod ends;
pub mod hit;
pub mod hit_laws;
pub mod lane_tree;
pub mod marker_laws;
pub mod names;
pub mod notation_laws;
pub mod order;
pub mod order_laws;
pub mod parse_laws;
pub mod placed_laws;
pub mod place;
pub mod pull_laws;
pub mod read_json;
pub mod read_text;
pub mod render;
pub mod round_trip;
pub mod route;
pub mod scene;
pub mod scene_json;
pub mod scene_laws;
pub mod soundness;
pub mod style_laws;
pub mod svg;
pub mod svg_laws;
pub mod svg_node;
pub mod text_parts;
pub mod write_json;

verus! {

/// Something went wrong while reading a swimlane diagram.
#[derive(Debug, Clone, PartialEq)]
pub struct AdvanceError {
    pub message: String,
}

/// An error with the given message.
pub fn adv_err(message: String) -> (r: AdvanceError)
    ensures
        r.message@ == message@,
{
    AdvanceError { message }
}

impl AdvanceError {
    /// The message, as it is shown to a user.
    pub fn to_text(&self) -> (r: String)
        ensures
            r@ == self.message@,
    {
        self.message.clone()
    }
}

/// Orientation of the swimlanes and node flow.
#[derive(Debug, Clone, Copy, PartialEq, Eq, Structural)]
pub enum AdvanceDirection {
    /// Vertical columns, top-to-bottom node flow.
    Vertical,
    /// Horizontal rows, left-to-right node flow.
    Horizontal,
}

/// Node ordering strategy within each lane.
#[derive(Debug, Clone, Copy, PartialEq, Eq, Structural)]
pub enum AdvanceOrder {
    /// Follow declaration order.
    Declaration,
    /// Topological order on edges inside the lane, refined by the mean
    /// position of neighbours in other lanes.
    Topology,
}

/// How a node or element stacks its sub-elements: top to bottom, or side by
/// side.
#[derive(Debug, Clone, Copy, PartialEq, Eq, Structural)]
pub enum ElementLayout {
    Column,
    Row,
}

/// The keyword of a layout.
pub open spec fn layout_name(l: ElementLayout) -> Seq<char> {
    match l {
        ElementLayout::Column => "column"@,
        ElementLayout::Row => "row"@,
    }
}

impl ElementLayout {
    pub fn name(&self) -> (r: &'static str)
        ensures
            r@ == layout_name(*self),
    {
        match self {
            ElementLayout::Column => "column",
            ElementLayout::Row => "row",
        }
    }
}

/// A side of a node where an edge attaches.
#[derive(Debug, Clone, Copy, PartialEq, Eq, Structural)]
pub enum AdvanceSide {
    Left,
    Right,
    Top,
    Bottom,
}

/// The keyword of a side.
pub open spec fn side_name(s: AdvanceSide) -> Seq<char> {
    match s {
        AdvanceSide::Left => "left"@,
        AdvanceSide::Right => "right"@,
        AdvanceSide::Top => "top"@,
        AdvanceSide::Bottom => "bottom"@,
    }
}

impl AdvanceSide {
    /// The canonical keyword for this side.
    pub fn name(&self) -> (r: &'static str)
        ensures
            r@ == side_name(*self),
    {
        match self {
            AdvanceSide::Left => "left",
            AdvanceSide::Right => "right",
            AdvanceSide::Top => "top",
            AdvanceSide::Bottom => "bottom",
        }
    }
}

/// A named connection point on the boundary of a node or sub-element.
/// `offset` runs along the side from zero to one.
#[derive(Debug, Clone, PartialEq)]
pub struct AdvanceAnchor {
    pub id: String,
    pub side: AdvanceSide,
    pub offset: Num,
}

/// An [`AdvanceAnchor`] in mathematical terms.
#[verifier::ext_equal]
pub struct AnchorView {
    pub id: Seq<char>,
    pub side: AdvanceSide,
    pub offset: Seq<char>,
}

impl View for AdvanceAnchor {
    type V = AnchorView;

    open spec fn view(&self) -> AnchorView {
        AnchorView { id: self.id@, side: self.side, offset: self.offset@ }
    }
}

pub open spec fn anchor_views(a: Seq<AdvanceAnchor>) -> Seq<AnchorView> {
    a.map_values(|x: AdvanceAnchor| x@)
}

/// A sub-element inside a node. It has its own id, can carry anchors and
/// nested elements, and can be an edge endpoint.
#[derive(Debug, PartialEq)]
pub struct AdvanceElement {
    pub id: String,
    pub label: String,
    pub anchors: Vec<AdvanceAnchor>,
    pub elements: Vec<AdvanceElement>,
    pub layout: ElementLayout,
    /// Style overrides; empty means to inherit the node's look.
    pub style: NodeStyle,
}

/// An [`AdvanceElement`] in mathematical terms.
#[verifier::ext_equal]
pub struct ElementView {
    pub id: Seq<char>,
    pub label: Seq<char>,
    pub anchors: Seq<AnchorView>,
    pub elements: Seq<ElementView>,
    pub layout: ElementLayout,
    pub style: NodeStyleView,
}

pub open spec fn element_views(e: Seq<AdvanceElement>) -> Seq<ElementView>
    decreases e,
{
    Seq::new(
        e.len(),
        |i: int|
            if 0 <= i < e.len() {
                element_view(e[i])
            } else {
                arbitrary()
            },
    )
}

pub open spec fn element_view(e: AdvanceElement) -> ElementView
    decreases e,
{
    ElementView {
        id: e.id@,
        label: e.label@,
        anchors: anchor_views(e.anchors@),
        elements: element_views(e.elements@),
        layout: e.layout,
        style: e.style@,
    }
}

impl View for AdvanceElement {
    type V = ElementView;

    open spec fn view(&self) -> ElementView {
        element_view(*self)
    }
}

/// What an edge end attaches to, beyond the node: a side keyword or a
/// named anchor.
#[derive(Debug, Clone, PartialEq)]
pub enum AnchorRef {
    Side(AdvanceSide),
    Named(String),
}

/// An [`AnchorRef`] in mathematical terms.
#[verifier::ext_equal]
pub enum AnchorRefView {
    Side(AdvanceSide),
    Named(Seq<char>),
}

/// One end of an edge, as written: `node`, an optional path of sub-element
/// ids (`node.a.b`), and an optional `:side` or `@anchor`.
#[derive(Debug, PartialEq)]
pub struct AdvanceEnd {
    pub node: String,
    pub path: Vec<String>,
    pub at: Option<AnchorRef>,
}

/// An [`AdvanceEnd`] in mathematical terms.
#[verifier::ext_equal]
pub struct EndView {
    pub node: Seq<char>,
    pub path: Seq<Seq<char>>,
    pub at: Option<AnchorRefView>,
}

pub open spec fn at_view(at: Option<AnchorRef>) -> Option<AnchorRefView> {
    match at {
        None => None,
        Some(AnchorRef::Side(s)) => Some(AnchorRefView::Side(s)),
        Some(AnchorRef::Named(a)) => Some(AnchorRefView::Named(a@)),
    }
}

impl View for AdvanceEnd {
    type V = EndView;

    open spec fn view(&self) -> EndView {
        EndView { node: self.node@, path: strings(self.path@), at: at_view(self.at) }
    }
}

impl Clone for AdvanceEnd {
    fn clone(&self) -> (r: Self)
        ensures
            r@ == self@,
    {
        AdvanceEnd {
            node: self.node.clone(),
            path: crate::text::copy_strings(&self.path),
            at: match &self.at {
                None => None,
                Some(AnchorRef::Side(s)) => Some(AnchorRef::Side(*s)),
                Some(AnchorRef::Named(a)) => Some(AnchorRef::Named(a.clone())),
            },
        }
    }
}

/// Visual styling of a whole diagram.
#[derive(Debug, PartialEq)]
pub struct AdvanceStyle {
    pub lane_fill: String,
    pub lane_stroke: String,
    pub edge_color: String,
    pub text_color: String,
    pub label_fill: String,
}

pub const DEFAULT_LANE_FILL: &'static str = "#f9fafd";

pub const DEFAULT_LANE_STROKE: &'static str = "#d5d9ec";

pub const DEFAULT_EDGE_COLOR: &'static str = "#44507a";

pub const DEFAULT_TEXT_COLOR: &'static str = "#232840";

pub const DEFAULT_LABEL_FILL: &'static str = "#ffffff";

/// An [`AdvanceStyle`] in mathematical terms.
#[verifier::ext_equal]
pub struct StyleView {
    pub lane_fill: Seq<char>,
    pub lane_stroke: Seq<char>,
    pub edge_color: Seq<char>,
    pub text_color: Seq<char>,
    pub label_fill: Seq<char>,
}

impl View for AdvanceStyle {
    type V = StyleView;

    open spec fn view(&self) -> StyleView {
        StyleView {
            lane_fill: self.lane_fill@,
            lane_stroke: self.lane_stroke@,
            edge_color: self.edge_color@,
            text_color: self.text_color@,
            label_fill: self.label_fill@,
        }
    }
}

pub open spec fn default_style() -> StyleView {
    StyleView {
        lane_fill: DEFAULT_LANE_FILL@,
        lane_stroke: DEFAULT_LANE_STROKE@,
        edge_color: DEFAULT_EDGE_COLOR@,
        text_color: DEFAULT_TEXT_COLOR@,
        label_fill: DEFAULT_LABEL_FILL@,
    }
}

impl Default for AdvanceStyle {
    fn default() -> (r: Self)
        ensures
            r@ == default_style(),
    {
        AdvanceStyle {
            lane_fill: DEFAULT_LANE_FILL.to_owned(),
            lane_stroke: DEFAULT_LANE_STROKE.to_owned(),
            edge_color: DEFAULT_EDGE_COLOR.to_owned(),
            text_color: DEFAULT_TEXT_COLOR.to_owned(),
            label_fill: DEFAULT_LABEL_FILL.to_owned(),
        }
    }
}

impl Clone for AdvanceStyle {
    fn clone(&self) -> (r: Self)
        ensures
            r@ == self@,
    {
        AdvanceStyle {
            lane_fill: self.lane_fill.clone(),
            lane_stroke: self.lane_stroke.clone(),
            edge_color: self.edge_color.clone(),
            text_color: self.text_color.clone(),
            label_fill: self.label_fill.clone(),
        }
    }
}

/// Per-edge visual overrides; `None` fields follow the [`AdvanceStyle`].
#[derive(Debug, PartialEq)]
pub struct AdvanceEdgeStyle {
    /// Stroke color.
    pub color: Option<String>,
    /// Stroke width in pixels.
    pub stroke_width: Option<Num>,
    /// Dash pattern.
    pub dash: Option<String>,
    /// Background of the edge label box.
    pub label_fill: Option<String>,
}

/// An [`AdvanceEdgeStyle`] in mathematical terms.
#[verifier::ext_equal]
pub struct EdgeStyleView {
    pub color: Option<Seq<char>>,
    pub stroke_width: Option<Seq<char>>,
    pub dash: Option<Seq<char>>,
    pub label_fill: Option<Seq<char>>,
}

impl View for AdvanceEdgeStyle {
    type V = EdgeStyleView;

    open spec fn view(&self) -> EdgeStyleView {
        EdgeStyleView {
            color: opt_text(self.color),
            stroke_width: opt_num(self.stroke_width),
            dash: opt_text(self.dash),
            label_fill: opt_text(self.label_fill),
        }
    }
}

/// The edge style that overrides nothing.
pub open spec fn no_edge_style() -> EdgeStyleView {
    EdgeStyleView { color: None, stroke_width: None, dash: None, label_fill: None }
}

/// `over` laid over `under`: what `over` sets wins.
pub open spec fn overlay_edge(under: EdgeStyleView, over: EdgeStyleView) -> EdgeStyleView {
    EdgeStyleView {
        color: or_else(over.color, under.color),
        stroke_width: or_else(over.stroke_width, under.stroke_width),
        dash: or_else(over.dash, under.dash),
        label_fill: or_else(over.label_fill, under.label_fill),
    }
}

impl Default for AdvanceEdgeStyle {
    fn default() -> (r: Self)
        ensures
            r@ == no_edge_style(),
    {
        AdvanceEdgeStyle { color: None, stroke_width: None, dash: None, label_fill: None }
    }
}

impl Clone for AdvanceEdgeStyle {
    fn clone(&self) -> (r: Self)
        ensures
            r@ == self@,
    {
        AdvanceEdgeStyle {
            color: copy_opt(&self.color),
            stroke_width: copy_num(&self.stroke_width),
            dash: copy_opt(&self.dash),
            label_fill: copy_opt(&self.label_fill),
        }
    }
}

impl AdvanceEdgeStyle {
    /// Overlay `over`'s set fields onto `self`.
    pub fn apply_over(&mut self, over: &AdvanceEdgeStyle)
        ensures
            final(self)@ == overlay_edge(old(self)@, over@),
    {
        if over.color.is_some() {
            self.color = copy_opt(&over.color);
        }
        if over.stroke_width.is_some() {
            self.stroke_width = copy_num(&over.stroke_width);
        }
        if over.dash.is_some() {
            self.dash = copy_opt(&over.dash);
        }
        if over.label_fill.is_some() {
            self.label_fill = copy_opt(&over.label_fill);
        }
    }

    /// Whether the style overrides nothing.
    pub fn is_default(&self) -> (r: bool)
        ensures
            r == (self@ == no_edge_style()),
    {
        self.color.is_none() && self.stroke_width.is_none() && self.dash.is_none()
            && self.label_fill.is_none()
    }
}

/// Laying an edge style over itself changes nothing, laying the empty style
/// over one changes nothing, and layers may be merged before they are
/// applied.
pub proof fn law_overlay_edge(a: EdgeStyleView, b: EdgeStyleView, c: EdgeStyleView)
    ensures
        overlay_edge(a, a) == a,
        overlay_edge(a, no_edge_style()) == a,
        overlay_edge(no_edge_style(), a) == a,
        overlay_edge(overlay_edge(a, b), c) == overlay_edge(a, overlay_edge(b, c)),
{
}

/// Where the later edge style sets a field, the field has the later value,
/// and else the earlier.
pub proof fn law_later_edge_style_wins(under: EdgeStyleView, over: EdgeStyleView)
    ensures
        over.color is Some ==> overlay_edge(under, over).color == over.color,
        over.color is None ==> overlay_edge(under, over).color == under.color,
        over.stroke_width is Some ==> overlay_edge(under, over).stroke_width == over.stroke_width,
        over.stroke_width is None ==> overlay_edge(under, over).stroke_width == under.stroke_width,
        over.dash is Some ==> overlay_edge(under, over).dash == over.dash,
        over.dash is None ==> overlay_edge(under, over).dash == under.dash,
        over.label_fill is Some ==> overlay_edge(under, over).label_fill == over.label_fill,
        over.label_fill is None ==> overlay_edge(under, over).label_fill == under.label_fill,
{
}

/// Spacing configuration, in pixels.
#[derive(Debug, Clone, PartialEq)]
pub struct AdvanceConfig {
    pub margin: Num,
    pub lane_gap: Num,
    pub node_gap_y: Num,
    pub lane_pad_x: Num,
    pub lane_pad_y: Num,
    pub lane_title_h: Num,
    pub order: AdvanceOrder,
}

pub const DEFAULT_MARGIN: &'static str = "24";

pub const DEFAULT_LANE_GAP: &'static str = "40";

pub const DEFAULT_NODE_GAP_Y: &'static str = "48";

pub const DEFAULT_LANE_PAD_X: &'static str = "20";

pub const DEFAULT_LANE_PAD_Y: &'static str = "40";

pub const DEFAULT_LANE_TITLE_H: &'static str = "26";

/// An [`AdvanceConfig`] in mathematical terms.
#[verifier::ext_equal]
pub struct ConfigView {
    pub margin: Seq<char>,
    pub lane_gap: Seq<char>,
    pub node_gap_y: Seq<char>,
    pub lane_pad_x: Seq<char>,
    pub lane_pad_y: Seq<char>,
    pub lane_title_h: Seq<char>,
    pub order: AdvanceOrder,
}

impl View for AdvanceConfig {
    type V = ConfigView;

    open spec fn view(&self) -> ConfigView {
        ConfigView {
            margin: self.margin@,
            lane_gap: self.lane_gap@,
            node_gap_y: self.node_gap_y@,
            lane_pad_x: self.lane_pad_x@,
            lane_pad_y: self.lane_pad_y@,
            lane_title_h: self.lane_title_h@,
            order: self.order,
        }
    }
}

pub open spec fn default_config() -> ConfigView {
    ConfigView {
        margin: DEFAULT_MARGIN@,
        lane_gap: DEFAULT_LANE_GAP@,
        node_gap_y: DEFAULT_NODE_GAP_Y@,
        lane_pad_x: DEFAULT_LANE_PAD_X@,
        lane_pad_y: DEFAULT_LANE_PAD_Y@,
        lane_title_h: DEFAULT_LANE_TITLE_H@,
        order: AdvanceOrder::Declaration,
    }
}

impl Default for AdvanceConfig {
    fn default() -> (r: Self)
        ensures
            r@ == default_config(),
    {
        AdvanceConfig {
            margin: Num::of(DEFAULT_MARGIN),
            lane_gap: Num::of(DEFAULT_LANE_GAP),
            node_gap_y: Num::of(DEFAULT_NODE_GAP_Y),
            lane_pad_x: Num::of(DEFAULT_LANE_PAD_X),
            lane_pad_y: Num::of(DEFAULT_LANE_PAD_Y),
            lane_title_h: Num::of(DEFAULT_LANE_TITLE_H),
            order: AdvanceOrder::Declaration,
        }
    }
}

/// One swimlane; it may contain sub-lanes.
#[derive(Debug, PartialEq)]
pub struct AdvanceLane {
    pub id: String,
    pub title: String,
    pub children: Vec<AdvanceLane>,
}

/// An [`AdvanceLane`] in mathematical terms.
#[verifier::ext_equal]
pub struct LaneView {
    pub id: Seq<char>,
    pub title: Seq<char>,
    pub children: Seq<LaneView>,
}

pub open spec fn lane_views(l: Seq<AdvanceLane>) -> Seq<LaneView>
    decreases l,
{
    Seq::new(
        l.len(),
        |i: int|
            if 0 <= i < l.len() {
                lane_view(l[i])
            } else {
                arbitrary()
            },
    )
}

pub open spec fn lane_view(l: AdvanceLane) -> LaneView
    decreases l,
{
    LaneView { id: l.id@, title: l.title@, children: lane_views(l.children@) }
}

impl View for AdvanceLane {
    type V = LaneView;

    open spec fn view(&self) -> LaneView {
        lane_view(*self)
    }
}

/// One node inside a lane.
#[derive(Debug, PartialEq)]
pub struct AdvanceNode {
    pub id: String,
    pub label: String,
    pub lane: String,
    pub shape: Shape,
    pub x: Option<Num>,
    pub y: Option<Num>,
    pub w: Option<Num>,
    pub h: Option<Num>,
    /// Style overrides; empty means to follow the shape theme.
    pub style: NodeStyle,
    /// Named connection points on the node boundary.
    pub anchors: Vec<AdvanceAnchor>,
    /// Sub-elements drawn inside the node.
    pub elements: Vec<AdvanceElement>,
    /// How `elements` stack.
    pub layout: ElementLayout,
}

/// An [`AdvanceNode`] in mathematical terms.
#[verifier::ext_equal]
pub struct LaneNodeView {
    pub id: Seq<char>,
    pub label: Seq<char>,
    pub lane: Seq<char>,
    pub shape: Shape,
    pub x: Option<Seq<char>>,
    pub y: Option<Seq<char>>,
    pub w: Option<Seq<char>>,
    pub h: Option<Seq<char>>,
    pub style: NodeStyleView,
    pub anchors: Seq<AnchorView>,
    pub elements: Seq<ElementView>,
    pub layout: ElementLayout,
}

impl View for AdvanceNode {
    type V = LaneNodeView;

    open spec fn view(&self) -> LaneNodeView {
        LaneNodeView {
            id: self.id@,
            label: self.label@,
            lane: self.lane@,
            shape: self.shape,
            x: opt_num(self.x),
            y: opt_num(self.y),
            w: opt_num(self.w),
            h: opt_num(self.h),
            style: self.style@,
            anchors: anchor_views(self.anchors@),
            elements: element_views(self.elements@),
            layout: self.layout,
        }
    }
}

pub open spec fn lane_node_views(n: Seq<AdvanceNode>) -> Seq<LaneNodeView> {
    n.map_values(|x: AdvanceNode| x@)
}

/// One edge between two nodes.
#[derive(Debug, PartialEq)]
pub struct AdvanceEdge {
    pub from: String,
    pub to: String,
    pub label: Option<String>,
    pub kind: EdgeKind,
    /// Style overrides; empty means to follow the diagram's style.
    pub style: AdvanceEdgeStyle,
    /// Side on the source node; `None` leaves it to the router.
    pub from_side: Option<AdvanceSide>,
    /// Side on the target node; `None` leaves it to the router.
    pub to_side: Option<AdvanceSide>,
    /// The full source reference.
    pub from_end: AdvanceEnd,
    /// The full target reference.
    pub to_end: AdvanceEnd,
}

/// An [`AdvanceEdge`] in mathematical terms.
#[verifier::ext_equal]
pub struct LaneEdgeView {
    pub from: Seq<char>,
    pub to: Seq<char>,
    pub label: Option<Seq<char>>,
    pub kind: EdgeKind,
    pub style: EdgeStyleView,
    pub from_side: Option<AdvanceSide>,
    pub to_side: Option<AdvanceSide>,
    pub from_end: EndView,
    pub to_end: EndView,
}

impl View for AdvanceEdge {
    type V = LaneEdgeView;

    open spec fn view(&self) -> LaneEdgeView {
        LaneEdgeView {
            from: self.from@,
            to: self.to@,
            label: opt_text(self.label),
            kind: self.kind,
            style: self.style@,
            from_side: self.from_side,
            to_side: self.to_side,
            from_end: self.from_end@,
            to_end: self.to_end@,
        }
    }
}

pub open spec fn lane_edge_views(e: Seq<AdvanceEdge>) -> Seq<LaneEdgeView> {
    e.map_values(|x: AdvanceEdge| x@)
}

/// A swimlane diagram, ready for layout.
#[derive(Debug, PartialEq)]
pub struct AdvanceDiagram {
    pub title: Option<String>,
    pub description: Option<String>,
    pub direction: AdvanceDirection,
    pub style: AdvanceStyle,
    pub config: AdvanceConfig,
    pub lanes: Vec<AdvanceLane>,
    pub nodes: Vec<AdvanceNode>,
    pub edges: Vec<AdvanceEdge>,
}

/// An [`AdvanceDiagram`] in mathematical terms.
#[verifier::ext_equal]
pub struct DiagramView {
    pub title: Option<Seq<char>>,
    pub description: Option<Seq<char>>,
    pub direction: AdvanceDirection,
    pub style: StyleView,
    pub config: ConfigView,
    pub lanes: Seq<LaneView>,
    pub nodes: Seq<LaneNodeView>,
    pub edges: Seq<LaneEdgeView>,
}

impl View for AdvanceDiagram {
    type V = DiagramView;

    open spec fn view(&self) -> DiagramView {
        DiagramView {
            title: opt_text(self.title),
            description: opt_text(self.description),
            direction: self.direction,
            style: self.style@,
            config: self.config@,
            lanes: lane_views(self.lanes@),
            nodes: lane_node_views(self.nodes@),
            edges: lane_edge_views(self.edges@),
        }
    }
}

} // verus!
