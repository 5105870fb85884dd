//! A swimlane diagram with every part in its place.
//!
//! Lengths and coordinates are counted on a fine grid, [`GRID`] units to
//! the pixel. Thousandths of a pixel and their halves are on the grid. What
//! is shown of a length is what is shown of the double nearest to it.

use vstd::prelude::*;

use crate::advance::{
    AdvanceDirection, AdvanceEdgeStyle, AdvanceEnd, AdvanceSide, AdvanceStyle, EdgeStyleView,
    EndView, StyleView,
};
use crate::model::{opt_text, EdgeKind, NodeStyle, NodeStyleView, Shape};
use crate::num::{is_twentieth_up, twentieth_up};
use crate::text::{decimal, decimal_text, digit_char, strings};

verus! {

/// Grid units to the pixel.
pub const GRID: i64 = 64000;

/// Quarter grid units to the pixel: what lengths are computed in.
pub const QUARTERS: i128 = 256000;

/// A length or coordinate in grid units.
pub type Px = i64;

/// `n` whole pixels.
pub fn px(n: i32) -> (r: Px)
    ensures
        r == n * GRID,
{
    n as i64 * GRID
}

/// A length of `q` quarter units in tenths of a pixel; a length halfway
/// between two tenths goes where the double nearest to it goes.
#[verifier::opaque]
pub open spec fn in_tenths(q: nat) -> nat {
    let t = 10 * q / (QUARTERS as nat);
    let r = 10 * q % (QUARTERS as nat);
    if 2 * r > QUARTERS || (2 * r == QUARTERS && twentieth_up(t)) {
        t + 1
    } else {
        t
    }
}

/// A length of `q` quarter units in pixels, with one decimal.
pub open spec fn shown(q: int) -> Seq<char> {
    let t = in_tenths(
        (if q < 0 {
            -q
        } else {
            q
        }) as nat,
    );
    (if q < 0 {
        "-"@
    } else {
        ""@
    }) + decimal(t / 10) + "."@ + seq![digit_char((t % 10) as int)]
}

/// The longest length that can be shown, in quarter units.
pub open spec fn in_range(q: int) -> bool {
    -0x10_0000_0000_0000_0000_0000_0000 <= q <= 0x10_0000_0000_0000_0000_0000_0000
}

pub fn show(q: i128) -> (r: String)
    requires
        in_range(q as int),
    ensures
        r@ == shown(q as int),
{
    let m: u128 = if q < 0 {
        (-q) as u128
    } else {
        q as u128
    };
    let scaled: u128 = 10 * m;
    let mut t: u128 = scaled / 256000;
    let rest: u128 = scaled % 256000;
    if 2 * rest > 256000 || (2 * rest == 256000 && is_twentieth_up(t)) {
        t = t + 1;
    }
    assert(t == in_tenths(m as nat)) by {
        reveal(in_tenths);
    }
    let mut r = if q < 0 {
        "-".to_owned()
    } else {
        "".to_owned()
    };
    r.append(decimal_text(t / 10).as_str());
    r.append(".");
    let d: u8 = 48 + (t % 10) as u8;
    let ghost before = r@;
    r.push(d as char);
    assert(r@ =~= before + seq![digit_char((t % 10) as int)]);
    r
}

/// A point.
#[derive(Debug, Clone, Copy, PartialEq, Eq, Structural)]
pub struct Point {
    pub x: Px,
    pub y: Px,
}

/// A lane in its place; `x`/`y` is the top left corner.
#[derive(Debug, Clone, PartialEq)]
pub struct AdvanceSceneLane {
    pub id: String,
    pub title: String,
    pub x: Px,
    pub y: Px,
    pub w: Px,
    pub h: Px,
}

/// An [`AdvanceSceneLane`] in mathematical terms.
#[verifier::ext_equal]
pub struct SceneLaneView {
    pub id: Seq<char>,
    pub title: Seq<char>,
    pub x: Px,
    pub y: Px,
    pub w: Px,
    pub h: Px,
}

impl View for AdvanceSceneLane {
    type V = SceneLaneView;

    open spec fn view(&self) -> SceneLaneView {
        SceneLaneView {
            id: self.id@,
            title: self.title@,
            x: self.x,
            y: self.y,
            w: self.w,
            h: self.h,
        }
    }
}

pub open spec fn scene_lanes(s: Seq<AdvanceSceneLane>) -> Seq<SceneLaneView> {
    s.map_values(|l: AdvanceSceneLane| l@)
}

/// A placed sub-element. Like nodes, `x`/`y` is the centre.
#[derive(Debug, Clone, PartialEq)]
pub struct AdvanceSceneElement {
    pub id: String,
    pub label: String,
    /// Ids from the node's first-level element down to this one.
    pub path: Vec<String>,
    /// Index of the parent in the node's flat `elements`, `None` for a
    /// direct child of the node.
    pub parent: Option<usize>,
    pub x: Px,
    pub y: Px,
    pub w: Px,
    pub h: Px,
    pub style: NodeStyle,
}

/// An [`AdvanceSceneElement`] in mathematical terms.
#[verifier::ext_equal]
pub struct SceneElementView {
    pub id: Seq<char>,
    pub label: Seq<char>,
    pub path: Seq<Seq<char>>,
    pub parent: Option<usize>,
    pub x: Px,
    pub y: Px,
    pub w: Px,
    pub h: Px,
    pub style: NodeStyleView,
}

impl View for AdvanceSceneElement {
    type V = SceneElementView;

    open spec fn view(&self) -> SceneElementView {
        SceneElementView {
            id: self.id@,
            label: self.label@,
            path: strings(self.path@),
            parent: self.parent,
            x: self.x,
            y: self.y,
            w: self.w,
            h: self.h,
            style: self.style@,
        }
    }
}

pub open spec fn scene_elements(s: Seq<AdvanceSceneElement>) -> Seq<SceneElementView> {
    s.map_values(|e: AdvanceSceneElement| e@)
}

/// A resolved anchor: an absolute point on its host's boundary.
#[derive(Debug, Clone, PartialEq)]
pub struct AdvanceSceneAnchor {
    pub id: String,
    pub side: AdvanceSide,
    /// Index into the node's `elements` when the anchor sits on a
    /// sub-element; `None` when it sits on the node itself.
    pub element: Option<usize>,
    pub x: Px,
    pub y: Px,
}

/// An [`AdvanceSceneAnchor`] in mathematical terms.
#[verifier::ext_equal]
pub struct SceneAnchorView {
    pub id: Seq<char>,
    pub side: AdvanceSide,
    pub element: Option<usize>,
    pub x: Px,
    pub y: Px,
}

impl View for AdvanceSceneAnchor {
    type V = SceneAnchorView;

    open spec fn view(&self) -> SceneAnchorView {
        SceneAnchorView {
            id: self.id@,
            side: self.side,
            element: self.element,
            x: self.x,
            y: self.y,
        }
    }
}

pub open spec fn scene_anchors(s: Seq<AdvanceSceneAnchor>) -> Seq<SceneAnchorView> {
    s.map_values(|a: AdvanceSceneAnchor| a@)
}

/// A node in its place; `x`/`y` is the centre.
#[derive(Debug, Clone, PartialEq)]
pub struct AdvanceSceneNode {
    pub id: String,
    pub label: String,
    pub lane: String,
    pub x: Px,
    pub y: Px,
    pub w: Px,
    pub h: Px,
    pub shape: Shape,
    /// Per-node style overrides carried from the diagram model.
    pub style: NodeStyle,
    /// Placed sub-elements, flattened depth-first; `parent` links them.
    /// Indices are stable for [`AdvanceHit::Element`].
    pub elements: Vec<AdvanceSceneElement>,
    /// Every resolved anchor on the node or its sub-elements.
    pub anchors: Vec<AdvanceSceneAnchor>,
}

/// An [`AdvanceSceneNode`] in mathematical terms.
#[verifier::ext_equal]
pub struct SceneNodeView {
    pub id: Seq<char>,
    pub label: Seq<char>,
    pub lane: Seq<char>,
    pub x: Px,
    pub y: Px,
    pub w: Px,
    pub h: Px,
    pub shape: Shape,
    pub style: NodeStyleView,
    pub elements: Seq<SceneElementView>,
    pub anchors: Seq<SceneAnchorView>,
}

impl View for AdvanceSceneNode {
    type V = SceneNodeView;

    open spec fn view(&self) -> SceneNodeView {
        SceneNodeView {
            id: self.id@,
            label: self.label@,
            lane: self.lane@,
            x: self.x,
            y: self.y,
            w: self.w,
            h: self.h,
            shape: self.shape,
            style: self.style@,
            elements: scene_elements(self.elements@),
            anchors: scene_anchors(self.anchors@),
        }
    }
}

pub open spec fn scene_nodes(s: Seq<AdvanceSceneNode>) -> Seq<SceneNodeView> {
    s.map_values(|n: AdvanceSceneNode| n@)
}

/// A routed edge.
#[derive(Debug, Clone, PartialEq)]
pub struct AdvanceSceneEdge {
    pub from: String,
    pub to: String,
    pub label: Option<String>,
    pub kind: EdgeKind,
    pub points: Vec<Point>,
    /// Per-edge style overrides carried from the diagram model.
    pub style: AdvanceEdgeStyle,
    /// Anchor side on the source node, as requested by the input.
    pub from_side: Option<AdvanceSide>,
    /// Anchor side on the target node, as requested by the input.
    pub to_side: Option<AdvanceSide>,
    /// Resolved label anchor (center point), set during routing when the
    /// automatic placement dodges nodes/other labels.
    pub label_pos: Option<Point>,
    /// Where the route leaves its source — on a node, sub-element or
    /// anchor boundary.
    pub from_point: Point,
    /// Where the route enters its target.
    pub to_point: Point,
    /// The source reference as written (`node.elem@anchor`).
    pub from_end: AdvanceEnd,
    /// The target reference as written.
    pub to_end: AdvanceEnd,
}

/// An [`AdvanceSceneEdge`] in mathematical terms.
#[verifier::ext_equal]
pub struct SceneEdgeView {
    pub from: Seq<char>,
    pub to: Seq<char>,
    pub label: Option<Seq<char>>,
    pub kind: EdgeKind,
    pub points: Seq<Point>,
    pub style: EdgeStyleView,
    pub from_side: Option<AdvanceSide>,
    pub to_side: Option<AdvanceSide>,
    pub label_pos: Option<Point>,
    pub from_point: Point,
    pub to_point: Point,
    pub from_end: EndView,
    pub to_end: EndView,
}

impl View for AdvanceSceneEdge {
    type V = SceneEdgeView;

    open spec fn view(&self) -> SceneEdgeView {
        SceneEdgeView {
            from: self.from@,
            to: self.to@,
            label: opt_text(self.label),
            kind: self.kind,
            points: self.points@,
            style: self.style@,
            from_side: self.from_side,
            to_side: self.to_side,
            label_pos: self.label_pos,
            from_point: self.from_point,
            to_point: self.to_point,
            from_end: self.from_end@,
            to_end: self.to_end@,
        }
    }
}

pub open spec fn scene_edges(s: Seq<AdvanceSceneEdge>) -> Seq<SceneEdgeView> {
    s.map_values(|e: AdvanceSceneEdge| e@)
}

/// Positioned geometry for an advance diagram.
#[derive(Debug, Clone, PartialEq)]
pub struct AdvanceScene {
    pub width: Px,
    pub height: Px,
    pub title: Option<String>,
    pub description: Option<String>,
    pub direction: AdvanceDirection,
    pub style: AdvanceStyle,
    pub lanes: Vec<AdvanceSceneLane>,
    pub nodes: Vec<AdvanceSceneNode>,
    pub edges: Vec<AdvanceSceneEdge>,
}

/// An [`AdvanceScene`] in mathematical terms.
#[verifier::ext_equal]
pub struct SceneView {
    pub width: Px,
    pub height: Px,
    pub title: Option<Seq<char>>,
    pub description: Option<Seq<char>>,
    pub direction: AdvanceDirection,
    pub style: StyleView,
    pub lanes: Seq<SceneLaneView>,
    pub nodes: Seq<SceneNodeView>,
    pub edges: Seq<SceneEdgeView>,
}

impl View for AdvanceScene {
    type V = SceneView;

    open spec fn view(&self) -> SceneView {
        SceneView {
            width: self.width,
            height: self.height,
            title: opt_text(self.title),
            description: opt_text(self.description),
            direction: self.direction,
            style: self.style@,
            lanes: scene_lanes(self.lanes@),
            nodes: scene_nodes(self.nodes@),
            edges: scene_edges(self.edges@),
        }
    }
}

} // verus!
