//! How large nodes and sub-elements are.

use vstd::prelude::*;

use crate::advance::place::lengths::{
    bound, bounded, cut, multiple, plus, scale, scaled, sum, times,
};
use crate::advance::route::geometry::{greater, most};
use crate::advance::scene::{Px, GRID};
use crate::advance::{
    element_views, AdvanceElement, AdvanceNode, ElementLayout, ElementView,
    LaneNodeView,
};
use crate::layout::labels::{break_count, count_char};
use crate::model::Shape;

verus! {

pub const PAD_X: i64 = 1024000;

pub const BASE_H: i64 = 2432000;

pub const MIN_W: i64 = 3456000;

pub const LINE_H: i64 = 1088000;

/// Inset of sub-elements from their host's border.
pub const ELEM_PAD: i64 = 512000;

/// Gap between sibling sub-elements.
pub const ELEM_GAP: i64 = 384000;

/// What was measured of a sub-element: the width of its label, how far along
/// their sides its anchors sit (64000 to the whole side), and the same of
/// its own sub-elements.
#[derive(Debug)]
pub struct Measure {
    pub label_w: Px,
    pub offsets: Vec<Px>,
    pub children: Vec<Measure>,
}

/// A [`Measure`] in mathematical terms.
#[verifier::ext_equal]
pub struct MeasureView {
    pub label_w: Px,
    pub offsets: Seq<Px>,
    pub children: Seq<MeasureView>,
}

pub open spec fn measure_views(v: Seq<Measure>) -> Seq<MeasureView>
    decreases v,
{
    Seq::new(
        v.len(),
        |i: int|
            if 0 <= i < v.len() {
                measure_view(v[i])
            } else {
                arbitrary()
            },
    )
}

pub open spec fn measure_view(m: Measure) -> MeasureView
    decreases m,
{
    MeasureView {
        label_w: m.label_w,
        offsets: m.offsets@,
        children: measure_views(m.children@),
    }
}

impl View for Measure {
    type V = MeasureView;

    open spec fn view(&self) -> MeasureView {
        measure_view(*self)
    }
}

/// What was measured of a node: its own position and size, where the diagram
/// gives them, and what is measured of a sub-element.
#[derive(Debug)]
pub struct NodeMeasure {
    pub x: Option<Px>,
    pub y: Option<Px>,
    pub w: Option<Px>,
    pub h: Option<Px>,
    pub parts: Measure,
}

/// Whether offsets are along their sides.
pub open spec fn offsets_fit(offsets: Seq<Px>) -> bool {
    forall|i: int| 0 <= i < offsets.len() ==> 0 <= #[trigger] offsets[i] <= GRID
}

/// Whether something was measured of every part of a sub-element.
pub open spec fn measured(e: ElementView, m: MeasureView) -> bool
    decreases e, 0nat,
{
    &&& m.offsets.len() == e.anchors.len()
    &&& offsets_fit(m.offsets)
    &&& all_measured(e.elements, m.children, e.elements.len())
}

/// Whether something was measured of every part of the first `k`
/// sub-elements, and of no others.
pub open spec fn all_measured(es: Seq<ElementView>, ms: Seq<MeasureView>, k: nat) -> bool
    decreases es, k,
{
    &&& ms.len() == es.len()
    &&& k <= es.len()
    &&& k > 0 ==> measured(es[k - 1], ms[k - 1]) && all_measured(es, ms, (k - 1) as nat)
}

pub proof fn lemma_measured(es: Seq<ElementView>, ms: Seq<MeasureView>, k: nat, i: int)
    requires
        all_measured(es, ms, k),
        0 <= i < k,
    ensures
        measured(es[i], ms[i]),
    decreases k,
{
    if i < k - 1 {
        lemma_measured(es, ms, (k - 1) as nat, i);
    }
}

/// The height of the band that holds a label.
pub open spec fn band(label: Seq<char>) -> int {
    plus(BASE_H as int, times(count_char(label, '\n') as int, LINE_H as int))
}

pub fn band_height(label: &str) -> (r: Px)
    ensures
        r == band(label@),
        bounded(r as int),
{
    sum(BASE_H, multiple(break_count(label), LINE_H))
}

/// The size of a sub-element: its label, with room for its own sub-elements
/// below.
pub open spec fn element_size(e: ElementView, m: MeasureView) -> (int, int)
    decreases e, 0nat,
{
    let w = most(plus(bound(m.label_w as int), 2 * PAD_X), MIN_W as int);
    let h = band(e.label);
    if e.elements.len() == 0 {
        (w, h)
    } else {
        let (cw, ch) = stack_size(e.elements, m.children, e.layout, e.elements.len());
        (most(w, plus(cw, 2 * ELEM_PAD)), plus(plus(h, ch), ELEM_PAD as int))
    }
}

/// The widest of the first `k` sub-elements.
pub open spec fn widest(es: Seq<ElementView>, ms: Seq<MeasureView>, k: nat) -> int
    decreases es, k,
{
    if k == 0 || k > es.len() {
        0
    } else {
        most(widest(es, ms, (k - 1) as nat), element_size(es[k - 1], ms[k - 1]).0)
    }
}

/// The highest of the first `k` sub-elements.
pub open spec fn highest(es: Seq<ElementView>, ms: Seq<MeasureView>, k: nat) -> int
    decreases es, k,
{
    if k == 0 || k > es.len() {
        0
    } else {
        most(highest(es, ms, (k - 1) as nat), element_size(es[k - 1], ms[k - 1]).1)
    }
}

/// The widths of the first `k` sub-elements together.
pub open spec fn total_width(es: Seq<ElementView>, ms: Seq<MeasureView>, k: nat) -> int
    decreases es, k,
{
    if k == 0 || k > es.len() {
        0
    } else {
        plus(total_width(es, ms, (k - 1) as nat), element_size(es[k - 1], ms[k - 1]).0)
    }
}

/// The heights of the first `k` sub-elements together.
pub open spec fn total_height(es: Seq<ElementView>, ms: Seq<MeasureView>, k: nat) -> int
    decreases es, k,
{
    if k == 0 || k > es.len() {
        0
    } else {
        plus(total_height(es, ms, (k - 1) as nat), element_size(es[k - 1], ms[k - 1]).1)
    }
}

/// The size of the first `k` sub-elements, stacked as a column or a row.
pub open spec fn stack_size(
    es: Seq<ElementView>,
    ms: Seq<MeasureView>,
    layout: ElementLayout,
    k: nat,
) -> (int, int)
    decreases es, k + 1,
{
    let gaps = times(k - 1, ELEM_GAP as int);
    match layout {
        ElementLayout::Column => (widest(es, ms, k), plus(total_height(es, ms, k), gaps)),
        ElementLayout::Row => (plus(total_width(es, ms, k), gaps), highest(es, ms, k)),
    }
}

pub fn measure_element(e: &AdvanceElement, m: &Measure) -> (r: (Px, Px))
    requires
        measured(e@, m@),
    ensures
        (r.0 as int, r.1 as int) == element_size(e@, m@),
        bounded(r.0 as int),
        bounded(r.1 as int),
    decreases e,
{
    let w: Px = greater(sum(cut(m.label_w), 2 * PAD_X), MIN_W);
    let h: Px = band_height(e.label.as_str());
    if e.elements.len() == 0 {
        return (w, h);
    }
    let (cw, ch) = measure_children(&e.elements, &m.children, e.layout);
    (greater(w, sum(cw, 2 * ELEM_PAD)), sum(sum(h, ch), ELEM_PAD))
}

pub fn measure_children(es: &Vec<AdvanceElement>, ms: &Vec<Measure>, layout: ElementLayout) -> (r: (
    Px,
    Px,
))
    requires
        es@.len() > 0,
        all_measured(element_views(es@), measure_views(ms@), es@.len()),
    ensures
        (r.0 as int, r.1 as int) == stack_size(
            element_views(es@),
            measure_views(ms@),
            layout,
            es@.len(),
        ),
        bounded(r.0 as int),
        bounded(r.1 as int),
    decreases es,
{
    let ghost ev = element_views(es@);
    let ghost mv = measure_views(ms@);
    let mut wide: Px = 0;
    let mut high: Px = 0;
    let mut total_w: Px = 0;
    let mut total_h: Px = 0;
    let mut i: usize = 0;
    while i < es.len()
        invariant
            i <= es@.len(),
            ev == element_views(es@),
            mv == measure_views(ms@),
            all_measured(ev, mv, es@.len()),
            wide == widest(ev, mv, i as nat),
            high == highest(ev, mv, i as nat),
            total_w == total_width(ev, mv, i as nat),
            total_h == total_height(ev, mv, i as nat),
            bounded(wide as int) && bounded(high as int),
            bounded(total_w as int) && bounded(total_h as int),
        decreases es@.len() - i,
    {
        proof {
            lemma_measured(ev, mv, es@.len(), i as int);
            assert(ev[i as int] == es@[i as int]@);
            assert(mv.len() == ms@.len());
            assert(mv[i as int] == ms@[i as int]@);
        }
        let (w, h) = measure_element(&es[i], &ms[i]);
        wide = greater(wide, w);
        high = greater(high, h);
        total_w = sum(total_w, w);
        total_h = sum(total_h, h);
        i += 1;
    }
    let gaps: Px = multiple(es.len() - 1, ELEM_GAP);
    match layout {
        ElementLayout::Column => (wide, sum(total_h, gaps)),
        ElementLayout::Row => (sum(total_w, gaps), high),
    }
}

/// The size of a shape around a label of width `tw` in a band of height `h`.
pub open spec fn shape_size(shape: Shape, tw: int, h: int) -> (int, int) {
    let padded = plus(tw, 2 * PAD_X);
    match shape {
        Shape::Rect | Shape::Rounded => (most(padded, MIN_W as int), h),
        Shape::Stadium => (most(plus(padded, 768000), MIN_W + 768000), h),
        Shape::Subroutine | Shape::Parallelogram | Shape::ParallelogramAlt => (
            most(plus(padded, 1536000), MIN_W + 1536000),
            h,
        ),
        Shape::Hexagon => (most(plus(padded, 1792000), MIN_W + 1792000), h),
        Shape::Cylinder => (most(padded, MIN_W as int), plus(h, 1024000)),
        Shape::Diamond => (
            most(scaled(plus(tw, 1536000), 8, 5), 5120000),
            scaled(h, 17, 10),
        ),
        Shape::Circle => {
            let d = most(most(plus(tw, 1536000), 3328000), h);
            (d, d)
        },
        Shape::DoubleCircle => {
            let d = most(most(plus(tw, 2048000), 3840000), plus(h, 512000));
            (d, d)
        },
        Shape::StateStart | Shape::StateEnd | Shape::ForkBar => (h, h),
    }
}

/// The size of a shape around its text.
pub fn size_of_shape(shape: Shape, tw: Px, h: Px) -> (r: (Px, Px))
    requires
        bounded(tw as int),
        bounded(h as int),
    ensures
        (r.0 as int, r.1 as int) == shape_size(shape, tw as int, h as int),
        bounded(r.0 as int),
        bounded(r.1 as int),
{
    let padded: Px = sum(tw, 2 * PAD_X);
    match shape {
        Shape::Rect | Shape::Rounded => (greater(padded, MIN_W), h),
        Shape::Stadium => (greater(sum(padded, 768000), MIN_W + 768000), h),
        Shape::Subroutine | Shape::Parallelogram | Shape::ParallelogramAlt => (
            greater(sum(padded, 1536000), MIN_W + 1536000),
            h,
        ),
        Shape::Hexagon => (greater(sum(padded, 1792000), MIN_W + 1792000), h),
        Shape::Cylinder => (greater(padded, MIN_W), sum(h, 1024000)),
        Shape::Diamond => (greater(scale(sum(tw, 1536000), 8, 5), 5120000), scale(h, 17, 10)),
        Shape::Circle => {
            let d: Px = greater(greater(sum(tw, 1536000), 3328000), h);
            (d, d)
        },
        Shape::DoubleCircle => {
            let d: Px = greater(greater(sum(tw, 2048000), 3840000), sum(h, 512000));
            (d, d)
        },
        Shape::StateStart | Shape::StateEnd | Shape::ForkBar => (h, h),
    }
}

/// Whether something was measured of every part of a node.
pub open spec fn node_measured(n: LaneNodeView, m: NodeMeasure) -> bool {
    &&& m.parts.offsets@.len() == n.anchors.len()
    &&& offsets_fit(m.parts.offsets@)
    &&& all_measured(n.elements, measure_views(m.parts.children@), n.elements.len())
}

/// The size that a node would have by itself.
pub open spec fn natural_size(n: LaneNodeView, m: NodeMeasure) -> (int, int) {
    let h = band(n.label);
    let (w, high) = shape_size(n.shape, bound(m.parts.label_w as int), h);
    if n.elements.len() == 0 {
        (w, high)
    } else {
        let (cw, ch) = stack_size(
            n.elements,
            measure_views(m.parts.children@),
            n.layout,
            n.elements.len(),
        );
        (most(w, plus(cw, 2 * ELEM_PAD)), plus(plus(h, ch), ELEM_PAD as int))
    }
}

/// The size of a node: the given width and height, else its own.
pub open spec fn size_of_node(n: LaneNodeView, m: NodeMeasure) -> (int, int) {
    let (w, h) = natural_size(n, m);
    (
        match m.w {
            Some(v) => bound(v as int),
            None => w,
        },
        match m.h {
            Some(v) => bound(v as int),
            None => h,
        },
    )
}

pub fn node_size(n: &AdvanceNode, m: &NodeMeasure) -> (r: (Px, Px))
    requires
        node_measured(n@, *m),
    ensures
        (r.0 as int, r.1 as int) == size_of_node(n@, *m),
        bounded(r.0 as int),
        bounded(r.1 as int),
{
    let h: Px = band_height(n.label.as_str());
    let (w, high) = size_of_shape(n.shape, cut(m.parts.label_w), h);
    assert(n@.elements.len() == n.elements@.len());
    let (w, high) = if n.elements.len() == 0 {
        (w, high)
    } else {
        let (cw, ch) = measure_children(&n.elements, &m.parts.children, n.layout);
        (greater(w, sum(cw, 2 * ELEM_PAD)), sum(sum(h, ch), ELEM_PAD))
    };
    (
        match m.w {
            Some(v) => cut(v),
            None => w,
        },
        match m.h {
            Some(v) => cut(v),
            None => high,
        },
    )
}

} // verus!
