//! Shapes have room for what is in them.

use vstd::prelude::*;

use crate::advance::place::element_laws::{lemma_band, lemma_cursor, lemma_size};
use crate::advance::place::elements::{cursor, element_area, inside, Area};
use crate::advance::place::sizes::{
    band, element_size, highest, measure_views, natural_size, shape_size, total_height, total_width,
    widest, MeasureView, NodeMeasure, ELEM_GAP, ELEM_PAD,
};
use crate::advance::route::geometry::FAR;
use crate::advance::{ElementLayout, ElementView, LaneNodeView};
use crate::layout::intrinsic::flow_size;
use crate::model::Shape;

verus! {

/// Whether a shape is drawn around a text.
pub open spec fn texted(shape: Shape) -> bool {
    !(shape is StateStart || shape is StateEnd || shape is ForkBar)
}

/// A shape around a text is wider than the text and no lower than its
/// lines, and shapes whose sides are not upright are wider than a
/// rectangle. Circles are as high as they are wide.
pub proof fn law_shapes_have_room_for_their_texts(shape: Shape, tw: int, h: int)
    requires
        texted(shape),
        0 <= tw <= FAR / 16,
        0 <= h <= FAR / 16,
    ensures
        tw < shape_size(shape, tw, h).0,
        h <= shape_size(shape, tw, h).1,
        tw < flow_size(shape, tw, h).0,
        h <= flow_size(shape, tw, h).1,
        shape is Hexagon || shape is Parallelogram || shape is ParallelogramAlt || shape is Subroutine
            || shape is Stadium ==> shape_size(shape, tw, h).0 > shape_size(Shape::Rect, tw, h).0,
        shape is Circle || shape is DoubleCircle ==> shape_size(shape, tw, h).0 == shape_size(
            shape,
            tw,
            h,
        ).1,
        shape is Cylinder ==> shape_size(shape, tw, h).1 > h,
        shape is Diamond ==> shape_size(shape, tw, h).0 * 5 + 5 > 8 * tw && shape_size(
            shape,
            tw,
            h,
        ).1 * 10 + 10 > 17 * h,
{
}

/// The extent of a sub-element along its row or column.
spec fn along(e: ElementView, m: MeasureView, layout: ElementLayout) -> int {
    match layout {
        ElementLayout::Column => element_size(e, m).1,
        ElementLayout::Row => element_size(e, m).0,
    }
}

/// The extents of the first `k` sub-elements together.
spec fn exact(es: Seq<ElementView>, ms: Seq<MeasureView>, layout: ElementLayout, k: nat) -> int
    decreases k,
{
    if k == 0 {
        0
    } else {
        exact(es, ms, layout, (k - 1) as nat) + along(es[k - 1], ms[k - 1], layout)
    }
}

proof fn lemma_exact(
    es: Seq<ElementView>,
    ms: Seq<MeasureView>,
    layout: ElementLayout,
    i: nat,
    k: nat,
)
    requires
        i <= k <= es.len(),
    ensures
        0 <= exact(es, ms, layout, i) <= exact(es, ms, layout, k),
        cursor(es, ms, layout, k as int) <= exact(es, ms, layout, k) + k * ELEM_GAP,
        total_height(es, ms, k) < FAR && layout == ElementLayout::Column ==> total_height(es, ms, k)
            == exact(es, ms, layout, k),
        total_width(es, ms, k) < FAR && layout == ElementLayout::Row ==> total_width(es, ms, k)
            == exact(es, ms, layout, k),
        i < k ==> element_size(es[i as int], ms[i as int]).0 <= widest(es, ms, k),
        i < k ==> element_size(es[i as int], ms[i as int]).1 <= highest(es, ms, k),
        0 <= total_height(es, ms, k),
        0 <= total_width(es, ms, k),
    decreases k,
{
    if k > 0 {
        lemma_size(es[k - 1], ms[k - 1]);
        let j = (k - 1) as nat;
        if i < k {
            lemma_exact(es, ms, layout, i, j);
        } else {
            lemma_exact(es, ms, layout, j, j);
        }
        assert(j * ELEM_GAP + ELEM_GAP == k * ELEM_GAP) by (nonlinear_arith)
            requires
                j == k - 1,
        ;
    }
}

/// A node that has its own size has room for its sub-elements, with padding
/// around them and its label above: in a column the last one ends within
/// the node and each is no wider than the room, in a row the last one ends
/// within the node and each is no higher. This holds as long as the node
/// stays in range.
pub proof fn law_nodes_have_room_for_their_parts(
    n: LaneNodeView,
    m: NodeMeasure,
    left: int,
    top: int,
    i: int,
)
    requires
        0 <= i < n.elements.len(),
        0 <= left <= FAR / 4,
        0 <= top <= FAR / 4,
        natural_size(n, m).0 <= FAR / 4,
        natural_size(n, m).1 <= FAR / 4,
    ensures
        ({
            let (w, h) = natural_size(n, m);
            let es = n.elements;
            let ms = measure_views(m.parts.children@);
            let host = inside(Area { left, top, w, h }, n.label);
            let a = element_area(es, ms, n.layout, i, host);
            &&& left + ELEM_PAD <= a.left && a.left + a.w + ELEM_PAD <= left + w
            &&& top + band(n.label) <= a.top && a.top + a.h + ELEM_PAD <= top + h
            &&& element_size(es[i], ms[i]).0 <= a.w
            &&& element_size(es[i], ms[i]).1 <= a.h
        }),
{
    let es = n.elements;
    let ms = measure_views(m.parts.children@);
    let k = es.len();
    let gap = ELEM_GAP as int;
    lemma_band(n.label);
    lemma_exact(es, ms, n.layout, i as nat, k);
    lemma_exact(es, ms, n.layout, i as nat, i as nat);
    lemma_exact(es, ms, n.layout, (i + 1) as nat, k);
    lemma_size(es[i], ms[i]);
    assert(exact(es, ms, n.layout, (i + 1) as nat) == exact(es, ms, n.layout, i as nat) + along(
        es[i],
        ms[i],
        n.layout,
    ));
    assert(0 <= i * gap && i * gap <= (k - 1) * gap) by (nonlinear_arith)
        requires
            0 <= i <= k - 1,
            0 <= gap,
    ;
    lemma_cursor(es, ms, n.layout, 0, i);
}

} // verus!
