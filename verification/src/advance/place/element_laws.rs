//! Sub-elements stand behind each other, and anchors on their sides.

use vstd::prelude::*;

use crate::advance::place::elements::{
    cursor, element_area, inside, placed_anchor, placed_anchors, placed_node, with_element,
    with_elements, Area, Parts,
};
use crate::advance::place::lengths::{minus, plus, scaled};
use crate::advance::place::sizes::{
    band, element_size, highest, measure_views, total_height, total_width, widest, MeasureView,
    NodeMeasure, ELEM_GAP,
};
use crate::advance::route::geometry::FAR;
use crate::advance::scene::{Px, SceneElementView, GRID};
use crate::advance::{AdvanceSide, ElementLayout, ElementView, LaneNodeView};

verus! {

/// Whether `b` starts a gap or more behind the end of `a`: below it in a
/// column, to its right in a row; where `b` lies in the range of lengths.
pub open spec fn comes_after(layout: ElementLayout, a: SceneElementView, b: SceneElementView) -> bool {
    match layout {
        ElementLayout::Column => b.y < FAR ==> a.y - a.h as int / 2 + a.h + ELEM_GAP <= b.y - b.h as int
            / 2,
        ElementLayout::Row => b.x < FAR ==> a.x - a.w as int / 2 + a.w + ELEM_GAP <= b.x - b.w as int
            / 2,
    }
}

/// Whether sub-elements of one host stand behind each other, in a column or
/// in a row.
pub open spec fn in_a_line(a: SceneElementView, b: SceneElementView) -> bool {
    comes_after(ElementLayout::Column, a, b) || comes_after(ElementLayout::Row, a, b)
}

pub proof fn lemma_band(label: Seq<char>)
    ensures
        0 <= band(label) <= FAR,
{
    let n = crate::layout::labels::count_char(label, '\n') as int;
    let l = crate::advance::place::sizes::LINE_H as int;
    assert(0 <= n * l) by (nonlinear_arith)
        requires
            0 <= n,
            0 <= l,
    ;
}

pub proof fn lemma_size(e: ElementView, m: MeasureView)
    ensures
        0 <= element_size(e, m).0 <= FAR,
        0 <= element_size(e, m).1 <= FAR,
    decreases e, 0nat,
{
    lemma_band(e.label);
    if e.elements.len() > 0 {
        let n = e.elements.len();
        lemma_sizes(e.elements, m.children, n);
        let g = ELEM_GAP as int;
        assert(0 <= (n - 1) * g) by (nonlinear_arith)
            requires
                1 <= n,
                0 <= g,
        ;
    }
}

proof fn lemma_sizes(es: Seq<ElementView>, ms: Seq<MeasureView>, k: nat)
    ensures
        0 <= widest(es, ms, k) <= FAR,
        0 <= highest(es, ms, k) <= FAR,
        0 <= total_width(es, ms, k) <= FAR,
        0 <= total_height(es, ms, k) <= FAR,
    decreases es, k,
{
    if 0 < k <= es.len() {
        lemma_sizes(es, ms, (k - 1) as nat);
        lemma_size(es[k - 1], ms[k - 1]);
    }
}

pub proof fn lemma_cursor(
    es: Seq<ElementView>,
    ms: Seq<MeasureView>,
    layout: ElementLayout,
    i: int,
    j: int,
)
    requires
        0 <= i <= j,
    ensures
        0 <= cursor(es, ms, layout, i) <= cursor(es, ms, layout, j) <= FAR,
        i < j && cursor(es, ms, layout, j) < FAR ==> cursor(es, ms, layout, i) + (match layout {
            ElementLayout::Column => element_size(es[i], ms[i]).1,
            ElementLayout::Row => element_size(es[i], ms[i]).0,
        }) + ELEM_GAP <= cursor(es, ms, layout, j),
    decreases j,
{
    if j > 0 {
        lemma_size(es[j - 1], ms[j - 1]);
    }
    if i < j {
        lemma_cursor(es, ms, layout, i, j - 1);
    } else if i > 0 {
        lemma_cursor(es, ms, layout, i - 1, i - 1);
    }
}

/// A host whose corner is in the range of lengths.
spec fn settled(a: Area) -> bool {
    0 <= a.left <= FAR && 0 <= a.top <= FAR
}

proof fn lemma_settled(
    es: Seq<ElementView>,
    ms: Seq<MeasureView>,
    layout: ElementLayout,
    k: int,
    host: Area,
)
    requires
        settled(host),
        0 <= k,
    ensures
        settled(element_area(es, ms, layout, k, host)),
        settled(inside(element_area(es, ms, layout, k, host), es[k].label)),
{
    lemma_cursor(es, ms, layout, 0, k);
    lemma_band(es[k].label);
}

/// What is drawn of an area.
spec fn drawn(s: SceneElementView, a: Area) -> bool {
    s.x == plus(a.left, a.w / 2) && s.y == plus(a.top, a.h / 2) && s.w == a.w as Px && s.h == a.h as Px
}

proof fn lemma_after(
    es: Seq<ElementView>,
    ms: Seq<MeasureView>,
    layout: ElementLayout,
    i: int,
    j: int,
    host: Area,
    a: SceneElementView,
    b: SceneElementView,
)
    requires
        0 <= i < j,
        settled(host),
        drawn(a, element_area(es, ms, layout, i, host)),
        drawn(b, element_area(es, ms, layout, j, host)),
    ensures
        comes_after(layout, a, b),
{
    lemma_cursor(es, ms, layout, i, j);
    lemma_size(es[i], ms[i]);
    lemma_size(es[j], ms[j]);
}

/// Whether `b` continues `a`.
spec fn continues(a: Parts, b: Parts) -> bool {
    &&& a.elements.len() <= b.elements.len()
    &&& forall|i: int| 0 <= i < a.elements.len() ==> #[trigger] b.elements[i] == a.elements[i]
    &&& a.anchors.len() <= b.anchors.len()
    &&& forall|i: int| 0 <= i < a.anchors.len() ==> #[trigger] b.anchors[i] == a.anchors[i]
}

/// Whether a sub-element stands in one of those from the `lo`-th on.
spec fn deeper(s: SceneElementView, lo: int) -> bool {
    s.parent matches Some(p) && p >= lo
}

/// Whether the sub-elements from the `lo`-th on that have one host stand
/// behind each other.
spec fn all_lined(p: Parts, lo: int) -> bool {
    forall|i: int, j: int|
        lo <= i < j < p.elements.len() && (#[trigger] p.elements[i]).parent == (
        #[trigger] p.elements[j]).parent ==> in_a_line(p.elements[i], p.elements[j])
}

/// Whether the sub-elements from the `lo`-th on whose host is `parent` are
/// the first `k` listed ones, in their areas, in order.
spec fn are_hosted(
    es: Seq<ElementView>,
    ms: Seq<MeasureView>,
    layout: ElementLayout,
    k: int,
    host: Area,
    parent: Option<usize>,
    p: Parts,
    lo: int,
) -> bool {
    forall|i: int|
        lo <= i < p.elements.len() && (#[trigger] p.elements[i]).parent == parent ==> exists|q: int|
            0 <= q < k && #[trigger] hosted(es, ms, layout, q, host, p.elements[i])
}

/// Whether something is drawn in the area of the `q`-th listed sub-element.
spec fn hosted(
    es: Seq<ElementView>,
    ms: Seq<MeasureView>,
    layout: ElementLayout,
    q: int,
    host: Area,
    s: SceneElementView,
) -> bool {
    drawn(s, element_area(es, ms, layout, q, host)) && s.id == es[q].id
}

/// Whether the sub-elements of one host, from the `lo`-th on, stand behind
/// each other in the direction of its layout.
spec fn lined_up(layout: ElementLayout, parent: Option<usize>, p: Parts, lo: int) -> bool {
    forall|i: int, j: int|
        lo <= i < j < p.elements.len() && (#[trigger] p.elements[i]).parent == parent && (
        #[trigger] p.elements[j]).parent == parent ==> comes_after(
            layout,
            p.elements[i],
            p.elements[j],
        )
}

/// Whether every sub-element from the `lo`-th on stands in `parent` or in
/// one of those.
spec fn below(parent: Option<usize>, p: Parts, lo: int) -> bool {
    forall|i: int|
        lo <= i < p.elements.len() ==> (#[trigger] p.elements[i]).parent == parent || deeper(
            p.elements[i],
            lo,
        )
}

/// Whether every sub-element from the `lo`-th on stands in one that was
/// placed before it.
spec fn in_earlier(p: Parts, lo: int) -> bool {
    forall|i: int|
        lo <= i < p.elements.len() ==> ((#[trigger] p.elements[i]).parent matches Some(q) ==> q < i)
}

#[verifier::spinoff_prover]
#[verifier::rlimit(60)]
proof fn lemma_element(
    e: ElementView,
    m: MeasureView,
    area: Area,
    path: Seq<Seq<char>>,
    parent: Option<usize>,
    parts: Parts,
)
    requires
        settled(area),
        parent matches Some(q) ==> q < parts.elements.len(),
        with_element(e, m, area, path, parent, parts).elements.len() <= usize::MAX,
    ensures
        ({
            let r = with_element(e, m, area, path, parent, parts);
            let lo = parts.elements.len() as int;
            &&& continues(parts, r)
            &&& lo < r.elements.len()
            &&& r.elements[lo].parent == parent
            &&& r.elements[lo].id == e.id
            &&& drawn(r.elements[lo], area)
            &&& forall|i: int| lo < i < r.elements.len() ==> deeper(#[trigger] r.elements[i], lo)
            &&& all_lined(r, lo)
            &&& in_earlier(r, lo)
        }),
    decreases e, 0nat,
{
    let x = plus(area.left, area.w / 2);
    let y = plus(area.top, area.h / 2);
    let lo = parts.elements.len() as int;
    let index = parts.elements.len() as usize;
    let here = path.push(e.id);
    let s = SceneElementView {
        id: e.id,
        label: e.label,
        path: here,
        parent,
        x: x as Px,
        y: y as Px,
        w: area.w as Px,
        h: area.h as Px,
        style: e.style,
    };
    let own = Parts {
        elements: parts.elements.push(s),
        anchors: parts.anchors + placed_anchors(
            e.anchors,
            m.offsets,
            e.anchors.len() as int,
            Some(index),
            x,
            y,
            area.w,
            area.h,
        ),
    };
    let r = with_element(e, m, area, path, parent, parts);
    let host = inside(area, e.label);
    let n = e.elements.len();
    lemma_band(e.label);
    assert(r == with_elements(e.elements, m.children, e.layout, n, host, here, Some(index), own));
    lemma_grows(e.elements, m.children, e.layout, n, host, here, Some(index), own);
    assert(index == lo);
    lemma_elements(e.elements, m.children, e.layout, n, host, here, Some(index), own);
    assert(r.elements[lo] == own.elements[lo]);
    assert forall|i: int| 0 <= i < lo implies #[trigger] r.elements[i] == parts.elements[i] by {
        assert(r.elements[i] == own.elements[i]);
    }
    assert forall|i: int| 0 <= i < parts.anchors.len() implies #[trigger] r.anchors[i]
        == parts.anchors[i] by {
        assert(r.anchors[i] == own.anchors[i]);
    }
    assert forall|i: int| lo < i < r.elements.len() implies deeper(#[trigger] r.elements[i], lo) by {
        assert(r.elements[i].parent == Some(index) || deeper(r.elements[i], lo + 1));
    }
    assert forall|i: int, j: int|
        lo <= i < j < r.elements.len() && (#[trigger] r.elements[i]).parent == (
        #[trigger] r.elements[j]).parent implies in_a_line(r.elements[i], r.elements[j]) by {
        assert(deeper(r.elements[j], lo));
        if i == lo {
            assert(false);
        }
    }
}

/// Elements are only added.
proof fn lemma_grows(
    es: Seq<ElementView>,
    ms: Seq<MeasureView>,
    layout: ElementLayout,
    k: nat,
    host: Area,
    path: Seq<Seq<char>>,
    parent: Option<usize>,
    parts: Parts,
)
    ensures
        parts.elements.len() <= with_elements(
            es,
            ms,
            layout,
            k,
            host,
            path,
            parent,
            parts,
        ).elements.len(),
    decreases es, k,
{
    if 0 < k <= es.len() {
        let before = with_elements(es, ms, layout, (k - 1) as nat, host, path, parent, parts);
        lemma_grows(es, ms, layout, (k - 1) as nat, host, path, parent, parts);
        lemma_one_grows(
            es[k - 1],
            ms[k - 1],
            element_area(es, ms, layout, k - 1, host),
            path,
            parent,
            before,
        );
    }
}

proof fn lemma_one_grows(
    e: ElementView,
    m: MeasureView,
    area: Area,
    path: Seq<Seq<char>>,
    parent: Option<usize>,
    parts: Parts,
)
    ensures
        parts.elements.len() < with_element(e, m, area, path, parent, parts).elements.len(),
    decreases e, 0nat,
{
    let x = plus(area.left, area.w / 2);
    let y = plus(area.top, area.h / 2);
    let index = parts.elements.len() as usize;
    let here = path.push(e.id);
    let own = Parts {
        elements: parts.elements.push(
            SceneElementView {
                id: e.id,
                label: e.label,
                path: here,
                parent,
                x: x as Px,
                y: y as Px,
                w: area.w as Px,
                h: area.h as Px,
                style: e.style,
            },
        ),
        anchors: parts.anchors + placed_anchors(
            e.anchors,
            m.offsets,
            e.anchors.len() as int,
            Some(index),
            x,
            y,
            area.w,
            area.h,
        ),
    };
    lemma_grows(
        e.elements,
        m.children,
        e.layout,
        e.elements.len(),
        inside(area, e.label),
        here,
        Some(index),
        own,
    );
}

#[verifier::spinoff_prover]
#[verifier::rlimit(60)]
proof fn lemma_elements(
    es: Seq<ElementView>,
    ms: Seq<MeasureView>,
    layout: ElementLayout,
    k: nat,
    host: Area,
    path: Seq<Seq<char>>,
    parent: Option<usize>,
    parts: Parts,
)
    requires
        settled(host),
        k <= es.len(),
        parent matches Some(q) ==> q < parts.elements.len(),
        with_elements(es, ms, layout, k, host, path, parent, parts).elements.len() <= usize::MAX,
    ensures
        ({
            let r = with_elements(es, ms, layout, k, host, path, parent, parts);
            let lo = parts.elements.len() as int;
            &&& continues(parts, r)
            &&& below(parent, r, lo)
            &&& all_lined(r, lo)
            &&& in_earlier(r, lo)
            &&& lined_up(layout, parent, r, lo)
            &&& are_hosted(es, ms, layout, k as int, host, parent, r, lo)
        }),
    decreases es, k,
{
    if k > 0 {
        let j = (k - 1) as nat;
        let b = with_elements(es, ms, layout, j, host, path, parent, parts);
        let r = with_elements(es, ms, layout, k, host, path, parent, parts);
        let area = element_area(es, ms, layout, k - 1, host);
        let lo = parts.elements.len() as int;
        let mid = b.elements.len() as int;
        lemma_one_grows(es[k - 1], ms[k - 1], area, path, parent, b);
        lemma_grows(es, ms, layout, j, host, path, parent, parts);
        lemma_elements(es, ms, layout, j, host, path, parent, parts);
        lemma_settled(es, ms, layout, k - 1, host);
        lemma_element(es[k - 1], ms[k - 1], area, path, parent, b);
        assert forall|i: int| 0 <= i < lo implies #[trigger] r.elements[i] == parts.elements[i] by {
            assert(r.elements[i] == b.elements[i]);
        }
        assert forall|i: int| 0 <= i < parts.anchors.len() implies #[trigger] r.anchors[i]
            == parts.anchors[i] by {
            assert(r.anchors[i] == b.anchors[i]);
        }
        assert forall|i: int| lo <= i < r.elements.len() implies (#[trigger] r.elements[i]).parent
            == parent || deeper(r.elements[i], lo) by {
            if i < mid {
                assert(r.elements[i] == b.elements[i]);
            } else if i > mid {
                assert(deeper(r.elements[i], mid));
            }
        }
        assert forall|i: int|
            lo <= i < r.elements.len() && (#[trigger] r.elements[i]).parent == parent implies exists|q: int|
            0 <= q < k && #[trigger] hosted(es, ms, layout, q, host, r.elements[i]) by {
            if i < mid {
                assert(r.elements[i] == b.elements[i]);
                let q = choose|q: int|
                    0 <= q < j && #[trigger] hosted(es, ms, layout, q, host, b.elements[i]);
                assert(hosted(es, ms, layout, q, host, r.elements[i]));
            } else if i == mid {
                assert(hosted(es, ms, layout, k - 1, host, r.elements[i]));
            } else {
                assert(deeper(r.elements[i], mid));
            }
        }
        assert forall|i: int| lo <= i < r.elements.len() implies ((
        #[trigger] r.elements[i]).parent matches Some(q) ==> q < i) by {
            if i < mid {
                assert(r.elements[i] == b.elements[i]);
            }
        }
        assert forall|i: int, h: int|
            lo <= i < h < r.elements.len() && (#[trigger] r.elements[i]).parent == parent && (
            #[trigger] r.elements[h]).parent == parent implies comes_after(
            layout,
            r.elements[i],
            r.elements[h],
        ) by {
            if h > mid {
                assert(deeper(r.elements[h], mid));
            } else {
                assert(r.elements[i] == b.elements[i]);
                if h < mid {
                    assert(r.elements[h] == b.elements[h]);
                } else {
                    let q = choose|q: int|
                        0 <= q < j && #[trigger] hosted(es, ms, layout, q, host, b.elements[i]);
                    lemma_after(
                        es,
                        ms,
                        layout,
                        q,
                        k - 1,
                        host,
                        r.elements[i],
                        r.elements[h],
                    );
                }
            }
        }
        assert forall|i: int, h: int|
            lo <= i < h < r.elements.len() && (#[trigger] r.elements[i]).parent == (
            #[trigger] r.elements[h]).parent implies in_a_line(r.elements[i], r.elements[h]) by {
            if h < mid {
                assert(r.elements[i] == b.elements[i] && r.elements[h] == b.elements[h]);
            } else if i < mid {
                assert(r.elements[i] == b.elements[i]);
                if h == mid {
                    assert(comes_after(layout, r.elements[i], r.elements[h]));
                } else {
                    assert(deeper(r.elements[h], mid));
                    assert(false);
                }
            }
        }
    }
}

/// The sub-elements of one host do not overlap: they stand behind each
/// other, a gap apart, those of the node itself in the direction of its
/// layout. This holds as long as the node does not start before the range
/// of lengths.
pub proof fn law_sub_elements_do_not_overlap(
    n: LaneNodeView,
    m: NodeMeasure,
    x: int,
    y: int,
    w: int,
    h: int,
    i: int,
    j: int,
)
    requires
        0 <= x - w / 2 <= FAR,
        0 <= y - h / 2 <= FAR,
        placed_node(n, m, x, y, w, h).elements.len() <= usize::MAX,
        0 <= i < j < placed_node(n, m, x, y, w, h).elements.len(),
    ensures
        ({
            let all = placed_node(n, m, x, y, w, h).elements;
            &&& all[i].parent == all[j].parent ==> in_a_line(all[i], all[j])
            &&& all[i].parent is None && all[j].parent is None ==> comes_after(
                n.layout,
                all[i],
                all[j],
            )
        }),
{
    let own = Parts {
        elements: Seq::empty(),
        anchors: placed_anchors(
            n.anchors,
            m.parts.offsets@,
            n.anchors.len() as int,
            None,
            x,
            y,
            w,
            h,
        ),
    };
    let area = Area { left: minus(x, w / 2), top: minus(y, h / 2), w, h };
    lemma_band(n.label);
    lemma_elements(
        n.elements,
        measure_views(m.parts.children@),
        n.layout,
        n.elements.len(),
        inside(area, n.label),
        Seq::empty(),
        None,
        own,
    );
}

/// Whether a point lies on a side of a box around a centre, the `t`-th
/// part of the grid along it, from the left or from the top.
pub open spec fn lies_on(
    px: int,
    py: int,
    side: AdvanceSide,
    x: int,
    y: int,
    w: int,
    h: int,
    t: int,
) -> bool {
    match side {
        AdvanceSide::Left => px == x - w / 2 && along_by(py, y - h / 2, h, t),
        AdvanceSide::Right => px == x + w / 2 && along_by(py, y - h / 2, h, t),
        AdvanceSide::Top => py == y - h / 2 && along_by(px, x - w / 2, w, t),
        AdvanceSide::Bottom => py == y + h / 2 && along_by(px, x - w / 2, w, t),
    }
}

/// Whether `v` is as far behind `start` on a way of length `l` as `t` is on
/// the grid, rounded down.
pub open spec fn along_by(v: int, start: int, l: int, t: int) -> bool {
    &&& start <= v <= start + l
    &&& (v - start) * GRID <= l * t
    &&& l * t < (v - start + 1) * GRID
}

proof fn lemma_along(l: int, t: int)
    requires
        0 <= l <= FAR,
        0 <= t <= GRID,
    ensures
        0 <= scaled(l, t, 64000) <= l,
        scaled(l, t, 64000) * GRID <= l * t < (scaled(l, t, 64000) + 1) * GRID,
{
    assert(0 <= l * t <= l * 64000) by (nonlinear_arith)
        requires
            0 <= l,
            0 <= t <= 64000,
    ;
    let q = l * t / 64000;
    assert(q * 64000 <= l * t < q * 64000 + 64000);
    assert(0 <= q <= l);
}

proof fn lemma_anchors(
    n: LaneNodeView,
    offsets: Seq<Px>,
    k: int,
    element: Option<usize>,
    x: int,
    y: int,
    w: int,
    h: int,
    i: int,
)
    requires
        0 <= i < k,
    ensures
        placed_anchors(n.anchors, offsets, k, element, x, y, w, h).len() == k,
        placed_anchors(n.anchors, offsets, k, element, x, y, w, h)[i] == placed_anchor(
            n.anchors[i],
            offsets[i] as int,
            element,
            x,
            y,
            w,
            h,
        ),
    decreases k,
{
    if i < k - 1 {
        lemma_anchors(n, offsets, k - 1, element, x, y, w, h, i);
    } else if k > 1 {
        lemma_anchors(n, offsets, k - 1, element, x, y, w, h, 0);
    } else {
        assert(placed_anchors(n.anchors, offsets, 0, element, x, y, w, h).len() == 0);
    }
}

/// Every anchor of a node lies on its side of the node, as far along it as
/// its offset says, as long as the node stays in range.
pub proof fn law_anchors_lie_on_their_sides(
    n: LaneNodeView,
    m: NodeMeasure,
    x: int,
    y: int,
    w: int,
    h: int,
    i: int,
)
    requires
        0 <= w,
        0 <= h,
        0 <= x - w / 2,
        0 <= y - h / 2,
        x + w <= FAR,
        y + h <= FAR,
        0 <= i < n.anchors.len(),
        m.parts.offsets@.len() == n.anchors.len(),
        0 <= m.parts.offsets@[i] <= GRID,
        placed_node(n, m, x, y, w, h).elements.len() <= usize::MAX,
    ensures
        ({
            let a = placed_node(n, m, x, y, w, h).anchors[i];
            &&& a.id == n.anchors[i].id
            &&& a.side == n.anchors[i].side
            &&& lies_on(a.x as int, a.y as int, a.side, x, y, w, h, m.parts.offsets@[i] as int)
        }),
{
    let k = n.anchors.len() as int;
    let own = Parts {
        elements: Seq::empty(),
        anchors: placed_anchors(n.anchors, m.parts.offsets@, k, None, x, y, w, h),
    };
    let area = Area { left: minus(x, w / 2), top: minus(y, h / 2), w, h };
    lemma_band(n.label);
    lemma_elements(
        n.elements,
        measure_views(m.parts.children@),
        n.layout,
        n.elements.len(),
        inside(area, n.label),
        Seq::empty(),
        None,
        own,
    );
    lemma_anchors(n, m.parts.offsets@, k, None, x, y, w, h, i);
    let r = placed_node(n, m, x, y, w, h);
    assert(r.anchors[i] == own.anchors[i]);
    lemma_along(w, m.parts.offsets@[i] as int);
    lemma_along(h, m.parts.offsets@[i] as int);
}

} // verus!
