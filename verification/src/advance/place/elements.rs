//! Placing the sub-elements and anchors of a node.

use vstd::prelude::*;

use crate::advance::place::lengths::{bounded, diff, minus, plus, scale, scaled, sum};
use crate::advance::place::sizes::{
    all_measured, band, band_height, element_size, lemma_measured, measure_element, measure_views,
    measured, node_measured, offsets_fit, Measure, MeasureView, NodeMeasure, ELEM_GAP, ELEM_PAD,
};
use crate::advance::route::edges::{element_spot, node_near};
use crate::advance::route::geometry::{at, half, near, spot_near};
use crate::advance::scene::{
    scene_anchors, scene_elements, AdvanceSceneAnchor, AdvanceSceneElement, AdvanceSceneNode, Point,
    Px, SceneAnchorView, SceneElementView, SceneNodeView, GRID,
};
use crate::advance::{
    anchor_views, element_views, AdvanceAnchor, AdvanceElement, AdvanceNode, AdvanceSide,
    AnchorView, ElementLayout, ElementView, LaneNodeView,
};
use crate::text::{copy_strings, strings};

verus! {

/// A box with its top left corner at `left`/`top`.
#[verifier::ext_equal]
pub struct Area {
    pub left: int,
    pub top: int,
    pub w: int,
    pub h: int,
}

/// The sub-elements and anchors of a node that were placed.
#[verifier::ext_equal]
pub struct Parts {
    pub elements: Seq<SceneElementView>,
    pub anchors: Seq<SceneAnchorView>,
}

/// Whether all parts are near enough for routes to be computed.
pub open spec fn parts_near(p: Parts) -> bool {
    &&& forall|i: int|
        0 <= i < p.elements.len() ==> spot_near(element_spot(#[trigger] p.elements[i]))
    &&& anchors_near(p.anchors)
}

pub open spec fn anchors_near(a: Seq<SceneAnchorView>) -> bool {
    forall|i: int|
        0 <= i < a.len() ==> near((#[trigger] a[i]).x as int, 2) && near(a[i].y as int, 2)
}

/// A point on the boundary of a box with its centre at `(x, y)`: `t` runs
/// along `side`, 64000 to the whole side.
pub open spec fn on_side(x: int, y: int, w: int, h: int, side: AdvanceSide, t: int) -> (int, int) {
    let l = minus(x, w / 2);
    let r = plus(x, w / 2);
    let top = minus(y, h / 2);
    let low = plus(y, h / 2);
    match side {
        AdvanceSide::Left => (l, plus(top, scaled(h, t, 64000))),
        AdvanceSide::Right => (r, plus(top, scaled(h, t, 64000))),
        AdvanceSide::Top => (plus(l, scaled(w, t, 64000)), top),
        AdvanceSide::Bottom => (plus(l, scaled(w, t, 64000)), low),
    }
}

pub fn rect_side_point(x: Px, y: Px, w: Px, h: Px, side: AdvanceSide, t: Px) -> (r: Point)
    requires
        bounded(x as int),
        bounded(y as int),
        bounded(w as int),
        bounded(h as int),
        0 <= t <= GRID,
    ensures
        at(r) == on_side(x as int, y as int, w as int, h as int, side, t as int),
        near(r.x as int, 1) && near(r.y as int, 1),
{
    let l: Px = diff(x, half(w));
    let right: Px = sum(x, half(w));
    let top: Px = diff(y, half(h));
    let low: Px = sum(y, half(h));
    match side {
        AdvanceSide::Left => Point { x: l, y: sum(top, scale(h, t, 64000)) },
        AdvanceSide::Right => Point { x: right, y: sum(top, scale(h, t, 64000)) },
        AdvanceSide::Top => Point { x: sum(l, scale(w, t, 64000)), y: top },
        AdvanceSide::Bottom => Point { x: sum(l, scale(w, t, 64000)), y: low },
    }
}

/// An anchor in its place on a box.
pub open spec fn placed_anchor(
    a: AnchorView,
    t: int,
    element: Option<usize>,
    x: int,
    y: int,
    w: int,
    h: int,
) -> SceneAnchorView {
    let p = on_side(x, y, w, h, a.side, t);
    SceneAnchorView { id: a.id, side: a.side, element, x: p.0 as Px, y: p.1 as Px }
}

/// The first `k` anchors in their places on a box.
pub open spec fn placed_anchors(
    anchors: Seq<AnchorView>,
    offsets: Seq<Px>,
    k: int,
    element: Option<usize>,
    x: int,
    y: int,
    w: int,
    h: int,
) -> Seq<SceneAnchorView>
    decreases k,
{
    if k <= 0 {
        Seq::empty()
    } else {
        placed_anchors(anchors, offsets, k - 1, element, x, y, w, h).push(
            placed_anchor(anchors[k - 1], offsets[k - 1] as int, element, x, y, w, h),
        )
    }
}

/// How far into its row or column the `k`-th sub-element starts.
pub open spec fn cursor(
    es: Seq<ElementView>,
    ms: Seq<MeasureView>,
    layout: ElementLayout,
    k: int,
) -> int
    decreases k,
{
    if k <= 0 {
        0
    } else {
        let size = element_size(es[k - 1], ms[k - 1]);
        let along = match layout {
            ElementLayout::Column => size.1,
            ElementLayout::Row => size.0,
        };
        plus(cursor(es, ms, layout, k - 1), plus(along, ELEM_GAP as int))
    }
}

/// The box of the `k`-th sub-element: it fills its host across, and keeps
/// its own size along.
pub open spec fn element_area(
    es: Seq<ElementView>,
    ms: Seq<MeasureView>,
    layout: ElementLayout,
    k: int,
    host: Area,
) -> Area {
    let size = element_size(es[k], ms[k]);
    let c = cursor(es, ms, layout, k);
    match layout {
        ElementLayout::Column => Area {
            left: host.left,
            top: plus(host.top, c),
            w: host.w,
            h: size.1,
        },
        ElementLayout::Row => Area { left: plus(host.left, c), top: host.top, w: size.0, h: host.h },
    }
}

/// The room for sub-elements inside a box, below its label.
pub open spec fn inside(a: Area, label: Seq<char>) -> Area {
    let b = band(label);
    Area {
        left: plus(a.left, ELEM_PAD as int),
        top: plus(a.top, b),
        w: minus(a.w, 2 * ELEM_PAD),
        h: minus(minus(a.h, b), ELEM_PAD as int),
    }
}

/// `parts` with a sub-element in its place, its anchors, and everything
/// inside it.
pub open spec fn with_element(
    e: ElementView,
    m: MeasureView,
    area: Area,
    path: Seq<Seq<char>>,
    parent: Option<usize>,
    parts: Parts,
) -> Parts
    decreases e, 0nat,
{
    let x = plus(area.left, area.w / 2);
    let y = plus(area.top, area.h / 2);
    let index = parts.elements.len() as usize;
    let here = path.push(e.id);
    let own = Parts {
        elements: parts.elements.push(
            SceneElementView {
                id: e.id,
                label: e.label,
                path: here,
                parent,
                x: x as Px,
                y: y as Px,
                w: area.w as Px,
                h: area.h as Px,
                style: e.style,
            },
        ),
        anchors: parts.anchors + placed_anchors(
            e.anchors,
            m.offsets,
            e.anchors.len() as int,
            Some(index),
            x,
            y,
            area.w,
            area.h,
        ),
    };
    with_elements(
        e.elements,
        m.children,
        e.layout,
        e.elements.len(),
        inside(area, e.label),
        here,
        Some(index),
        own,
    )
}

/// `parts` with the first `k` sub-elements of a host in their places.
pub open spec fn with_elements(
    es: Seq<ElementView>,
    ms: Seq<MeasureView>,
    layout: ElementLayout,
    k: nat,
    host: Area,
    path: Seq<Seq<char>>,
    parent: Option<usize>,
    parts: Parts,
) -> Parts
    decreases es, k,
{
    if k == 0 || k > es.len() {
        parts
    } else {
        with_element(
            es[k - 1],
            ms[k - 1],
            element_area(es, ms, layout, k - 1, host),
            path,
            parent,
            with_elements(es, ms, layout, (k - 1) as nat, host, path, parent, parts),
        )
    }
}

/// The sub-elements and anchors of a node while they are placed.
struct Placing {
    elements: Vec<AdvanceSceneElement>,
    anchors: Vec<AdvanceSceneAnchor>,
}

impl View for Placing {
    type V = Parts;

    closed spec fn view(&self) -> Parts {
        Parts {
            elements: scene_elements(self.elements@),
            anchors: scene_anchors(self.anchors@),
        }
    }
}

#[derive(Clone, Copy)]
struct Space {
    left: Px,
    top: Px,
    w: Px,
    h: Px,
}

impl View for Space {
    type V = Area;

    closed spec fn view(&self) -> Area {
        Area {
            left: self.left as int,
            top: self.top as int,
            w: self.w as int,
            h: self.h as int,
        }
    }
}

impl Space {
    spec fn fits(self) -> bool {
        bounded(self.left as int) && bounded(self.top as int) && bounded(self.w as int) && bounded(
            self.h as int,
        )
    }
}

fn space_inside(a: Space, label: &str) -> (r: Space)
    requires
        a.fits(),
    ensures
        r@ == inside(a@, label@),
        r.fits(),
{
    let b: Px = band_height(label);
    Space {
        left: sum(a.left, ELEM_PAD),
        top: sum(a.top, b),
        w: diff(a.w, 2 * ELEM_PAD),
        h: diff(diff(a.h, b), ELEM_PAD),
    }
}

fn place_anchors(
    anchors: &Vec<AdvanceAnchor>,
    offsets: &Vec<Px>,
    element: Option<usize>,
    x: Px,
    y: Px,
    w: Px,
    h: Px,
    out: &mut Vec<AdvanceSceneAnchor>,
)
    requires
        bounded(x as int),
        bounded(y as int),
        bounded(w as int),
        bounded(h as int),
        offsets@.len() == anchors@.len(),
        offsets_fit(offsets@),
        anchors_near(scene_anchors(old(out)@)),
    ensures
        anchors_near(scene_anchors(final(out)@)),
        scene_anchors(final(out)@) == scene_anchors(old(out)@) + placed_anchors(
            anchor_views(anchors@),
            offsets@,
            anchors@.len() as int,
            element,
            x as int,
            y as int,
            w as int,
            h as int,
        ),
{
    let ghost before = scene_anchors(out@);
    let ghost av = anchor_views(anchors@);
    let mut i: usize = 0;
    assert(scene_anchors(out@) =~= before + placed_anchors(
        av,
        offsets@,
        0,
        element,
        x as int,
        y as int,
        w as int,
        h as int,
    ));
    while i < anchors.len()
        invariant
            i <= anchors@.len(),
            av == anchor_views(anchors@),
            bounded(x as int),
            bounded(y as int),
            bounded(w as int),
            bounded(h as int),
            offsets@.len() == anchors@.len(),
            offsets_fit(offsets@),
            anchors_near(scene_anchors(out@)),
            scene_anchors(out@) == before + placed_anchors(
                av,
                offsets@,
                i as int,
                element,
                x as int,
                y as int,
                w as int,
                h as int,
            ),
        decreases anchors@.len() - i,
    {
        let a = &anchors[i];
        assert(av[i as int] == a@);
        assert(0 <= offsets@[i as int] <= GRID);
        let p = rect_side_point(x, y, w, h, a.side, offsets[i]);
        let ghost so_far = out@;
        let anchor = AdvanceSceneAnchor { id: a.id.clone(), side: a.side, element, x: p.x, y: p.y };
        assert(anchor@ == placed_anchor(
            a@,
            offsets@[i as int] as int,
            element,
            x as int,
            y as int,
            w as int,
            h as int,
        ));
        out.push(anchor);
        assert(scene_anchors(out@) =~= scene_anchors(so_far).push(anchor@));
        i += 1;
        assert(scene_anchors(out@) =~= before + placed_anchors(
            av,
            offsets@,
            i as int,
            element,
            x as int,
            y as int,
            w as int,
            h as int,
        ));
    }
}

fn place_element(
    e: &AdvanceElement,
    m: &Measure,
    area: Space,
    path: &Vec<String>,
    parent: Option<usize>,
    out: &mut Placing,
)
    requires
        measured(e@, m@),
        area.fits(),
        parts_near(old(out)@),
    ensures
        parts_near(final(out)@),
        final(out)@ == with_element(e@, m@, area@, strings(path@), parent, old(out)@),
    decreases e,
{
    let ghost start = out@;
    let x: Px = sum(area.left, half(area.w));
    let y: Px = sum(area.top, half(area.h));
    let index: usize = out.elements.len();
    let mut here = copy_strings(path);
    let ghost prefix = here@;
    here.push(e.id.clone());
    assert(strings(here@) =~= strings(prefix).push(e.id@));
    let ghost before = out.elements@;
    let element = AdvanceSceneElement {
        id: e.id.clone(),
        label: e.label.clone(),
        path: copy_strings(&here),
        parent,
        x,
        y,
        w: area.w,
        h: area.h,
        style: e.style.clone(),
    };
    out.elements.push(element);
    assert(scene_elements(out.elements@) =~= scene_elements(before).push(element@));
    assert(e@.anchors.len() == e.anchors@.len());
    place_anchors(
        &e.anchors,
        &m.offsets,
        Some(index),
        x,
        y,
        area.w,
        area.h,
        &mut out.anchors,
    );
    assert(start.elements.len() == index);
    assert(e@.elements.len() == e.elements@.len());
    place_elements(
        &e.elements,
        &m.children,
        e.layout,
        space_inside(area, e.label.as_str()),
        &here,
        Some(index),
        out,
    );
}

fn place_elements(
    es: &Vec<AdvanceElement>,
    ms: &Vec<Measure>,
    layout: ElementLayout,
    host: Space,
    path: &Vec<String>,
    parent: Option<usize>,
    out: &mut Placing,
)
    requires
        all_measured(element_views(es@), measure_views(ms@), es@.len()),
        host.fits(),
        parts_near(old(out)@),
    ensures
        parts_near(final(out)@),
        final(out)@ == with_elements(
            element_views(es@),
            measure_views(ms@),
            layout,
            es@.len(),
            host@,
            strings(path@),
            parent,
            old(out)@,
        ),
    decreases es,
{
    let ghost ev = element_views(es@);
    let ghost mv = measure_views(ms@);
    let ghost start = out@;
    let mut along: Px = 0;
    let mut i: usize = 0;
    while i < es.len()
        invariant
            i <= es@.len(),
            ev == element_views(es@),
            mv == measure_views(ms@),
            all_measured(ev, mv, es@.len()),
            host.fits(),
            parts_near(out@),
            bounded(along as int),
            along == cursor(ev, mv, layout, i as int),
            out@ == with_elements(
                ev,
                mv,
                layout,
                i as nat,
                host@,
                strings(path@),
                parent,
                start,
            ),
        decreases es@.len() - i,
    {
        proof {
            lemma_measured(ev, mv, es@.len(), i as int);
            assert(ev[i as int] == es@[i as int]@);
            assert(mv.len() == ms@.len());
            assert(mv[i as int] == ms@[i as int]@);
        }
        let (w, h) = measure_element(&es[i], &ms[i]);
        let (area, step): (Space, Px) = match layout {
            ElementLayout::Column => (
                Space { left: host.left, top: sum(host.top, along), w: host.w, h },
                h,
            ),
            ElementLayout::Row => (
                Space { left: sum(host.left, along), top: host.top, w, h: host.h },
                w,
            ),
        };
        assert(area@ == element_area(ev, mv, layout, i as int, host@));
        place_element(&es[i], &ms[i], area, path, parent, out);
        along = sum(along, sum(step, ELEM_GAP));
        i += 1;
    }
}

/// The sub-elements and anchors of a node with its centre at `(x, y)`.
pub open spec fn node_parts(n: LaneNodeView, m: NodeMeasure, x: int, y: int, w: int, h: int) -> Parts {
    let own = Parts {
        elements: Seq::empty(),
        anchors: placed_anchors(
            n.anchors,
            m.parts.offsets@,
            n.anchors.len() as int,
            None,
            x,
            y,
            w,
            h,
        ),
    };
    let area = Area { left: minus(x, w / 2), top: minus(y, h / 2), w, h };
    with_elements(
        n.elements,
        measure_views(m.parts.children@),
        n.layout,
        n.elements.len(),
        inside(area, n.label),
        Seq::empty(),
        None,
        own,
    )
}

/// A node with its centre at `(x, y)` and the given size, with all its parts
/// in their places.
pub open spec fn placed_node(n: LaneNodeView, m: NodeMeasure, x: int, y: int, w: int, h: int) -> SceneNodeView {
    let parts = node_parts(n, m, x, y, w, h);
    SceneNodeView {
        id: n.id,
        label: n.label,
        lane: n.lane,
        x: x as Px,
        y: y as Px,
        w: w as Px,
        h: h as Px,
        shape: n.shape,
        style: n.style,
        elements: parts.elements,
        anchors: parts.anchors,
    }
}

/// Build a scene node at centre `(x, y)` with the given box, placing its
/// sub-elements and resolving every anchor to a point.
pub fn scene_node(n: &AdvanceNode, m: &NodeMeasure, x: Px, y: Px, w: Px, h: Px) -> (r:
    AdvanceSceneNode)
    requires
        node_measured(n@, *m),
        bounded(x as int),
        bounded(y as int),
        bounded(w as int),
        bounded(h as int),
    ensures
        r@ == placed_node(n@, *m, x as int, y as int, w as int, h as int),
        node_near(r@),
{
    let mut out = Placing { elements: Vec::new(), anchors: Vec::new() };
    assert(n@.anchors.len() == n.anchors@.len());
    assert(scene_anchors(out.anchors@) =~= Seq::empty());
    place_anchors(&n.anchors, &m.parts.offsets, None, x, y, w, h, &mut out.anchors);
    let ghost own = out@;
    assert(own.elements =~= Seq::empty());
    assert(own.anchors =~= placed_anchors(
        n@.anchors,
        m.parts.offsets@,
        n@.anchors.len() as int,
        None,
        x as int,
        y as int,
        w as int,
        h as int,
    ));
    let area = Space { left: diff(x, half(w)), top: diff(y, half(h)), w, h };
    let path: Vec<String> = Vec::new();
    assert(strings(path@) =~= Seq::empty());
    assert(n@.elements.len() == n.elements@.len());
    place_elements(
        &n.elements,
        &m.parts.children,
        n.layout,
        space_inside(area, n.label.as_str()),
        &path,
        None,
        &mut out,
    );
    AdvanceSceneNode {
        id: n.id.clone(),
        label: n.label.clone(),
        lane: n.lane.clone(),
        x,
        y,
        w,
        h,
        shape: n.shape,
        style: n.style.clone(),
        elements: out.elements,
        anchors: out.anchors,
    }
}

} // verus!
