//! What is measured of a diagram before it is placed.

use vstd::prelude::*;

use crate::advance::place::lanes::Spacing;
use crate::advance::place::lengths::{bound, bounded, cut};
use crate::advance::place::sizes::{
    all_measured, measure_view, measure_views, measured, node_measured, offsets_fit, Measure,
    MeasureView, NodeMeasure,
};
use crate::advance::route::edges::widths_near;
use crate::advance::route::geometry::FAR;
use crate::advance::scene::{Px, GRID};
use crate::advance::{
    anchor_views, element_views, lane_edge_views, lane_node_views, AdvanceAnchor, AdvanceConfig,
    AdvanceDiagram, AdvanceElement, AdvanceNode, AnchorView, ConfigView, DiagramView, ElementView,
    LaneEdgeView, LaneNodeView,
};
use crate::layout::width::{text_width, width};
use crate::num::{cut_point, cut_sign, digit_value, digits_value, Num};
use crate::text::{all_digits, chars_of, digit, find_char};

verus! {

/// Nine decimals.
pub open spec fn nine(frac: Seq<char>) -> Seq<char> {
    Seq::new(
        9,
        |i: int|
            if i < frac.len() {
                frac[i]
            } else {
                '0'
            },
    )
}

/// The whole of a number, and what its decimals amount to, in grid units: a
/// multiple of sixteen, so that halves of it are on the grid too.
pub open spec fn magnitude(whole: Seq<char>, frac: Seq<char>) -> nat {
    digits_value(whole) * 64000 + 16 * ((digits_value(nine(frac)) * 4000 + 500000000) / 1000000000)
}

/// The multiple of sixteen grid units that is nearest to a number by its
/// first nine decimals.
pub open spec fn to_grid(t: Seq<char>) -> int {
    let (neg, body) = cut_sign(t);
    let (whole, frac) = cut_point(body);
    if !all_digits(whole) || !all_digits(frac) {
        0
    } else if neg {
        bound(-(magnitude(whole, frac) as int))
    } else {
        bound(magnitude(whole, frac) as int)
    }
}

pub open spec fn least_of(n: nat, most: nat) -> nat {
    if n < most {
        n
    } else {
        most
    }
}

fn digits_number(s: &[char]) -> (r: Option<u64>)
    ensures
        match r {
            Some(v) => all_digits(s@) && v == least_of(digits_value(s@), 0x100_0000_0000),
            None => !all_digits(s@),
        },
{
    let mut v: u64 = 0;
    let mut i: usize = 0;
    assert(s@.take(0) =~= Seq::empty());
    while i < s.len()
        invariant
            i <= s@.len(),
            all_digits(s@.take(i as int)),
            v == least_of(digits_value(s@.take(i as int)), 0x100_0000_0000),
        decreases s@.len() - i,
    {
        let c = s[i];
        if !digit(c) {
            assert(s@[i as int] == c);
            return None;
        }
        let ghost next = s@.take(i + 1);
        assert(next.drop_last() =~= s@.take(i as int));
        assert(next.last() == c);
        assert forall|j: int| 0 <= j < next.len() implies crate::text::is_digit(
            #[trigger] next[j],
        ) by {
            if j < i {
                assert(next[j] == s@.take(i as int)[j]);
            }
        }
        let d: u64 = (c as u32 - '0' as u32) as u64;
        assert(d == digit_value(c));
        let sum: u64 = v * 10 + d;
        v = if sum < 0x100_0000_0000 {
            sum
        } else {
            0x100_0000_0000
        };
        i += 1;
    }
    assert(s@.take(i as int) =~= s@);
    Some(v)
}

fn nine_digits(frac: &[char]) -> (r: Vec<char>)
    ensures
        r@ == nine(frac@),
{
    let mut r: Vec<char> = Vec::new();
    let mut i: usize = 0;
    while i < 9
        invariant
            i <= 9,
            r@.len() == i,
            forall|j: int| 0 <= j < i ==> #[trigger] r@[j] == nine(frac@)[j],
        decreases 9 - i,
    {
        if i < frac.len() {
            r.push(frac[i]);
        } else {
            r.push('0');
        }
        i += 1;
    }
    assert(r@ =~= nine(frac@));
    r
}

proof fn lemma_digits_bound(s: Seq<char>)
    requires
        all_digits(s),
        s.len() <= 9,
    ensures
        digits_value(s) < 1000000000,
        s.len() <= 8 ==> digits_value(s) < 100000000,
        s.len() <= 7 ==> digits_value(s) < 10000000,
        s.len() <= 6 ==> digits_value(s) < 1000000,
        s.len() <= 5 ==> digits_value(s) < 100000,
        s.len() <= 4 ==> digits_value(s) < 10000,
        s.len() <= 3 ==> digits_value(s) < 1000,
        s.len() <= 2 ==> digits_value(s) < 100,
        s.len() <= 1 ==> digits_value(s) < 10,
    decreases s.len(),
{
    if s.len() > 0 {
        assert(crate::text::is_digit(s.last()));
        assert(all_digits(s.drop_last()));
        lemma_digits_bound(s.drop_last());
    }
}

/// Put a number on the grid.
pub fn num_px(n: &Num) -> (r: Px)
    ensures
        r == to_grid(n@),
        bounded(r as int),
{
    let all = chars_of(n.text.as_str());
    let t = all.as_slice();
    let neg = t.len() > 0 && t[0] == '-';
    let signed = neg || (t.len() > 0 && t[0] == '+');
    let body: &[char] = if signed {
        &t[1..t.len()]
    } else {
        t
    };
    assert(body@ =~= cut_sign(t@).1);
    let dot = find_char(body, '.');
    let whole: &[char] = match dot {
        Some(k) => &body[0..k],
        None => body,
    };
    let frac: &[char] = match dot {
        Some(k) => &body[k + 1..body.len()],
        None => &body[body.len()..body.len()],
    };
    assert(whole@ =~= cut_point(body@).0);
    assert(frac@ =~= cut_point(body@).1);
    let w: u64 = match digits_number(whole) {
        Some(v) => v,
        None => {
            return 0;
        },
    };
    if digits_number(frac).is_none() {
        return 0;
    }
    let decimals = nine_digits(frac);
    assert(all_digits(decimals@));
    let f: u64 = match digits_number(decimals.as_slice()) {
        Some(v) => v,
        None => 0,
    };
    proof {
        lemma_digits_bound(decimals@);
    }
    let v: u64 = w * 64000 + 16 * ((f * 4000 + 500000000) / 1000000000);
    let m: i64 = v as i64;
    if neg {
        cut(-m)
    } else {
        cut(m)
    }
}

/// How wide a text is drawn, in grid units: sixty-four to a thousandth of a
/// pixel, so that halves of it are on the grid too.
pub open spec fn text_px(s: Seq<char>) -> int {
    bound(64 * width(s) as int)
}

pub fn width_px(s: &str) -> (r: Px)
    ensures
        r == text_px(s@),
        bounded(r as int),
        0 <= r,
{
    let w: u128 = text_width(s) as u128;
    let g: u128 = 64 * w;
    if g > 0x40_0000_0000_0000 {
        FAR
    } else {
        g as i64
    }
}

/// How far along its side an anchor sits.
pub open spec fn offset_px(t: Seq<char>) -> int {
    let v = to_grid(t);
    if v < 0 {
        0
    } else if v > GRID {
        GRID as int
    } else {
        v
    }
}

fn offset_of(n: &Num) -> (r: Px)
    ensures
        r == offset_px(n@),
        0 <= r <= GRID,
{
    let v: Px = num_px(n);
    if v < 0 {
        0
    } else if v > GRID {
        GRID
    } else {
        v
    }
}

/// How far along their sides anchors sit.
pub open spec fn offsets_px(a: Seq<AnchorView>) -> Seq<Px> {
    Seq::new(a.len(), |i: int| offset_px(a[i].offset) as Px)
}

fn measure_offsets(a: &Vec<AdvanceAnchor>) -> (r: Vec<Px>)
    ensures
        r@ == offsets_px(anchor_views(a@)),
        offsets_fit(r@),
{
    let ghost av = anchor_views(a@);
    let mut r: Vec<Px> = Vec::new();
    let mut i: usize = 0;
    while i < a.len()
        invariant
            i <= a@.len(),
            av == anchor_views(a@),
            r@.len() == i,
            offsets_fit(r@),
            forall|j: int| 0 <= j < i ==> #[trigger] r@[j] == offset_px(av[j].offset) as Px,
        decreases a@.len() - i,
    {
        assert(av[i as int] == a@[i as int]@);
        r.push(offset_of(&a[i].offset));
        i += 1;
    }
    assert(r@ =~= offsets_px(av));
    r
}

/// What is measured of a sub-element.
pub open spec fn element_measure(e: ElementView) -> MeasureView
    decreases e,
{
    MeasureView {
        label_w: text_px(e.label) as Px,
        offsets: offsets_px(e.anchors),
        children: element_measures(e.elements),
    }
}

pub open spec fn element_measures(es: Seq<ElementView>) -> Seq<MeasureView>
    decreases es,
{
    Seq::new(
        es.len(),
        |i: int|
            if 0 <= i < es.len() {
                element_measure(es[i])
            } else {
                arbitrary()
            },
    )
}

fn measure_one(e: &AdvanceElement) -> (r: Measure)
    ensures
        r@ == element_measure(e@),
        measured(e@, r@),
    decreases e,
{
    let label_w: Px = width_px(e.label.as_str());
    let offsets = measure_offsets(&e.anchors);
    let children = measure_all(&e.elements);
    let r = Measure { label_w, offsets, children };
    assert(r@ =~= element_measure(e@));
    r
}

fn measure_all(es: &Vec<AdvanceElement>) -> (r: Vec<Measure>)
    ensures
        measure_views(r@) == element_measures(element_views(es@)),
        all_measured(element_views(es@), measure_views(r@), es@.len()),
    decreases es,
{
    let ghost ev = element_views(es@);
    let ghost want = element_measures(ev);
    let mut r: Vec<Measure> = Vec::new();
    let mut i: usize = 0;
    while i < es.len()
        invariant
            i <= es@.len(),
            ev == element_views(es@),
            want == element_measures(ev),
            r@.len() == i,
            forall|j: int| 0 <= j < i ==> (#[trigger] r@[j])@ == want[j] && measured(ev[j], want[j]),
        decreases es@.len() - i,
    {
        assert(ev[i as int] == es@[i as int]@);
        let m = measure_one(&es[i]);
        assert(want[i as int] == element_measure(ev[i as int]));
        r.push(m);
        i += 1;
    }
    proof {
        assert forall|j: int| 0 <= j < want.len() implies #[trigger] measure_views(r@)[j]
            == want[j] by {
            assert(r@[j]@ == want[j]);
        }
        assert(measure_views(r@) =~= want);
        assert forall|j: int| 0 <= j < want.len() implies measured(ev[j], #[trigger] want[j]) by {
            assert(r@[j]@ == want[j]);
        }
        lemma_all(ev, want, es@.len());
    }
    r
}

proof fn lemma_all(es: Seq<ElementView>, ms: Seq<MeasureView>, k: nat)
    requires
        ms.len() == es.len(),
        k <= es.len(),
        forall|j: int| 0 <= j < ms.len() ==> measured(es[j], #[trigger] ms[j]),
    ensures
        all_measured(es, ms, k),
    decreases k,
{
    if k > 0 {
        lemma_all(es, ms, (k - 1) as nat);
        assert(measured(es[k - 1], ms[k - 1]));
    }
}

/// A coordinate on the grid.
pub open spec fn opt_grid(n: Option<Seq<char>>) -> Option<Px> {
    match n {
        Some(t) => Some(to_grid(t) as Px),
        None => None,
    }
}

fn opt_px(n: &Option<Num>) -> (r: Option<Px>)
    ensures
        r == opt_grid(crate::model::opt_num(*n)),
{
    match n {
        Some(v) => Some(num_px(v)),
        None => None,
    }
}

/// Whether `m` is what is measured of a node, with the place `x` and `y`.
pub open spec fn measure_at(n: LaneNodeView, m: NodeMeasure, x: Option<Px>, y: Option<Px>) -> bool {
    &&& m.x == x
    &&& m.y == y
    &&& m.w == opt_grid(n.w)
    &&& m.h == opt_grid(n.h)
    &&& m.parts@ == (MeasureView {
        label_w: text_px(n.label) as Px,
        offsets: offsets_px(n.anchors),
        children: element_measures(n.elements),
    })
}

pub fn measure_node(n: &AdvanceNode, x: Option<Px>, y: Option<Px>) -> (r: NodeMeasure)
    ensures
        measure_at(n@, r, x, y),
        node_measured(n@, r),
{
    let label_w: Px = width_px(n.label.as_str());
    let offsets = measure_offsets(&n.anchors);
    let children = measure_all(&n.elements);
    let parts = Measure { label_w, offsets, children };
    assert(measure_view(parts).offsets == offsets@);
    assert(measure_view(parts).children == measure_views(children@));
    NodeMeasure { x, y, w: opt_px(&n.w), h: opt_px(&n.h), parts }
}

/// Whether `ms` is what is measured of a diagram's nodes.
pub open spec fn measures(d: DiagramView, ms: Seq<NodeMeasure>) -> bool {
    &&& ms.len() == d.nodes.len()
    &&& forall|i: int|
        0 <= i < ms.len() ==> measure_at(
            d.nodes[i],
            #[trigger] ms[i],
            opt_grid(d.nodes[i].x),
            opt_grid(d.nodes[i].y),
        )
}

/// Measure the nodes of a diagram.
pub fn measure_nodes(d: &AdvanceDiagram) -> (r: Vec<NodeMeasure>)
    ensures
        measures(d@, r@),
        forall|i: int| 0 <= i < d@.nodes.len() ==> node_measured(#[trigger] d@.nodes[i], r@[i]),
{
    let ghost nodes = d@.nodes;
    let mut r: Vec<NodeMeasure> = Vec::new();
    let mut i: usize = 0;
    while i < d.nodes.len()
        invariant
            i <= d.nodes@.len(),
            nodes == lane_node_views(d.nodes@),
            r@.len() == i,
            forall|j: int|
                0 <= j < i ==> measure_at(
                    nodes[j],
                    #[trigger] r@[j],
                    opt_grid(nodes[j].x),
                    opt_grid(nodes[j].y),
                ),
            forall|j: int| 0 <= j < i ==> node_measured(#[trigger] nodes[j], r@[j]),
        decreases d.nodes@.len() - i,
    {
        assert(nodes[i as int] == d.nodes@[i as int]@);
        let n = &d.nodes[i];
        r.push(measure_node(n, opt_px(&n.x), opt_px(&n.y)));
        i += 1;
    }
    r
}

/// The widths of the labels of edges.
pub open spec fn label_widths(edges: Seq<LaneEdgeView>) -> Seq<Px> {
    Seq::new(
        edges.len(),
        |i: int|
            match edges[i].label {
                Some(l) => text_px(l) as Px,
                None => 0,
            },
    )
}

/// Measure the labels of a diagram's edges.
pub fn measure_labels(d: &AdvanceDiagram) -> (r: Vec<Px>)
    ensures
        r@ == label_widths(d@.edges),
        widths_near(r@),
{
    let ghost edges = d@.edges;
    let mut r: Vec<Px> = Vec::new();
    let mut i: usize = 0;
    while i < d.edges.len()
        invariant
            i <= d.edges@.len(),
            edges == lane_edge_views(d.edges@),
            r@.len() == i,
            widths_near(r@),
            forall|j: int| 0 <= j < i ==> #[trigger] r@[j] == label_widths(edges)[j],
        decreases d.edges@.len() - i,
    {
        assert(edges[i as int] == d.edges@[i as int]@);
        let w: Px = match &d.edges[i].label {
            Some(l) => width_px(l.as_str()),
            None => 0,
        };
        r.push(w);
        i += 1;
    }
    assert(r@ =~= label_widths(edges));
    r
}

/// The spacing that a diagram is placed by.
pub open spec fn spacing_of(c: ConfigView) -> Spacing {
    Spacing {
        margin: to_grid(c.margin) as Px,
        lane_gap: to_grid(c.lane_gap) as Px,
        node_gap_y: to_grid(c.node_gap_y) as Px,
        lane_pad_x: to_grid(c.lane_pad_x) as Px,
        lane_pad_y: to_grid(c.lane_pad_y) as Px,
        lane_title_h: to_grid(c.lane_title_h) as Px,
    }
}

pub fn spacing(c: &AdvanceConfig) -> (r: Spacing)
    ensures
        r == spacing_of(c@),
{
    Spacing {
        margin: num_px(&c.margin),
        lane_gap: num_px(&c.lane_gap),
        node_gap_y: num_px(&c.node_gap_y),
        lane_pad_x: num_px(&c.lane_pad_x),
        lane_pad_y: num_px(&c.lane_pad_y),
        lane_title_h: num_px(&c.lane_title_h),
    }
}

} // verus!
