//! From source text to a placed scene and to SVG.

use vstd::prelude::*;

use crate::advance::parse_laws::{
    law_noted_diagram_is_consistent, law_parsed_diagram_is_consistent,
    law_parsed_lanes_are_distinct,
};
use crate::advance::ends::lane_node_ids;
use crate::advance::lane_tree::preorder;
use crate::advance::place::canvas::{lanes_around, reach_down, reach_right, widths_fit};
use crate::advance::place::fit::{fitted, move_down, move_right};
use crate::advance::place::lanes::{Basis, Spacing};
use crate::advance::place::layout::{
    all_explicit, basis, explicit_nodes, is_around, is_between, is_layout, is_scene, layout,
    layout_around, layout_between, own_places, placeable, stage, top_dims,
};
use crate::advance::place::lengths::{bound, cut, plus};
use crate::advance::place::measure::{
    label_widths, measure_at, measure_labels, measure_node, measure_nodes, measures, spacing,
    spacing_of,
};
use crate::advance::place::sequence::{
    all_named, emission_order, emitted, ids_of, law_every_node_is_emitted_once, lemma_own_ids,
    lemma_stage_ids, numbers, trees_distinct,
};
use crate::advance::place::sizes::{node_measured, NodeMeasure};
use crate::advance::route::edges::scene_ids;
use crate::advance::read_json::diagram_of_text;
use crate::advance::read_text::diagram_of_notation;
use crate::advance::scene::{AdvanceScene, Px, SceneView};
use crate::advance::svg::{
    labels_placed, marker_number, scene_colours, scene_svg, to_svg, MarkerCounter,
};
use crate::advance::svg_node::{Theme, ThemeView};
use crate::advance::{
    adv_err, lane_node_views, AdvanceDiagram, AdvanceDirection, AdvanceError, DiagramView,
};
use crate::peel_laws::{arrangement, lemma_covers};
use crate::text::{cat, cat3, decimal, decimal_string, decimal_text};

verus! {

/// Whether `sc` is the placed scene of a diagram.
pub open spec fn scene_of(sc: SceneView, d: DiagramView) -> bool {
    exists|ms: Seq<NodeMeasure>| #[trigger]
        measures(d, ms) && is_layout(sc, d, ms, label_widths(d.edges), spacing_of(d.config))
}

/// Place a diagram.
pub fn place(d: &AdvanceDiagram) -> (r: AdvanceScene)
    requires
        placeable(d@),
    ensures
        scene_of(r@, d@),
        labels_placed(r@),
{
    let ms = measure_nodes(d);
    let widths = measure_labels(d);
    let sp = spacing(&d.config);
    assert(measures(d@, ms@));
    layout(d, &ms, &widths, sp)
}

/// Parse an advance diagram from JSON and place it.
pub fn layout_advance(source: &str) -> (r: Result<AdvanceScene, AdvanceError>)
    ensures
        match diagram_of_text(source@) {
            Ok(d) => r is Ok && scene_of(r->Ok_0@, d) && labels_placed(r->Ok_0@),
            Err(m) => r is Err && r->Err_0.message@ == m,
        },
{
    match AdvanceDiagram::parse(source) {
        Ok(d) => {
            proof {
                law_parsed_diagram_is_consistent(source@);
            }
            Ok(place(&d))
        },
        Err(e) => Err(e),
    }
}

/// Whether `svg` is the picture of a scene for which `of` holds, and `next`
/// the number behind its last arrowhead.
pub open spec fn pictures(
    of: spec_fn(SceneView) -> bool,
    theme: ThemeView,
    first: usize,
    svg: Seq<char>,
    next: usize,
) -> bool {
    exists|sc: SceneView|
        {
            &&& #[trigger] of(sc)
            &&& svg == scene_svg(sc, theme, false, None, first)
            &&& next == marker_number(first, scene_colours(sc).len() as int)
        }
}

/// Parse an advance diagram from JSON, place it, and render it to SVG.
pub fn render_advance_svg(source: &str, theme: &Theme, counter: &mut MarkerCounter) -> (r: Result<
    String,
    AdvanceError,
>)
    ensures
        match diagram_of_text(source@) {
            Ok(d) => r is Ok && pictures(
                |sc: SceneView| scene_of(sc, d),
                theme@,
                old(counter).next,
                r->Ok_0@,
                final(counter).next,
            ),
            Err(m) => r is Err && r->Err_0.message@ == m && *final(counter) == *old(counter),
        },
{
    match layout_advance(source) {
        Ok(sc) => {
            let ghost of = |s: SceneView| scene_of(s, diagram_of_text(source@)->Ok_0);
            assert(of(sc@));
            Ok(to_svg(&sc, theme, counter))
        },
        Err(e) => Err(e),
    }
}

/// Parse an advance diagram from its line notation, place it, and render it
/// to SVG.
pub fn render_advance_text_svg(source: &str, theme: &Theme, counter: &mut MarkerCounter) -> (r:
    Result<String, AdvanceError>)
    ensures
        match diagram_of_notation(source@) {
            Ok(d) => r is Ok && pictures(
                |sc: SceneView| scene_of(sc, d),
                theme@,
                old(counter).next,
                r->Ok_0@,
                final(counter).next,
            ),
            Err(m) => r is Err && r->Err_0.message@ == m && *final(counter) == *old(counter),
        },
{
    match AdvanceDiagram::parse_text(source) {
        Ok(d) => {
            proof {
                law_noted_diagram_is_consistent(source@);
            }
            let sc = place(&d);
            let ghost of = |s: SceneView| scene_of(s, diagram_of_notation(source@)->Ok_0);
            assert(of(sc@));
            Ok(to_svg(&sc, theme, counter))
        },
        Err(e) => Err(e),
    }
}

/// The first coordinate from `i` on that is no finite number.
pub open spec fn not_finite_from(p: Seq<Option<Px>>, i: int) -> Option<int>
    decreases p.len() - i,
{
    if i < 0 || i >= p.len() {
        None
    } else if p[i] is None {
        Some(i)
    } else {
        not_finite_from(p, i + 1)
    }
}

/// What is wrong with the coordinates for a diagram of `n` nodes.
pub open spec fn positions_error(n: nat, p: Seq<Option<Px>>) -> Option<Seq<char>> {
    if p.len() != 2 * n {
        Some(
            "expected "@ + decimal(2 * n) + " coordinates for "@ + decimal(n) + " nodes, got "@
                + decimal(p.len()),
        )
    } else {
        match not_finite_from(p, 0) {
            Some(i) => Some("position["@ + decimal(i as nat) + "] is not a finite number"@),
            None => None,
        }
    }
}

/// Check that there are two coordinates for every node, each a finite
/// number. A coordinate that is none stands here as `None`.
pub fn validate_positions(d: &AdvanceDiagram, positions: &Vec<Option<Px>>) -> (r: Result<
    (),
    AdvanceError,
>)
    ensures
        match positions_error(d@.nodes.len(), positions@) {
            Some(m) => r is Err && r->Err_0.message@ == m,
            None => r is Ok && (forall|i: int|
                0 <= i < positions@.len() ==> (#[trigger] positions@[i]) is Some),
        },
{
    let n: u128 = d.nodes.len() as u128;
    assert(d@.nodes.len() == d.nodes@.len());
    if positions.len() as u128 != 2 * n {
        let head = cat3("expected ", decimal_text(2 * n).as_str(), " coordinates for ");
        let mid = cat3(head.as_str(), decimal_text(n).as_str(), " nodes, got ");
        return Err(adv_err(cat(mid.as_str(), decimal_string(positions.len()).as_str())));
    }
    let mut i: usize = 0;
    while i < positions.len()
        invariant
            i <= positions@.len(),
            positions@.len() == 2 * d@.nodes.len(),
            not_finite_from(positions@, 0) == not_finite_from(positions@, i as int),
            forall|j: int| 0 <= j < i ==> (#[trigger] positions@[j]) is Some,
        decreases positions@.len() - i,
    {
        if positions[i].is_none() {
            return Err(
                adv_err(cat3("position[", decimal_string(i).as_str(), "] is not a finite number")),
            );
        }
        i += 1;
    }
    Ok(())
}

/// Whether `ms` is what is measured of a diagram's nodes in given places:
/// the places stand in the order in which the placed diagram lists its
/// nodes.
pub open spec fn measures_at(d: DiagramView, ms: Seq<NodeMeasure>, p: Seq<Option<Px>>) -> bool {
    let o = emitted(d);
    &&& ms.len() == d.nodes.len()
    &&& forall|i: int|
        0 <= i < o.len() ==> measure_at(
            d.nodes[(#[trigger] o[i]) as int],
            ms[o[i] as int],
            p[2 * i],
            p[2 * i + 1],
        )
}

/// Find for every node where it stands in `order`.
fn slots_of(order: &Vec<usize>, n: usize) -> (r: Vec<usize>)
    requires
        arrangement(numbers(order@), n as int),
    ensures
        r@.len() == n,
        forall|i: int| 0 <= i < n ==> r@[(#[trigger] order@[i]) as int] == i,
        forall|j: int| 0 <= j < n ==> (#[trigger] r@[j]) < n,
{
    let ghost o = numbers(order@);
    let mut r: Vec<usize> = Vec::new();
    while r.len() < n
        invariant
            r@.len() <= n,
            forall|j: int| 0 <= j < r@.len() ==> (#[trigger] r@[j]) == 0,
        decreases n - r@.len(),
    {
        r.push(0);
    }
    assert(o.len() == order@.len());
    let mut i: usize = 0;
    while i < n
        invariant
            i <= n,
            o == numbers(order@),
            arrangement(o, n as int),
            order@.len() == n,
            r@.len() == n,
            forall|k: int| 0 <= k < i ==> r@[(#[trigger] order@[k]) as int] == k,
            forall|j: int| 0 <= j < n ==> (#[trigger] r@[j]) < n,
        decreases n - i,
    {
        let v: usize = order[i];
        assert(o[i as int] == v);
        let ghost before = r@;
        r.set(v, i);
        assert forall|k: int| 0 <= k < i + 1 implies r@[(#[trigger] order@[k]) as int] == k by {
            if k < i {
                assert(o[k] != o[i as int]);
                assert(before[order@[k] as int] == k);
            }
        }
        i += 1;
    }
    r
}

fn measure_placed(d: &AdvanceDiagram, positions: &Vec<Option<Px>>) -> (r: Vec<NodeMeasure>)
    requires
        placeable(d@),
        trees_distinct(d@.lanes, d@.lanes.len()),
        positions@.len() == 2 * d@.nodes.len(),
        forall|i: int| 0 <= i < positions@.len() ==> (#[trigger] positions@[i]) is Some,
    ensures
        measures_at(d@, r@, positions@),
        own_places(r@),
        forall|i: int| 0 <= i < d@.nodes.len() ==> node_measured(#[trigger] d@.nodes[i], r@[i]),
{
    let ghost nodes = d@.nodes;
    let n: usize = d.nodes.len();
    assert(nodes.len() == n);
    let order = emission_order(d);
    proof {
        law_every_node_is_emitted_once(d@);
        lemma_covers(numbers(order@), n as int);
    }
    let slots = slots_of(&order, n);
    let mut r: Vec<NodeMeasure> = Vec::new();
    let mut i: usize = 0;
    while i < n
        invariant
            i <= n,
            n == d.nodes@.len(),
            nodes == lane_node_views(d.nodes@),
            slots@.len() == n,
            forall|j: int| 0 <= j < n ==> (#[trigger] slots@[j]) < n,
            positions@.len() == 2 * n,
            forall|j: int| 0 <= j < positions@.len() ==> (#[trigger] positions@[j]) is Some,
            r@.len() == i,
            own_places(r@),
            forall|j: int|
                0 <= j < i ==> measure_at(
                    nodes[j],
                    #[trigger] r@[j],
                    positions@[2 * slots@[j]],
                    positions@[2 * slots@[j] + 1],
                ),
            forall|j: int| 0 <= j < i ==> node_measured(#[trigger] nodes[j], r@[j]),
        decreases n - i,
    {
        assert(nodes[i as int] == d.nodes@[i as int]@);
        let k: usize = slots[i];
        assert(2 * k + 1 < positions.len());
        let x = positions[2 * k];
        let y = positions[2 * k + 1];
        r.push(measure_node(&d.nodes[i], x, y));
        i += 1;
    }
    proof {
        let o = emitted(d@);
        assert forall|k: int| 0 <= k < o.len() implies measure_at(
            nodes[(#[trigger] o[k]) as int],
            r@[o[k] as int],
            positions@[2 * k],
            positions@[2 * k + 1],
        ) by {
            assert(numbers(order@)[k] == o[k]);
            assert(order@[k] == o[k]);
            let j = o[k] as int;
            assert(slots@[j] == k);
            assert(measure_at(
                nodes[j],
                r@[j],
                positions@[2 * slots@[j]],
                positions@[2 * slots@[j] + 1],
            ));
        }
    }
    r
}

/// Whether `sc` is the scene of a diagram with its nodes in given places.
pub open spec fn routed_scene(sc: SceneView, d: DiagramView, p: Seq<Option<Px>>) -> bool {
    exists|ms: Seq<NodeMeasure>| #[trigger]
        measures_at(d, ms, p) && is_around(
            sc,
            d,
            ms,
            label_widths(d.edges),
            spacing_of(d.config),
        )
}

proof fn lemma_all_named(d: DiagramView, ms: Seq<NodeMeasure>)
    requires
        measures(d, ms),
    ensures
        all_named(d.nodes) == all_explicit(ms),
{
    if all_named(d.nodes) {
        assert forall|i: int| 0 <= i < ms.len() implies (#[trigger] ms[i]).x is Some && ms[i].y
            is Some by {
            assert(d.nodes[i].x is Some);
        }
    } else if d.nodes.len() > 0 {
        let i = choose|i: int|
            0 <= i < d.nodes.len() && !((#[trigger] d.nodes[i]).x is Some && d.nodes[i].y is Some);
        assert(!(ms[i].x is Some && ms[i].y is Some));
    }
}

proof fn lemma_around_ids(
    sc: SceneView,
    d: DiagramView,
    ms: Seq<NodeMeasure>,
    widths: Seq<Px>,
    sp: Spacing,
)
    requires
        is_around(sc, d, ms, widths, sp),
    ensures
        scene_ids(sc.nodes) == scene_ids(
            explicit_nodes(basis(d, ms, sp), d.nodes.len() as int),
        ),
{
    let own = explicit_nodes(basis(d, ms, sp), d.nodes.len() as int);
    assert(scene_ids(sc.nodes) =~= scene_ids(own));
}

proof fn lemma_layout_ids(
    sc: SceneView,
    d: DiagramView,
    ms: Seq<NodeMeasure>,
    widths: Seq<Px>,
    sp: Spacing,
)
    requires
        is_layout(sc, d, ms, widths, sp),
    ensures
        all_explicit(ms) ==> is_around(sc, d, ms, widths, sp),
        !all_explicit(ms) ==> sc.nodes == stage(basis(d, ms, sp)).nodes,
{
}

proof fn lemma_named_ids(d: DiagramView)
    requires
        all_named(d.nodes),
        d.nodes.len() <= usize::MAX,
    ensures
        lane_node_ids(d.nodes).take(d.nodes.len() as int) == ids_of(d, emitted(d)),
{
    assert(lane_node_ids(d.nodes).take(d.nodes.len() as int) =~= ids_of(d, emitted(d)));
}

/// The nodes of a placed diagram are listed in the order of emission.
pub proof fn law_nodes_are_listed_as_emitted(sc: SceneView, d: DiagramView)
    requires
        scene_of(sc, d),
        d.nodes.len() <= usize::MAX,
    ensures
        scene_ids(sc.nodes) == ids_of(d, emitted(d)),
{
    let sp = spacing_of(d.config);
    let ms = choose|ms: Seq<NodeMeasure>| #[trigger]
        measures(d, ms) && is_layout(sc, d, ms, label_widths(d.edges), sp);
    let c = basis(d, ms, sp);
    lemma_all_named(d, ms);
    lemma_layout_ids(sc, d, ms, label_widths(d.edges), sp);
    if all_explicit(ms) {
        lemma_around_ids(sc, d, ms, label_widths(d.edges), sp);
        lemma_own_ids(c, d.nodes.len() as int);
        lemma_named_ids(d);
    } else {
        lemma_stage_ids(c, top_dims(c), c.sp.margin as int, c.sp.margin as int);
    }
}

/// Given places reach their nodes: the `i`-th listed node of the placed
/// diagram is drawn at the `i`-th given place, up to one shift that all
/// nodes share. A place beyond the range of lengths counts as the end of the
/// range.
pub proof fn law_places_reach_their_nodes(
    sc: SceneView,
    routed: SceneView,
    d: DiagramView,
    p: Seq<Option<Px>>,
)
    requires
        scene_of(sc, d),
        routed_scene(routed, d, p),
        placeable(d),
        trees_distinct(d.lanes, d.lanes.len()),
        d.nodes.len() <= usize::MAX,
        forall|i: int| 0 <= i < p.len() ==> (#[trigger] p[i]) is Some,
        p.len() == 2 * d.nodes.len(),
    ensures
        exists|dx: int, dy: int| #[trigger] drawn_at(sc, routed, p, dx, dy),
{
    let sp = spacing_of(d.config);
    let widths = label_widths(d.edges);
    law_nodes_are_listed_as_emitted(sc, d);
    law_every_node_is_emitted_once(d);
    let ms = choose|ms: Seq<NodeMeasure>| #[trigger]
        measures_at(d, ms, p) && is_around(routed, d, ms, widths, sp);
    let c = basis(d, ms, sp);
    let n = d.nodes.len() as int;
    let own = explicit_nodes(c, n);
    let flat = preorder(d.lanes);
    let lanes = lanes_around(flat, flat.len() as int, own, c.sp);
    let raw = choose|raw: SceneView|
        #[trigger] is_scene(
            raw,
            d,
            lanes,
            own,
            plus(reach_right(lanes, lanes.len() as int), c.sp.margin as int),
            plus(reach_down(lanes, lanes.len() as int), c.sp.margin as int),
            widths,
        ) && routed == fitted(raw, c.sp.margin as int);
    let moves = move_right(raw, c.sp.margin as int) > 0 || move_down(raw, c.sp.margin as int) > 0;
    let dx = if moves {
        move_right(raw, c.sp.margin as int)
    } else {
        0
    };
    let dy = if moves {
        move_down(raw, c.sp.margin as int)
    } else {
        0
    };
    let o = emitted(d);
    assert(scene_ids(sc.nodes).len() == sc.nodes.len());
    assert(ids_of(d, o).len() == o.len());
    assert(numbers(o).len() == o.len());
    lemma_own_ids(c, n);
    assert(own.len() == n);
    assert forall|i: int| 0 <= i < sc.nodes.len() implies node_drawn_at(
        routed,
        (#[trigger] sc.nodes[i]).id,
        bound(p[2 * i]->Some_0 as int) + dx,
        bound(p[2 * i + 1]->Some_0 as int) + dy,
    ) by {
        let j = o[i] as int;
        assert(numbers(o)[i] == j);
        assert(0 <= j < n);
        lemma_own_place(c, n, j);
        assert(scene_ids(sc.nodes)[i] == ids_of(d, o)[i]);
        assert(measure_at(d.nodes[o[i] as int], ms[o[i] as int], p[2 * i], p[2 * i + 1]));
        assert(p[2 * i] is Some && p[2 * i + 1] is Some);
        assert(own[j].id == d.nodes[j].id);
        assert(routed.nodes[j].id == sc.nodes[i].id);
        assert(routed.nodes[j].x == (bound(p[2 * i]->Some_0 as int) + dx) as Px);
        assert(routed.nodes[j].y == (bound(p[2 * i + 1]->Some_0 as int) + dy) as Px);
    }
    assert(drawn_at(sc, routed, p, dx, dy));
}

/// Whether a scene draws the node `id` at the given place.
pub open spec fn node_drawn_at(sc: SceneView, id: Seq<char>, x: int, y: int) -> bool {
    exists|j: int|
        0 <= j < sc.nodes.len() && (#[trigger] sc.nodes[j]).id == id && sc.nodes[j].x == x as Px
            && sc.nodes[j].y == y as Px
}

/// Whether `routed` draws every node of `sc` at its given place within the
/// range of lengths, moved by `(dx, dy)`.
pub open spec fn drawn_at(
    sc: SceneView,
    routed: SceneView,
    p: Seq<Option<Px>>,
    dx: int,
    dy: int,
) -> bool {
    forall|i: int|
        0 <= i < sc.nodes.len() ==> node_drawn_at(
            routed,
            (#[trigger] sc.nodes[i]).id,
            bound(p[2 * i]->Some_0 as int) + dx,
            bound(p[2 * i + 1]->Some_0 as int) + dy,
        )
}

proof fn lemma_own_place(c: Basis, k: int, j: int)
    requires
        0 <= j < k <= c.d.nodes.len(),
    ensures
        ({
            let n = explicit_nodes(c, k)[j];
            &&& n.id == c.d.nodes[j].id
            &&& n.x == bound(c.measures[j].x->Some_0 as int) as Px
            &&& n.y == bound(c.measures[j].y->Some_0 as int) as Px
        }),
    decreases k,
{
    lemma_own_ids(c, k - 1);
    if j < k - 1 {
        lemma_own_place(c, k - 1, j);
    }
}

/// Parse an advance diagram from JSON, put its nodes at the given centres
/// (`x0, y0, x1, y1, …` in the order of the nodes of [`layout_advance`]),
/// compute lanes and routes anew, and render to SVG.
pub fn render_advance_routed(
    source: &str,
    positions: &Vec<Option<Px>>,
    theme: &Theme,
    counter: &mut MarkerCounter,
) -> (r: Result<String, AdvanceError>)
    ensures
        match diagram_of_text(source@) {
            Ok(d) => match positions_error(d.nodes.len(), positions@) {
                Some(m) => r is Err && r->Err_0.message@ == m && *final(counter) == *old(counter),
                None => r is Ok && pictures(
                    |sc: SceneView| routed_scene(sc, d, positions@),
                    theme@,
                    old(counter).next,
                    r->Ok_0@,
                    final(counter).next,
                ),
            },
            Err(m) => r is Err && r->Err_0.message@ == m && *final(counter) == *old(counter),
        },
{
    let d = match AdvanceDiagram::parse(source) {
        Ok(d) => d,
        Err(e) => {
            return Err(e);
        },
    };
    proof {
        law_parsed_diagram_is_consistent(source@);
        law_parsed_lanes_are_distinct(source@);
    }
    if let Err(e) = validate_positions(&d, positions) {
        return Err(e);
    }
    let ms = measure_placed(&d, positions);
    let widths = measure_labels(&d);
    let sc = layout_around(&d, &ms, &widths, spacing(&d.config));
    proof {
        assert(measures_at(d@, ms@, positions@));
        let of = |s: SceneView| routed_scene(s, d@, positions@);
        assert(of(sc@));
    }
    Ok(to_svg(&sc, theme, counter))
}

/// The first width from `i` on that is no positive finite number.
pub open spec fn bad_width_from(w: Seq<Option<Px>>, i: int) -> Option<int>
    decreases w.len() - i,
{
    if i < 0 || i >= w.len() {
        None
    } else if !(w[i] matches Some(v) && v > 0) {
        Some(i)
    } else {
        bad_width_from(w, i + 1)
    }
}

/// Whether a distance is a finite number that is not negative.
pub open spec fn is_distance(v: Option<Px>) -> bool {
    v matches Some(n) && n >= 0
}

/// What is wrong with the lanes for a diagram of `n` top lanes.
pub open spec fn lanes_error(
    n: nat,
    w: Seq<Option<Px>>,
    margin: Option<Px>,
    gap: Option<Px>,
) -> Option<Seq<char>> {
    if w.len() != n {
        Some("expected "@ + decimal(n) + " lane widths, got "@ + decimal(w.len()))
    } else {
        match bad_width_from(w, 0) {
            Some(i) => Some(
                "lane_widths["@ + decimal(i as nat) + "] must be a positive finite number"@,
            ),
            None => if !is_distance(margin) {
                Some("margin must be a non-negative finite number"@)
            } else if !is_distance(gap) {
                Some("gap must be a non-negative finite number"@)
            } else {
                None
            },
        }
    }
}

/// Widths cut off at the ends of the range.
pub open spec fn cut_widths(w: Seq<Option<Px>>) -> Seq<Px> {
    Seq::new(w.len(), |i: int| bound(w[i]->Some_0 as int) as Px)
}

fn validate_lanes(
    d: &AdvanceDiagram,
    widths: &Vec<Option<Px>>,
    margin: Option<Px>,
    gap: Option<Px>,
) -> (r: Result<Vec<Px>, AdvanceError>)
    ensures
        match lanes_error(d@.lanes.len(), widths@, margin, gap) {
            Some(m) => r is Err && r->Err_0.message@ == m,
            None => r is Ok && r->Ok_0@ == cut_widths(widths@) && widths_fit(r->Ok_0@),
        },
{
    assert(d@.lanes.len() == d.lanes@.len());
    if widths.len() != d.lanes.len() {
        let head = cat3("expected ", decimal_string(d.lanes.len()).as_str(), " lane widths, got ");
        return Err(adv_err(cat(head.as_str(), decimal_string(widths.len()).as_str())));
    }
    let mut out: Vec<Px> = Vec::new();
    let mut i: usize = 0;
    while i < widths.len()
        invariant
            i <= widths@.len(),
            widths@.len() == d@.lanes.len(),
            bad_width_from(widths@, 0) == bad_width_from(widths@, i as int),
            out@.len() == i,
            widths_fit(out@),
            forall|j: int| 0 <= j < i ==> #[trigger] out@[j] == cut_widths(widths@)[j],
        decreases widths@.len() - i,
    {
        match widths[i] {
            Some(v) if v > 0 => out.push(cut(v)),
            _ => {
                return Err(
                    adv_err(
                        cat3(
                            "lane_widths[",
                            decimal_string(i).as_str(),
                            "] must be a positive finite number",
                        ),
                    ),
                );
            },
        }
        i += 1;
    }
    assert(out@ =~= cut_widths(widths@));
    match margin {
        Some(v) if v >= 0 => {},
        _ => {
            return Err(adv_err("margin must be a non-negative finite number".to_owned()));
        },
    }
    match gap {
        Some(v) if v >= 0 => {},
        _ => {
            return Err(adv_err("gap must be a non-negative finite number".to_owned()));
        },
    }
    Ok(out)
}

/// Whether `sc` is the scene of a diagram with its nodes in given places, in
/// lanes of given widths.
pub open spec fn laned_scene(
    sc: SceneView,
    d: DiagramView,
    p: Seq<Option<Px>>,
    w: Seq<Option<Px>>,
    margin: Option<Px>,
    gap: Option<Px>,
) -> bool {
    exists|ms: Seq<NodeMeasure>| #[trigger]
        measures_at(d, ms, p) && is_between(
            sc,
            d,
            ms,
            label_widths(d.edges),
            spacing_of(d.config),
            cut_widths(w),
            bound(margin->Some_0 as int) as Px,
            bound(gap->Some_0 as int) as Px,
        )
}

/// What is wrong with the places and lanes for a diagram.
pub open spec fn laned_error(
    d: DiagramView,
    p: Seq<Option<Px>>,
    w: Seq<Option<Px>>,
    margin: Option<Px>,
    gap: Option<Px>,
) -> Option<Seq<char>> {
    if d.direction == AdvanceDirection::Horizontal {
        Some("render_advance_routed_with_lanes is not supported in horizontal direction"@)
    } else {
        match positions_error(d.nodes.len(), p) {
            Some(m) => Some(m),
            None => lanes_error(d.lanes.len(), w, margin, gap),
        }
    }
}

/// As [`render_advance_routed`], in lanes of the given widths.
pub fn render_advance_routed_with_lanes(
    source: &str,
    positions: &Vec<Option<Px>>,
    lane_widths: &Vec<Option<Px>>,
    margin: Option<Px>,
    gap: Option<Px>,
    theme: &Theme,
    counter: &mut MarkerCounter,
) -> (r: Result<String, AdvanceError>)
    ensures
        match diagram_of_text(source@) {
            Ok(d) => match laned_error(d, positions@, lane_widths@, margin, gap) {
                Some(m) => r is Err && r->Err_0.message@ == m && *final(counter) == *old(counter),
                None => r is Ok && pictures(
                    |sc: SceneView| laned_scene(sc, d, positions@, lane_widths@, margin, gap),
                    theme@,
                    old(counter).next,
                    r->Ok_0@,
                    final(counter).next,
                ),
            },
            Err(m) => r is Err && r->Err_0.message@ == m && *final(counter) == *old(counter),
        },
{
    let d = match AdvanceDiagram::parse(source) {
        Ok(d) => d,
        Err(e) => {
            return Err(e);
        },
    };
    proof {
        law_parsed_diagram_is_consistent(source@);
        law_parsed_lanes_are_distinct(source@);
    }
    if d.direction == AdvanceDirection::Horizontal {
        return Err(
            adv_err(
                "render_advance_routed_with_lanes is not supported in horizontal direction".to_owned(),
            ),
        );
    }
    if let Err(e) = validate_positions(&d, positions) {
        return Err(e);
    }
    let cut_lanes = match validate_lanes(&d, lane_widths, margin, gap) {
        Ok(w) => w,
        Err(e) => {
            return Err(e);
        },
    };
    let margin_px: Px = match margin {
        Some(v) => cut(v),
        None => 0,
    };
    let gap_px: Px = match gap {
        Some(v) => cut(v),
        None => 0,
    };
    let ms = measure_placed(&d, positions);
    let widths = measure_labels(&d);
    assert(d@.lanes.len() == d.lanes@.len());
    let sc = layout_between(
        &d,
        &ms,
        &widths,
        spacing(&d.config),
        &cut_lanes,
        margin_px,
        gap_px,
    );
    proof {
        assert(measures_at(d@, ms@, positions@));
        let of = |s: SceneView| laned_scene(s, d@, positions@, lane_widths@, margin, gap);
        assert(of(sc@));
    }
    Ok(to_svg(&sc, theme, counter))
}

} // verus!
