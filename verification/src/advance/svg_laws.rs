//! What drawn nodes and edges look like.

use vstd::prelude::*;

use crate::advance::scene::{shown, Point, SceneEdgeView, SceneNodeView};
use crate::advance::svg::{
    dash_attr, edge_colour, edge_label, edge_svg, edge_width, marker_ref, path, path_to,
};
use crate::advance::svg_node::{
    corners, least, outline, paint_attrs, pixels, polygon, sides, Paint,
};
use crate::advance::StyleView;
use crate::emit::text_laws::{heavy, holds, in_dots, lemma_holds_last, lemma_holds_more};
use crate::markup::attribute;
use crate::model::Shape;

verus! {

/// Whether a node is drawn as a polygon.
pub open spec fn cornered(shape: Shape) -> bool {
    shape is Diamond || shape is Hexagon || shape is Parallelogram || shape is ParallelogramAlt
}

/// Whether corners span the box of a node: all lie in it, and each of its
/// sides has one.
pub open spec fn spans(n: SceneNodeView, c: Seq<(i128, i128)>) -> bool {
    let (l, r) = (4 * n.x - 2 * n.w, 4 * n.x + 2 * n.w);
    let (t, b) = (4 * n.y - 2 * n.h, 4 * n.y + 2 * n.h);
    &&& forall|i: int| 0 <= i < c.len() ==> l <= (#[trigger] c[i]).0 <= r && t <= c[i].1 <= b
    &&& exists|i: int| 0 <= i < c.len() && (#[trigger] c[i]).0 == l
    &&& exists|i: int| 0 <= i < c.len() && (#[trigger] c[i]).0 == r
    &&& exists|i: int| 0 <= i < c.len() && (#[trigger] c[i]).1 == t
    &&& exists|i: int| 0 <= i < c.len() && (#[trigger] c[i]).1 == b
}

/// Whether a point is a corner.
pub open spec fn has_corner(c: Seq<(i128, i128)>, x: int, y: int) -> bool {
    exists|i: int| 0 <= i < c.len() && (#[trigger] c[i]).0 == x && c[i].1 == y
}

/// Whether corners make the figure of a shape: a diamond has its four in the
/// middles of the sides, a hexagon its left and right ones; a parallelogram
/// leans to the right, with corners at the upper right and the lower left
/// and no others in common with its box, and the other one leans to the
/// left.
pub open spec fn figures(n: SceneNodeView, c: Seq<(i128, i128)>) -> bool {
    let (x, y) = (4 * n.x, 4 * n.y);
    let (l, r) = (4 * n.x - 2 * n.w, 4 * n.x + 2 * n.w);
    let (t, b) = (4 * n.y - 2 * n.h, 4 * n.y + 2 * n.h);
    match n.shape {
        Shape::Diamond => {
            &&& c.len() == 4
            &&& has_corner(c, x, t) && has_corner(c, r, y) && has_corner(c, x, b) && has_corner(
                c,
                l,
                y,
            )
        },
        Shape::Hexagon => {
            &&& c.len() == 6
            &&& has_corner(c, l, y) && has_corner(c, r, y)
            &&& forall|i: int|
                0 <= i < c.len() && (#[trigger] c[i]).1 != y ==> (c[i].1 == t || c[i].1 == b) && l
                    < c[i].0 < r
        },
        Shape::Parallelogram => {
            &&& c.len() == 4
            &&& has_corner(c, r, t) && has_corner(c, l, b)
            &&& !has_corner(c, l, t) && !has_corner(c, r, b)
        },
        Shape::ParallelogramAlt => {
            &&& c.len() == 4
            &&& has_corner(c, l, t) && has_corner(c, r, b)
            &&& !has_corner(c, r, t) && !has_corner(c, l, b)
        },
        _ => true,
    }
}

proof fn lemma_polygon(p: Seq<(i128, i128)>, more: Seq<char>, close: Seq<char>)
    ensures
        holds(polygon(p, more, close), attribute("points"@, corners(p))),
{
    let points = attribute("points"@, corners(p));
    lemma_holds_last("<polygon"@, points);
    lemma_holds_more("<polygon"@ + points, more, points);
    lemma_holds_more("<polygon"@ + points + more, close, points);
}

/// Nodes with corners are drawn as polygons that span their boxes, in the
/// figure of their shape.
#[verifier::spinoff_prover]
#[verifier::rlimit(40)]
pub proof fn law_polygons_fill_their_boxes(n: SceneNodeView, p: Paint)
    requires
        cornered(n.shape),
        0 < n.w,
        0 < n.h,
    ensures
        exists|c: Seq<(i128, i128)>|
            {
                &&& #[trigger] holds(outline(n, p), attribute("points"@, corners(c)))
                &&& spans(n, c)
                &&& figures(n, c)
            },
{
    let s = sides(n.x, n.y, n.w, n.h);
    let (x, y) = ((4 * n.x) as i128, (4 * n.y) as i128);
    let k = least(pixels(14), n.w as int) as i128;
    let paint = paint_attrs(p);
    let (a, b) = ((s.l + k) as i128, (s.r - k) as i128);
    assert(0 < k <= n.w);
    match n.shape {
        Shape::Diamond => {
            let c = seq![(x, s.t), (s.r, y), (x, s.b), (s.l, y)];
            lemma_polygon(c, paint, "/>\n"@);
            assert(c[0] == (x, s.t) && c[1] == (s.r, y) && c[2] == (x, s.b) && c[3] == (s.l, y));
            assert(spans(n, c));
            assert(holds(outline(n, p), attribute("points"@, corners(c))));
        },
        Shape::Hexagon => {
            let c = seq![(s.l, y), (a, s.t), (b, s.t), (s.r, y), (b, s.b), (a, s.b)];
            lemma_polygon(c, paint, "/>\n"@);
            assert(c[0] == (s.l, y) && c[1] == (a, s.t) && c[3] == (s.r, y) && c[4] == (b, s.b));
            assert(spans(n, c));
            assert(holds(outline(n, p), attribute("points"@, corners(c))));
        },
        Shape::Parallelogram => {
            let c = seq![(a, s.t), (s.r, s.t), (b, s.b), (s.l, s.b)];
            lemma_polygon(c, paint, " />\n"@);
            assert(c[0] == (a, s.t) && c[1] == (s.r, s.t) && c[2] == (b, s.b) && c[3] == (s.l, s.b));
            assert(spans(n, c));
            assert(holds(outline(n, p), attribute("points"@, corners(c))));
        },
        Shape::ParallelogramAlt => {
            let c = seq![(s.l, s.t), (b, s.t), (s.r, s.b), (a, s.b)];
            lemma_polygon(c, paint, " />\n"@);
            assert(c[0] == (s.l, s.t) && c[1] == (b, s.t) && c[2] == (s.r, s.b) && c[3] == (a, s.b));
            assert(spans(n, c));
            assert(holds(outline(n, p), attribute("points"@, corners(c))));
        },
        _ => {},
    }
}

/// The tenths of a number that is written with one digit on each side of
/// its point.
pub open spec fn tenths_of(s: Seq<char>) -> int {
    10 * (s[0] as int - '0' as int) + (s[2] as int - '0' as int)
}

/// Edges without a style of their own show their kinds: just the dotted ones
/// are dashed, and the thick ones have a heavier stroke than all others.
pub proof fn law_edges_look_like_their_kinds(e: SceneEdgeView, f: SceneEdgeView)
    requires
        e.style.dash is None,
        e.style.stroke_width is None,
        f.style.stroke_width is None,
    ensures
        (dash_attr(e).len() > 0) == in_dots(e.kind),
        heavy(e.kind) && !heavy(f.kind) ==> tenths_of(edge_width(e)) > tenths_of(edge_width(f)),
        heavy(e.kind) == heavy(f.kind) ==> edge_width(e) == edge_width(f),
{
    reveal_strlit("3.4");
    reveal_strlit("1.7");
    reveal_strlit("5 4");
    reveal_strlit("");
    reveal_strlit("stroke-dasharray");
}

/// Of an edge that is drawn the picture holds its way, its colour, its
/// stroke width, its dashes and the reference to its head. An invisible one
/// leaves nothing.
pub proof fn law_edges_are_drawn(
    e: SceneEdgeView,
    s: StyleView,
    colours: Seq<Seq<char>>,
    first: usize,
)
    ensures
        e.kind is Invisible ==> edge_svg(e, s, colours, first).len() == 0,
        !(e.kind is Invisible) ==> {
            let all = edge_svg(e, s, colours, first);
            &&& holds(all, attribute("d"@, path(e.points)))
            &&& holds(all, attribute("stroke"@, edge_colour(e, s)))
            &&& holds(all, attribute("stroke-width"@, edge_width(e)))
            &&& holds(all, dash_attr(e))
            &&& holds(all, marker_ref(e, s, colours, first))
            &&& e.label matches Some(label) ==> holds(all, edge_label(e, s, label))
        },
{
    reveal_strlit("");
    if !(e.kind is Invisible) {
        let t1 = attribute("d"@, path(e.points));
        let t2 = attribute("stroke"@, edge_colour(e, s));
        let t3 = attribute("stroke-width"@, edge_width(e));
        let t4 = dash_attr(e);
        let t5 = marker_ref(e, s, colours, first);
        let h1 = "<path"@ + t1;
        let h2 = h1 + " fill=\"none\""@ + t2;
        let h3 = h2 + t3;
        let h4 = h3 + t4;
        let h5 = h4 + t5;
        let way = h5 + "/>\n"@;
        lemma_holds_last("<path"@, t1);
        lemma_holds_more(h1, " fill=\"none\""@, t1);
        lemma_holds_more(h1 + " fill=\"none\""@, t2, t1);
        lemma_holds_last(h1 + " fill=\"none\""@, t2);
        lemma_holds_last(h2, t3);
        lemma_holds_last(h3, t4);
        lemma_holds_last(h4, t5);
        lemma_holds_more(h2, t3, t1);
        lemma_holds_more(h2, t3, t2);
        lemma_holds_more(h3, t4, t1);
        lemma_holds_more(h3, t4, t2);
        lemma_holds_more(h3, t4, t3);
        lemma_holds_more(h4, t5, t1);
        lemma_holds_more(h4, t5, t2);
        lemma_holds_more(h4, t5, t3);
        lemma_holds_more(h4, t5, t4);
        lemma_rest(h5, "/>\n"@, t1, t2, t3, t4, t5);
        if let Some(label) = e.label {
            let l = edge_label(e, s, label);
            lemma_rest(way, l, t1, t2, t3, t4, t5);
            lemma_holds_last(way, l);
        }
    }
}

proof fn lemma_rest(
    h: Seq<char>,
    b: Seq<char>,
    t1: Seq<char>,
    t2: Seq<char>,
    t3: Seq<char>,
    t4: Seq<char>,
    t5: Seq<char>,
)
    requires
        holds(h, t1),
        holds(h, t2),
        holds(h, t3),
        holds(h, t4),
        holds(h, t5),
    ensures
        holds(h + b, t1),
        holds(h + b, t2),
        holds(h + b, t3),
        holds(h + b, t4),
        holds(h + b, t5),
{
    lemma_holds_more(h, b, t1);
    lemma_holds_more(h, b, t2);
    lemma_holds_more(h, b, t3);
    lemma_holds_more(h, b, t4);
    lemma_holds_more(h, b, t5);
}

/// A point of a way.
pub open spec fn point_text(p: Point) -> Seq<char> {
    shown(4 * p.x) + " "@ + shown(4 * p.y)
}

proof fn lemma_path(p: Seq<Point>, k: int)
    requires
        1 <= k <= p.len(),
    ensures
        exists|rest: Seq<char>| path_to(p, k) == "M "@ + point_text(p[0]) + rest,
    decreases k,
{
    if k == 1 {
        assert(path_to(p, 1) =~= "M "@ + point_text(p[0]) + Seq::empty());
    } else {
        lemma_path(p, k - 1);
        let rest = choose|rest: Seq<char>| path_to(p, k - 1) == "M "@ + point_text(p[0]) + rest;
        let more = " L "@ + point_text(p[k - 1]);
        let step = " L "@ + shown(4 * p[k - 1].x) + " "@ + shown(4 * p[k - 1].y);
        assert(step =~= more);
        assert(path_to(p, k) =~= path_to(p, k - 1) + step);
        assert(path_to(p, k) =~= "M "@ + point_text(p[0]) + (rest + more));
    }
}

/// The way of an edge starts at its first point, ends at its last, and a way
/// through more points starts with the way through fewer.
pub proof fn law_ways_run_through_their_points(p: Seq<Point>)
    requires
        p.len() >= 2,
    ensures
        exists|rest: Seq<char>| path(p) == "M "@ + point_text(p[0]) + rest,
        exists|front: Seq<char>| path(p) == front + " L "@ + point_text(p[p.len() - 1]),
        p.len() > 2 ==> path(p) == path(p.drop_last()) + " L "@ + point_text(p[p.len() - 1]),
{
    let n = p.len() as int;
    lemma_path(p, n);
    let front = path_to(p, n - 1);
    assert(path(p) =~= front + " L "@ + point_text(p[n - 1]));
    if n > 2 {
        lemma_prefix(p, n - 1);
    }
}

proof fn lemma_prefix(p: Seq<Point>, k: int)
    requires
        1 <= k < p.len(),
    ensures
        path_to(p, k) == path_to(p.drop_last(), k),
    decreases k,
{
    if k > 1 {
        lemma_prefix(p, k - 1);
    }
}

} // verus!
