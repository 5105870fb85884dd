//! Drawing one node of a placed diagram as SVG.
//!
//! Lengths are in quarter grid units, so that halves and quarters of a
//! node's sides are whole numbers.

use vstd::prelude::*;

use crate::advance::scene::{
    in_range, scene_elements, show, shown, AdvanceSceneElement, AdvanceSceneNode, Px,
    SceneElementView, SceneNodeView, QUARTERS,
};
use crate::markup::{attr, attribute, escape, escaped, or_default, style_attr, style_text};
use crate::model::{opt_num, opt_text, Shape};
use crate::num::{tenths, write_tenths, Num};
use crate::text::{chars_of, split_char, split_seq, string_of, texts};

verus! {

/// Height of a node with a one-line label, in pixels.
pub const BASE_H: i128 = 38;

/// Height of each further line of a label, in pixels.
pub const LINE_H: i128 = 17;

/// The font size of all labels.
pub const FONT_SIZE: &'static str = "13";

/// The colours of one shape.
#[derive(Debug, Clone, PartialEq)]
pub struct ShapeStyle {
    pub fill: String,
    pub stroke: String,
}

/// The colours that nodes have by their shape.
#[derive(Debug, Clone, PartialEq)]
pub struct Theme {
    /// Shapes with colours of their own.
    pub shapes: Vec<(Shape, ShapeStyle)>,
    /// The colours of every other shape.
    pub other: ShapeStyle,
}

/// A [`ShapeStyle`] in mathematical terms: fill, then stroke.
pub type Colours = (Seq<char>, Seq<char>);

/// A [`Theme`] in mathematical terms.
#[verifier::ext_equal]
pub struct ThemeView {
    pub shapes: Seq<(Shape, Colours)>,
    pub other: Colours,
}

impl View for Theme {
    type V = ThemeView;

    open spec fn view(&self) -> ThemeView {
        ThemeView {
            shapes: self.shapes@.map_values(
                |e: (Shape, ShapeStyle)| (e.0, (e.1.fill@, e.1.stroke@)),
            ),
            other: (self.other.fill@, self.other.stroke@),
        }
    }
}

/// The colours of a shape, looked for from entry `i` on.
pub open spec fn shape_colours(t: ThemeView, shape: Shape, i: int) -> Colours
    decreases t.shapes.len() - i,
{
    if i < 0 || i >= t.shapes.len() {
        t.other
    } else if t.shapes[i].0 == shape {
        t.shapes[i].1
    } else {
        shape_colours(t, shape, i + 1)
    }
}

impl Theme {
    /// The colours of a shape.
    pub fn shape_style<'a>(&'a self, shape: Shape) -> (r: &'a ShapeStyle)
        ensures
            (r.fill@, r.stroke@) == shape_colours(self@, shape, 0),
    {
        let mut i: usize = 0;
        while i < self.shapes.len()
            invariant
                i <= self.shapes@.len(),
                shape_colours(self@, shape, 0) == shape_colours(self@, shape, i as int),
            decreases self.shapes@.len() - i,
        {
            assert(self@.shapes[i as int] == (
                self.shapes@[i as int].0,
                (self.shapes@[i as int].1.fill@, self.shapes@[i as int].1.stroke@),
            ));
            if self.shapes[i].0 == shape {
                return &self.shapes[i].1;
            }
            i += 1;
        }
        &self.other
    }
}

/// An attribute that holds a length.
pub open spec fn length(name: Seq<char>, q: int) -> Seq<char> {
    attribute(name, shown(q))
}

pub fn length_attr(name: &str, q: i128) -> (r: String)
    requires
        in_range(q as int),
    ensures
        r@ == length(name@, q as int),
{
    attr(name, show(q).as_str())
}

/// The smaller of two lengths.
pub open spec fn least(a: int, b: int) -> int {
    if a <= b {
        a
    } else {
        b
    }
}

/// `n` pixels in quarter units.
pub open spec fn pixels(n: int) -> int {
    n * QUARTERS
}

/// The four sides of a rectangle around its centre.
#[derive(Clone, Copy)]
pub struct Sides {
    pub l: i128,
    pub r: i128,
    pub t: i128,
    pub b: i128,
}

pub open spec fn sides(x: Px, y: Px, w: Px, h: Px) -> Sides {
    Sides {
        l: (4 * x - 2 * w) as i128,
        r: (4 * x + 2 * w) as i128,
        t: (4 * y - 2 * h) as i128,
        b: (4 * y + 2 * h) as i128,
    }
}

fn sides_of(x: Px, y: Px, w: Px, h: Px) -> (r: Sides)
    ensures
        r == sides(x, y, w, h),
        r.l == 4 * x - 2 * w,
        r.r == 4 * x + 2 * w,
        r.t == 4 * y - 2 * h,
        r.b == 4 * y + 2 * h,
{
    let (x, y, w, h) = (x as i128, y as i128, w as i128, h as i128);
    Sides { l: 4 * x - 2 * w, r: 4 * x + 2 * w, t: 4 * y - 2 * h, b: 4 * y + 2 * h }
}

/// A rectangle with the given corner, sides, and further attributes.
pub open spec fn rect(x: int, y: int, w: int, h: int, more: Seq<char>) -> Seq<char> {
    "<rect"@ + length("x"@, x) + length("y"@, y) + length("width"@, w) + length("height"@, h)
        + more + "/>\n"@
}

pub fn rect_tag(x: i128, y: i128, w: i128, h: i128, more: &str) -> (r: String)
    requires
        in_range(x as int),
        in_range(y as int),
        in_range(w as int),
        in_range(h as int),
    ensures
        r@ == rect(x as int, y as int, w as int, h as int, more@),
{
    let mut s = "<rect".to_owned();
    s.append(length_attr("x", x).as_str());
    s.append(length_attr("y", y).as_str());
    s.append(length_attr("width", w).as_str());
    s.append(length_attr("height", h).as_str());
    s.append(more);
    s.append("/>\n");
    s
}

/// A circle.
pub open spec fn circle(x: int, y: int, r: int, more: Seq<char>) -> Seq<char> {
    "<circle"@ + length("cx"@, x) + length("cy"@, y) + length("r"@, r) + more + "/>\n"@
}

pub fn circle_tag(x: i128, y: i128, r: i128, more: &str) -> (out: String)
    requires
        in_range(x as int),
        in_range(y as int),
        in_range(r as int),
    ensures
        out@ == circle(x as int, y as int, r as int, more@),
{
    let mut s = "<circle".to_owned();
    s.append(length_attr("cx", x).as_str());
    s.append(length_attr("cy", y).as_str());
    s.append(length_attr("r", r).as_str());
    s.append(more);
    s.append("/>\n");
    s
}

/// Points of a polygon: `x,y` pairs with spaces between them.
pub open spec fn corners(p: Seq<(i128, i128)>) -> Seq<char>
    decreases p.len(),
{
    if p.len() == 0 {
        ""@
    } else {
        corners(p.drop_last()) + (if p.len() > 1 {
            " "@
        } else {
            ""@
        }) + shown(p.last().0 as int) + ","@ + shown(p.last().1 as int)
    }
}

pub open spec fn all_in_range(p: Seq<(i128, i128)>) -> bool {
    forall|i: int|
        0 <= i < p.len() ==> in_range((#[trigger] p[i]).0 as int) && in_range(p[i].1 as int)
}

fn corners_text(p: &Vec<(i128, i128)>) -> (r: String)
    requires
        all_in_range(p@),
    ensures
        r@ == corners(p@),
{
    let mut s = "".to_owned();
    let mut i: usize = 0;
    assert(p@.take(0).len() == 0);
    while i < p.len()
        invariant
            i <= p@.len(),
            all_in_range(p@),
            s@ == corners(p@.take(i as int)),
        decreases p@.len() - i,
    {
        assert(p@.take(i as int + 1).drop_last() =~= p@.take(i as int));
        s.append(
            if i > 0 {
                " "
            } else {
                ""
            },
        );
        s.append(show(p[i].0).as_str());
        s.append(",");
        s.append(show(p[i].1).as_str());
        i += 1;
    }
    assert(p@.take(p@.len() as int) =~= p@);
    s
}

/// A polygon; `close` ends its tag.
pub open spec fn polygon(p: Seq<(i128, i128)>, more: Seq<char>, close: Seq<char>) -> Seq<char> {
    "<polygon"@ + attribute("points"@, corners(p)) + more + close
}

fn polygon_tag(p: &Vec<(i128, i128)>, more: &str, close: &str) -> (r: String)
    requires
        all_in_range(p@),
    ensures
        r@ == polygon(p@, more@, close@),
{
    let mut s = "<polygon".to_owned();
    s.append(attr("points", corners_text(p).as_str()).as_str());
    s.append(more);
    s.append(close);
    s
}

/// Fill, stroke and stroke width of a node.
#[verifier::ext_equal]
pub struct Paint {
    pub fill: Seq<char>,
    pub stroke: Seq<char>,
    pub width: Seq<char>,
}

pub open spec fn stroke_width(w: Option<Seq<char>>, default: Seq<char>) -> Seq<char> {
    match w {
        Some(n) => tenths(n),
        None => default,
    }
}

/// A stroke width with one decimal.
pub fn stroke_width_text(w: &Option<Num>, default: &str) -> (r: String)
    ensures
        r@ == stroke_width(opt_num(*w), default@),
{
    match w {
        Some(n) => write_tenths(n).text,
        None => default.to_owned(),
    }
}

pub open spec fn stroke_attrs(stroke: Seq<char>, width: Seq<char>) -> Seq<char> {
    attribute("stroke"@, stroke) + attribute("stroke-width"@, width)
}

fn stroke_attrs_text(stroke: &str, width: &str) -> (r: String)
    ensures
        r@ == stroke_attrs(stroke@, width@),
{
    let mut s = attr("stroke", stroke);
    s.append(attr("stroke-width", width).as_str());
    s
}

pub open spec fn paint_attrs(p: Paint) -> Seq<char> {
    attribute("fill"@, p.fill) + attribute("stroke"@, p.stroke) + attribute(
        "stroke-width"@,
        p.width,
    )
}

/// How a node is painted: its own style over the colours of its shape.
pub open spec fn node_paint(n: SceneNodeView, t: ThemeView) -> Paint {
    Paint {
        fill: style_text(n.style.fill, shape_colours(t, n.shape, 0).0),
        stroke: style_text(n.style.stroke, shape_colours(t, n.shape, 0).1),
        width: stroke_width(n.style.stroke_width, "1.6"@),
    }
}

/// The outline of an arc segment: `M`, a half ellipse, and what follows.
pub open spec fn cylinder(s: Sides, w: int, h: int, p: Paint) -> Seq<char> {
    let ry = least(pixels(8), h);
    let (ty, by) = (s.t + ry, s.b - ry);
    "<path d=\"M "@ + shown(s.l as int) + " "@ + shown(ty) + " A "@ + shown(2 * w) + " "@ + shown(
        ry,
    ) + " 0 0 0 "@ + shown(s.r as int) + " "@ + shown(ty) + " L "@ + shown(s.r as int) + " "@
        + shown(by) + " A "@ + shown(2 * w) + " "@ + shown(ry) + " 0 0 1 "@ + shown(s.l as int)
        + " "@ + shown(by) + " Z\""@ + paint_attrs(p) + "/>\n<path d=\"M "@ + shown(s.l as int)
        + " "@ + shown(ty) + " A "@ + shown(2 * w) + " "@ + shown(ry) + " 0 0 1 "@ + shown(
        s.r as int,
    ) + " "@ + shown(ty) + "\" fill=\"none\""@ + stroke_attrs(p.stroke, p.width) + "/>\n"@
}

/// A vertical line.
pub open spec fn upright(x: int, t: int, b: int, p: Paint) -> Seq<char> {
    "<line"@ + length("x1"@, x) + length("y1"@, t) + length("x2"@, x) + length("y2"@, b)
        + stroke_attrs(p.stroke, p.width) + "/>\n"@
}

fn upright_tag(x: i128, t: i128, b: i128, stroke: &str, width: &str, Ghost(p): Ghost<Paint>) -> (r:
    String)
    requires
        in_range(x as int),
        in_range(t as int),
        in_range(b as int),
        stroke@ == p.stroke,
        width@ == p.width,
    ensures
        r@ == upright(x as int, t as int, b as int, p),
{
    let mut s = "<line".to_owned();
    s.append(length_attr("x1", x).as_str());
    s.append(length_attr("y1", t).as_str());
    s.append(length_attr("x2", x).as_str());
    s.append(length_attr("y2", b).as_str());
    s.append(stroke_attrs_text(stroke, width).as_str());
    s.append("/>\n");
    s
}

fn cylinder_tag(
    s: Sides,
    w: i128,
    h: i128,
    paint: &str,
    stroke: &str,
    width: &str,
    Ghost(p): Ghost<Paint>,
) -> (r: String)
    requires
        -0x8000_0000_0000_0000 <= w <= 0x8000_0000_0000_0000,
        -0x8000_0000_0000_0000 <= h <= 0x8000_0000_0000_0000,
        -0x10_0000_0000_0000_0000 <= s.l <= 0x10_0000_0000_0000_0000,
        -0x10_0000_0000_0000_0000 <= s.r <= 0x10_0000_0000_0000_0000,
        -0x10_0000_0000_0000_0000 <= s.t <= 0x10_0000_0000_0000_0000,
        -0x10_0000_0000_0000_0000 <= s.b <= 0x10_0000_0000_0000_0000,
        paint@ == paint_attrs(p),
        stroke@ == p.stroke,
        width@ == p.width,
    ensures
        r@ == cylinder(s, w as int, h as int, p),
{
    let ry: i128 = if 8 * QUARTERS <= h {
        8 * QUARTERS
    } else {
        h
    };
    let ty: i128 = s.t + ry;
    let by: i128 = s.b - ry;
    let mut o = "<path d=\"M ".to_owned();
    o.append(show(s.l).as_str());
    o.append(" ");
    o.append(show(ty).as_str());
    o.append(" A ");
    o.append(show(2 * w).as_str());
    o.append(" ");
    o.append(show(ry).as_str());
    o.append(" 0 0 0 ");
    o.append(show(s.r).as_str());
    o.append(" ");
    o.append(show(ty).as_str());
    o.append(" L ");
    o.append(show(s.r).as_str());
    o.append(" ");
    o.append(show(by).as_str());
    o.append(" A ");
    o.append(show(2 * w).as_str());
    o.append(" ");
    o.append(show(ry).as_str());
    o.append(" 0 0 1 ");
    o.append(show(s.l).as_str());
    o.append(" ");
    o.append(show(by).as_str());
    o.append(" Z\"");
    o.append(paint);
    o.append("/>\n<path d=\"M ");
    o.append(show(s.l).as_str());
    o.append(" ");
    o.append(show(ty).as_str());
    o.append(" A ");
    o.append(show(2 * w).as_str());
    o.append(" ");
    o.append(show(ry).as_str());
    o.append(" 0 0 1 ");
    o.append(show(s.r).as_str());
    o.append(" ");
    o.append(show(ty).as_str());
    o.append("\" fill=\"none\"");
    o.append(stroke_attrs_text(stroke, width).as_str());
    o.append("/>\n");
    o
}

/// The outline of a node.
pub open spec fn outline(n: SceneNodeView, p: Paint) -> Seq<char> {
    let s = sides(n.x, n.y, n.w, n.h);
    let (x, y) = ((4 * n.x) as i128, (4 * n.y) as i128);
    let (w, h) = (4 * n.w, 4 * n.h);
    let k = least(pixels(14), n.w as int) as i128;
    let paint = paint_attrs(p);
    match n.shape {
        Shape::Rect => rect(s.l as int, s.t as int, w, h, length("rx"@, pixels(3)) + paint),
        Shape::Rounded => rect(s.l as int, s.t as int, w, h, length("rx"@, pixels(9)) + paint),
        Shape::Stadium => rect(s.l as int, s.t as int, w, h, length("rx"@, 2 * n.h) + paint),
        Shape::Circle => circle(x as int, y as int, 2 * n.w, paint),
        Shape::Diamond => polygon(seq![(x, s.t), (s.r, y), (x, s.b), (s.l, y)], paint, "/>\n"@),
        Shape::DoubleCircle => circle(x as int, y as int, 2 * n.w, paint) + circle(
            x as int,
            y as int,
            2 * n.w - pixels(4),
            paint,
        ),
        Shape::Cylinder => cylinder(s, n.w as int, n.h as int, p),
        Shape::Subroutine => rect(s.l as int, s.t as int, w, h, attribute("rx"@, "3"@) + paint)
            + upright(s.l + pixels(8), s.t as int, s.b as int, p) + upright(
            s.r - pixels(8),
            s.t as int,
            s.b as int,
            p,
        ),
        Shape::Hexagon => polygon(
            seq![
                (s.l, y),
                ((s.l + k) as i128, s.t),
                ((s.r - k) as i128, s.t),
                (s.r, y),
                ((s.r - k) as i128, s.b),
                ((s.l + k) as i128, s.b),
            ],
            paint,
            "/>\n"@,
        ),
        Shape::Parallelogram => polygon(
            seq![((s.l + k) as i128, s.t), (s.r, s.t), ((s.r - k) as i128, s.b), (s.l, s.b)],
            paint,
            " />\n"@,
        ),
        Shape::ParallelogramAlt => polygon(
            seq![(s.l, s.t), ((s.r - k) as i128, s.t), (s.r, s.b), ((s.l + k) as i128, s.b)],
            paint,
            " />\n"@,
        ),
        Shape::StateStart | Shape::StateEnd | Shape::ForkBar => rect(
            s.l as int,
            s.t as int,
            w,
            h,
            attribute("rx"@, "3"@) + paint,
        ),
    }
}

fn outline_tag(
    n: &AdvanceSceneNode,
    paint: &str,
    stroke: &str,
    width: &str,
    Ghost(p): Ghost<Paint>,
) -> (r: String)
    requires
        paint@ == paint_attrs(p),
        stroke@ == p.stroke,
        width@ == p.width,
    ensures
        r@ == outline(n@, p),
{
    let s = sides_of(n.x, n.y, n.w, n.h);
    let x: i128 = 4 * (n.x as i128);
    let y: i128 = 4 * (n.y as i128);
    let w: i128 = n.w as i128;
    let h: i128 = n.h as i128;
    let k: i128 = if 14 * QUARTERS <= w {
        14 * QUARTERS
    } else {
        w
    };
    let lk: i128 = s.l + k;
    let rk: i128 = s.r - k;
    match n.shape {
        Shape::Rect => {
            let mut more = length_attr("rx", 3 * QUARTERS);
            more.append(paint);
            rect_tag(s.l, s.t, 4 * w, 4 * h, more.as_str())
        },
        Shape::Rounded => {
            let mut more = length_attr("rx", 9 * QUARTERS);
            more.append(paint);
            rect_tag(s.l, s.t, 4 * w, 4 * h, more.as_str())
        },
        Shape::Stadium => {
            let mut more = length_attr("rx", 2 * h);
            more.append(paint);
            rect_tag(s.l, s.t, 4 * w, 4 * h, more.as_str())
        },
        Shape::Circle => circle_tag(x, y, 2 * w, paint),
        Shape::Diamond => {
            let pts: Vec<(i128, i128)> = vec![(x, s.t), (s.r, y), (x, s.b), (s.l, y)];
            assert(pts@ =~= seq![(x, s.t), (s.r, y), (x, s.b), (s.l, y)]);
            polygon_tag(&pts, paint, "/>\n")
        },
        Shape::DoubleCircle => {
            let mut o = circle_tag(x, y, 2 * w, paint);
            o.append(circle_tag(x, y, 2 * w - 4 * QUARTERS, paint).as_str());
            o
        },
        Shape::Cylinder => cylinder_tag(s, w, h, paint, stroke, width, Ghost(p)),
        Shape::Subroutine => {
            let mut more = attr("rx", "3");
            more.append(paint);
            let mut o = rect_tag(s.l, s.t, 4 * w, 4 * h, more.as_str());
            o.append(
                upright_tag(s.l + 8 * QUARTERS, s.t, s.b, stroke, width, Ghost(p)).as_str(),
            );
            o.append(
                upright_tag(s.r - 8 * QUARTERS, s.t, s.b, stroke, width, Ghost(p)).as_str(),
            );
            o
        },
        Shape::Hexagon => {
            let pts: Vec<(i128, i128)> = vec![
                (s.l, y),
                (lk, s.t),
                (rk, s.t),
                (s.r, y),
                (rk, s.b),
                (lk, s.b),
            ];
            assert(pts@ =~= seq![
                (s.l, y),
                (lk, s.t),
                (rk, s.t),
                (s.r, y),
                (rk, s.b),
                (lk, s.b),
            ]);
            polygon_tag(&pts, paint, "/>\n")
        },
        Shape::Parallelogram => {
            let pts: Vec<(i128, i128)> = vec![
                (lk, s.t),
                (s.r, s.t),
                (rk, s.b),
                (s.l, s.b),
            ];
            assert(pts@ =~= seq![
                (lk, s.t),
                (s.r, s.t),
                (rk, s.b),
                (s.l, s.b),
            ]);
            polygon_tag(&pts, paint, " />\n")
        },
        Shape::ParallelogramAlt => {
            let pts: Vec<(i128, i128)> = vec![
                (s.l, s.t),
                (rk, s.t),
                (s.r, s.b),
                (lk, s.b),
            ];
            assert(pts@ =~= seq![
                (s.l, s.t),
                (rk, s.t),
                (s.r, s.b),
                (lk, s.b),
            ]);
            polygon_tag(&pts, paint, " />\n")
        },
        Shape::StateStart | Shape::StateEnd | Shape::ForkBar => {
            let mut more = attr("rx", "3");
            more.append(paint);
            rect_tag(s.l, s.t, 4 * w, 4 * h, more.as_str())
        },
    }
}

/// One centred line of text.
pub open spec fn text_line(x: int, y: int, colour: Seq<char>, line: Seq<char>) -> Seq<char> {
    "<text"@ + length("x"@, x) + length("y"@, y)
        + " dy=\"0.33em\" text-anchor=\"middle\" font-size=\""@ + FONT_SIZE@ + "\""@
        + attribute("fill"@, colour) + ">"@ + escaped(line) + "</text>\n"@
}

pub fn text_line_tag(x: i128, y: i128, colour: &str, line: &str) -> (r: String)
    requires
        in_range(x as int),
        in_range(y as int),
    ensures
        r@ == text_line(x as int, y as int, colour@, line@),
{
    let mut s = "<text".to_owned();
    s.append(length_attr("x", x).as_str());
    s.append(length_attr("y", y).as_str());
    s.append(" dy=\"0.33em\" text-anchor=\"middle\" font-size=\"");
    s.append(FONT_SIZE);
    s.append("\"");
    s.append(attr("fill", colour).as_str());
    s.append(">");
    s.append(escape(line).as_str());
    s.append("</text>\n");
    s
}

/// Lines of text, the first at height `y`, each a line height below the
/// one before; of them those before number `k`.
pub open spec fn text_lines(
    lines: Seq<Seq<char>>,
    x: int,
    y: int,
    colour: Seq<char>,
    k: int,
) -> Seq<char>
    decreases k,
{
    if k <= 0 {
        ""@
    } else {
        text_lines(lines, x, y, colour, k - 1) + text_line(
            x,
            y + (k - 1) * pixels(LINE_H as int),
            colour,
            lines[k - 1],
        )
    }
}

/// How far a label of `n` lines reaches up from its centre.
pub open spec fn half_block(n: int) -> int {
    (n - 1) * pixels(LINE_H as int) / 2
}

/// How far below its upper edge the label of a node with sub-elements has
/// its centre.
pub open spec fn half_band(n: int) -> int {
    pixels(BASE_H as int) / 2 + half_block(n)
}

/// The label of a box: in its middle, or in its top band.
pub open spec fn label_block(
    label: Seq<char>,
    x: Px,
    y: Px,
    h: Px,
    top: bool,
    colour: Seq<char>,
) -> Seq<char> {
    let lines = split_seq(label, '\n');
    let n = lines.len() as int;
    let cy = if top {
        4 * y - 2 * h + half_band(n)
    } else {
        4 * y
    };
    text_lines(lines, 4 * x, cy - half_block(n), colour, n)
}

fn label_tags(label: &str, x: Px, y: Px, h: Px, top: bool, colour: &str) -> (r: String)
    ensures
        r@ == label_block(label@, x, y, h, top, colour@),
{
    let c = chars_of(label);
    let lines = split_char(c.as_slice(), '\n');
    let ghost want = split_seq(label@, '\n');
    let n: usize = lines.len();
    let step: i128 = LINE_H * QUARTERS;
    let half: i128 = (n as i128 - 1) * (step / 2);
    assert(half == half_block(n as int)) by {
        let a = (n - 1) as int;
        assert(a * pixels(LINE_H as int) == 2 * (a * (step / 2))) by (nonlinear_arith)
            requires
                step == 17 * 256000,
                pixels(LINE_H as int) == step,
        ;
    }
    let x4: i128 = 4 * (x as i128);
    let y4: i128 = 4 * (y as i128);
    let cy: i128 = if top {
        y4 - 2 * (h as i128) + (BASE_H * QUARTERS / 2 + half)
    } else {
        y4
    };
    let start: i128 = cy - half;
    let mut s = "".to_owned();
    let mut i: usize = 0;
    while i < n
        invariant
            i <= n,
            n == lines@.len(),
            texts(lines@) == want,
            step == 17 * 256000,
            x4 == 4 * x,
            -0x1000_0000_0000_0000_0000_0000 <= start <= 0x1000_0000_0000_0000_0000_0000,
            s@ == text_lines(want, x4 as int, start as int, colour@, i as int),
        decreases n - i,
    {
        assert(want[i as int] == lines@[i as int]@);
        let y: i128 = start + (i as i128) * step;
        s.append(text_line_tag(x4, y, colour, string_of(lines[i]).as_str()).as_str());
        i += 1;
    }
    s
}

/// Whether the element with index `i` is some element's parent.
pub open spec fn has_children(s: Seq<SceneElementView>, i: int) -> bool {
    exists|j: int| 0 <= j < s.len() && #[trigger] s[j].parent == Some(i as usize)
}

fn is_parent(s: &Vec<AdvanceSceneElement>, i: usize) -> (r: bool)
    ensures
        r == has_children(scene_elements(s@), i as int),
{
    let ghost v = scene_elements(s@);
    let mut j: usize = 0;
    while j < s.len()
        invariant
            j <= s@.len(),
            v == scene_elements(s@),
            forall|k: int| 0 <= k < j ==> #[trigger] v[k].parent != Some(i),
        decreases s@.len() - j,
    {
        assert(v[j as int].parent == s@[j as int].parent);
        if let Some(p) = s[j].parent {
            if p == i {
                return true;
            }
        }
        j += 1;
    }
    false
}

/// The compartment of the sub-element with index `i`; `stroke` and `text`
/// are the colours of the node around it.
pub open spec fn compartment(
    s: Seq<SceneElementView>,
    i: int,
    stroke: Seq<char>,
    text: Seq<char>,
) -> Seq<char> {
    let e = s[i];
    let b = sides(e.x, e.y, e.w, e.h);
    rect(
        b.l as int,
        b.t as int,
        4 * e.w,
        4 * e.h,
        attribute("rx"@, "4"@) + attribute("fill"@, style_text(e.style.fill, "#ffffff"@))
            + attribute("stroke"@, style_text(e.style.stroke, stroke)) + attribute(
            "stroke-width"@,
            "1"@,
        ),
    ) + label_block(
        e.label,
        e.x,
        e.y,
        e.h,
        has_children(s, i),
        style_text(e.style.color, text),
    )
}

fn compartment_tags(s: &Vec<AdvanceSceneElement>, i: usize, stroke: &str, text: &str) -> (r: String)
    requires
        i < s@.len(),
    ensures
        r@ == compartment(scene_elements(s@), i as int, stroke@, text@),
{
    let e = &s[i];
    assert(scene_elements(s@)[i as int] == e@);
    let b = sides_of(e.x, e.y, e.w, e.h);
    let mut more = attr("rx", "4");
    more.append(attr("fill", style_attr(&e.style.fill, "#ffffff").as_str()).as_str());
    more.append(attr("stroke", style_attr(&e.style.stroke, stroke).as_str()).as_str());
    more.append(attr("stroke-width", "1").as_str());
    let mut o = rect_tag(b.l, b.t, 4 * (e.w as i128), 4 * (e.h as i128), more.as_str());
    let colour = style_attr(&e.style.color, text);
    o.append(
        label_tags(e.label.as_str(), e.x, e.y, e.h, is_parent(s, i), colour.as_str()).as_str(),
    );
    o
}

/// The compartments of the sub-elements before number `k`, in order, so
/// that nested ones paint over their parent.
pub open spec fn compartments(
    s: Seq<SceneElementView>,
    stroke: Seq<char>,
    text: Seq<char>,
    k: int,
) -> Seq<char>
    decreases k,
{
    if k <= 0 {
        ""@
    } else {
        compartments(s, stroke, text, k - 1) + compartment(s, k - 1, stroke, text)
    }
}

/// A node: outline, label, sub-elements.
pub open spec fn node_svg(n: SceneNodeView, t: ThemeView, text_color: Seq<char>) -> Seq<char> {
    let p = node_paint(n, t);
    outline(n, p) + label_block(
        n.label,
        n.x,
        n.y,
        n.h,
        n.elements.len() > 0,
        style_text(n.style.color, text_color),
    ) + compartments(
        n.elements,
        or_default(n.style.stroke, shape_colours(t, n.shape, 0).1),
        or_default(n.style.color, text_color),
        n.elements.len() as int,
    )
}

fn value_or<'a>(v: &'a Option<String>, default: &'a str) -> (r: &'a str)
    ensures
        r@ == or_default(opt_text(*v), default@),
{
    match v {
        Some(s) => s.as_str(),
        None => default,
    }
}

/// The SVG text of one node.
pub fn render_node(n: &AdvanceSceneNode, theme: &Theme, text_color: &str) -> (r: String)
    ensures
        r@ == node_svg(n@, theme@, text_color@),
{
    let own = theme.shape_style(n.shape);
    let fill = style_attr(&n.style.fill, own.fill.as_str());
    let stroke = style_attr(&n.style.stroke, own.stroke.as_str());
    let width = stroke_width_text(&n.style.stroke_width, "1.6");
    let ghost p = node_paint(n@, theme@);
    let mut paint = attr("fill", fill.as_str());
    paint.append(attr("stroke", stroke.as_str()).as_str());
    paint.append(attr("stroke-width", width.as_str()).as_str());
    let mut o = outline_tag(n, paint.as_str(), stroke.as_str(), width.as_str(), Ghost(p));
    let colour = style_attr(&n.style.color, text_color);
    o.append(
        label_tags(
            n.label.as_str(),
            n.x,
            n.y,
            n.h,
            n.elements.len() > 0,
            colour.as_str(),
        ).as_str(),
    );
    let raw_stroke = value_or(&n.style.stroke, own.stroke.as_str());
    let raw_text = value_or(&n.style.color, text_color);
    let mut inner = "".to_owned();
    let mut i: usize = 0;
    while i < n.elements.len()
        invariant
            i <= n.elements@.len(),
            inner@ == compartments(
                scene_elements(n.elements@),
                raw_stroke@,
                raw_text@,
                i as int,
            ),
        decreases n.elements@.len() - i,
    {
        inner.append(compartment_tags(&n.elements, i, raw_stroke, raw_text).as_str());
        i += 1;
    }
    o.append(inner.as_str());
    o
}

} // verus!
