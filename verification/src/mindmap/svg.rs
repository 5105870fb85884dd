//! Mindmaps as SVG.

use vstd::prelude::*;

use crate::advance::place::lengths::{bound, cut, multiple, times};
use crate::advance::route::geometry::{half, least, lesser};
use crate::advance::scene::{in_range, show, shown, Px};
use crate::advance::svg::{opening, svg_open, SvgOptions};
use crate::advance::svg_node::{length, length_attr, rect, rect_tag};
use crate::markup::{attr, attribute, escape, escaped};
use crate::mindmap::scene::{
    corners, hexagon, hexagon_pts, middle_of, MindLink, MindNodeBox, MindScene,
};
use crate::model::MindShape;
use crate::text::{chars_of, split_char, split_seq, string_of, texts};

verus! {

/// Two numbers of a point.
pub open spec fn spot(p: (Px, Px), gap: Seq<char>) -> Seq<char> {
    shown(4 * p.0) + gap + shown(4 * p.1)
}

pub fn write_spot(p: (Px, Px), gap: &str) -> (r: String)
    ensures
        r@ == spot(p, gap@),
{
    let mut s = show(4 * (p.0 as i128));
    s.append(gap);
    s.append(show(4 * (p.1 as i128)).as_str());
    s
}

/// The line from a parent to a child.
pub open spec fn link_svg(l: MindLink) -> Seq<char> {
    "<path d=\"M "@ + spot(l.bezier.0, " "@) + " C "@ + spot(l.bezier.1, " "@) + " "@ + spot(
        l.bezier.2,
        " "@,
    ) + " "@ + spot(l.bezier.3, " "@) + "\" fill=\"none\""@ + attribute(
        "stroke"@,
        escaped(l.color@),
    ) + length("stroke-width"@, 4 * l.width) + " stroke-linecap=\"round\"/>\n"@
}

fn write_link(l: &MindLink) -> (r: String)
    ensures
        r@ == link_svg(*l),
{
    let mut s = "<path d=\"M ".to_owned();
    s.append(write_spot(l.bezier.0, " ").as_str());
    s.append(" C ");
    s.append(write_spot(l.bezier.1, " ").as_str());
    s.append(" ");
    s.append(write_spot(l.bezier.2, " ").as_str());
    s.append(" ");
    s.append(write_spot(l.bezier.3, " ").as_str());
    s.append("\" fill=\"none\"");
    s.append(attr("stroke", escape(l.color.as_str()).as_str()).as_str());
    s.append(length_attr("stroke-width", 4 * (l.width as i128)).as_str());
    s.append(" stroke-linecap=\"round\"/>\n");
    s
}

/// The first `k` lines.
pub open spec fn links_svg(l: Seq<MindLink>, k: int) -> Seq<char>
    decreases k,
{
    if k <= 0 {
        ""@
    } else {
        links_svg(l, k - 1) + link_svg(l[k - 1])
    }
}

fn write_links(l: &Vec<MindLink>) -> (r: String)
    ensures
        r@ == links_svg(l@, l@.len() as int),
{
    let mut s = "".to_owned();
    let mut i: usize = 0;
    while i < l.len()
        invariant
            i <= l@.len(),
            s@ == links_svg(l@, i as int),
        decreases l@.len() - i,
    {
        s.append(write_link(&l[i]).as_str());
        i += 1;
    }
    s
}

/// The corners of a node that is drawn as a polygon. Those of a spiky and
/// of a scalloped one are given.
pub open spec fn outline(n: MindNodeBox, given: Seq<(Px, Px)>) -> Option<Seq<(int, int)>> {
    match n.shape {
        MindShape::Hexagon => Some(
            hexagon(
                bound(n.x as int),
                bound(n.y as int),
                bound(n.w as int),
                bound(n.h as int),
            ),
        ),
        MindShape::Bang | MindShape::Cloud => Some(corners(given)),
        _ => None,
    }
}

/// The corners of a node that is drawn as a polygon.
pub fn perimeter(n: &MindNodeBox, given: &Vec<(Px, Px)>) -> (r: Option<Vec<(Px, Px)>>)
    ensures
        match outline(*n, given@) {
            Some(p) => r matches Some(v) && corners(v@) == p,
            None => r is None,
        },
{
    match n.shape {
        MindShape::Hexagon => Some(hexagon_pts(n)),
        MindShape::Bang | MindShape::Cloud => {
            let mut v: Vec<(Px, Px)> = Vec::new();
            let mut i: usize = 0;
            while i < given.len()
                invariant
                    i <= given@.len(),
                    v@ == given@.take(i as int),
                decreases given@.len() - i,
            {
                v.push(given[i]);
                i += 1;
                assert(v@ =~= given@.take(i as int));
            }
            assert(v@ =~= given@);
            Some(v)
        },
        _ => None,
    }
}

/// The first `k` corners.
pub open spec fn points_text(p: Seq<(int, int)>, k: int) -> Seq<char>
    decreases k,
{
    if k <= 0 {
        ""@
    } else {
        points_text(p, k - 1) + (if k > 1 {
            " "@
        } else {
            ""@
        }) + shown(4 * p[k - 1].0) + ","@ + shown(4 * p[k - 1].1)
    }
}

pub fn write_points(p: &Vec<(Px, Px)>) -> (r: String)
    ensures
        r@ == points_text(corners(p@), p@.len() as int),
{
    let ghost c = corners(p@);
    let mut s = "".to_owned();
    let mut i: usize = 0;
    while i < p.len()
        invariant
            i <= p@.len(),
            c == corners(p@),
            s@ == points_text(c, i as int),
        decreases p@.len() - i,
    {
        s.append(
            if i > 0 {
                " "
            } else {
                ""
            },
        );
        s.append(show(4 * (p[i].0 as i128)).as_str());
        s.append(",");
        s.append(show(4 * (p[i].1 as i128)).as_str());
        i += 1;
    }
    s
}

/// How round the corners of a node are.
pub open spec fn roundness(n: MindNodeBox) -> int {
    if n.shape == MindShape::Square {
        192000
    } else {
        least(bound(n.h as int) / 2, 896000)
    }
}

/// The filled outline of a node.
pub open spec fn shape_markup(n: MindNodeBox, given: Seq<(Px, Px)>) -> Seq<char> {
    let fill = attribute("fill"@, escaped(n.fill@));
    match outline(n, given) {
        Some(p) => "<polygon"@ + attribute("points"@, points_text(p, p.len() as int)) + fill
            + "/>\n"@,
        None => if n.shape == MindShape::Circle {
            "<ellipse"@ + length("cx"@, 4 * middle_of(n).0) + length("cy"@, 4 * middle_of(n).1)
                + length("rx"@, 2 * n.w) + length("ry"@, 2 * n.h) + fill + "/>\n"@
        } else {
            rect(
                4 * n.x,
                4 * n.y,
                4 * n.w,
                4 * n.h,
                length("rx"@, 4 * roundness(n)) + fill,
            )
        },
    }
}

fn shape_svg(n: &MindNodeBox, given: &Vec<(Px, Px)>) -> (r: String)
    ensures
        r@ == shape_markup(*n, given@),
{
    let fill = attr("fill", escape(n.fill.as_str()).as_str());
    match perimeter(n, given) {
        Some(p) => {
            let mut s = "<polygon".to_owned();
            s.append(attr("points", write_points(&p).as_str()).as_str());
            s.append(fill.as_str());
            s.append("/>\n");
            s
        },
        None => {
            if n.shape == MindShape::Circle {
                let mut s = "<ellipse".to_owned();
                s.append(length_attr("cx", 4 * (n.cx() as i128)).as_str());
                s.append(length_attr("cy", 4 * (n.cy() as i128)).as_str());
                s.append(length_attr("rx", 2 * (n.w as i128)).as_str());
                s.append(length_attr("ry", 2 * (n.h as i128)).as_str());
                s.append(fill.as_str());
                s.append("/>\n");
                s
            } else {
                let rx: Px = if n.shape == MindShape::Square {
                    192000
                } else {
                    lesser(half(cut(n.h)), 896000)
                };
                let mut more = length_attr("rx", 4 * (rx as i128));
                more.append(fill.as_str());
                rect_tag(
                    4 * (n.x as i128),
                    4 * (n.y as i128),
                    4 * (n.w as i128),
                    4 * (n.h as i128),
                    more.as_str(),
                )
            }
        },
    }
}

/// How far line `i` of `count` is below the one before it, in quarter
/// units; the first one is that far below the centre.
pub open spec fn line_drop(i: int, count: int) -> int {
    if i == 0 {
        1146880 - 4 * times(count - 1, 576000)
    } else {
        4608000
    }
}

/// The first `k` lines of a label.
pub open spec fn lines_svg(cx: int, lines: Seq<Seq<char>>, k: int) -> Seq<char>
    decreases k,
{
    if k <= 0 {
        ""@
    } else {
        lines_svg(cx, lines, k - 1) + "<tspan"@ + length("x"@, 4 * cx) + length(
            "dy"@,
            line_drop(k - 1, lines.len() as int),
        ) + ">"@ + escaped(lines[k - 1]) + "</tspan>"@
    }
}

/// The label of a node, centred.
pub open spec fn label_markup(n: MindNodeBox) -> Seq<char> {
    let lines = split_seq(n.text@, '\n');
    "<text"@ + length("x"@, 4 * middle_of(n).0) + length("y"@, 4 * middle_of(n).1)
        + " text-anchor=\"middle\""@ + attribute("fill"@, escaped(n.text_color@)) + (if n.depth
        == 0 {
        " font-weight=\"bold\""@
    } else {
        ""@
    }) + ">"@ + lines_svg(middle_of(n).0, lines, lines.len() as int) + "</text>\n"@
}

fn write_lines(cx: Px, text: &str) -> (r: String)
    ensures
        r@ == lines_svg(
            cx as int,
            split_seq(text@, '\n'),
            split_seq(text@, '\n').len() as int,
        ),
{
    let chars = chars_of(text);
    let lines = split_char(chars.as_slice(), '\n');
    let ghost all = texts(lines@);
    assert(all == split_seq(text@, '\n'));
    let n: usize = lines.len();
    let first: i128 = 1146880 - 4 * (multiple(n - 1, 576000) as i128);
    let mut s = "".to_owned();
    let mut i: usize = 0;
    while i < n
        invariant
            i <= n,
            n == lines@.len(),
            all == texts(lines@),
            in_range(first as int),
            first == line_drop(0, n as int),
            s@ == lines_svg(cx as int, all, i as int),
        decreases n - i,
    {
        assert(all[i as int] == lines@[i as int]@);
        let dy: i128 = if i == 0 {
            first
        } else {
            4608000
        };
        s.append("<tspan");
        s.append(length_attr("x", 4 * (cx as i128)).as_str());
        s.append(length_attr("dy", dy).as_str());
        s.append(">");
        s.append(escape(string_of(lines[i]).as_str()).as_str());
        s.append("</tspan>");
        i += 1;
    }
    s
}

fn label_svg(n: &MindNodeBox) -> (r: String)
    ensures
        r@ == label_markup(*n),
{
    let cx: Px = n.cx();
    let mut s = "<text".to_owned();
    s.append(length_attr("x", 4 * (cx as i128)).as_str());
    s.append(length_attr("y", 4 * (n.cy() as i128)).as_str());
    s.append(" text-anchor=\"middle\"");
    s.append(attr("fill", escape(n.text_color.as_str()).as_str()).as_str());
    s.append(
        if n.depth == 0 {
            " font-weight=\"bold\""
        } else {
            ""
        },
    );
    s.append(">");
    s.append(write_lines(cx, n.text.as_str()).as_str());
    s.append("</text>\n");
    s
}

/// The first `k` nodes.
pub open spec fn nodes_svg(n: Seq<MindNodeBox>, given: Seq<Vec<(Px, Px)>>, k: int) -> Seq<char>
    decreases k,
{
    if k <= 0 {
        ""@
    } else {
        nodes_svg(n, given, k - 1) + shape_markup(n[k - 1], given[k - 1]@) + label_markup(n[k - 1])
    }
}

fn write_nodes(n: &Vec<MindNodeBox>, given: &Vec<Vec<(Px, Px)>>) -> (r: String)
    requires
        given@.len() == n@.len(),
    ensures
        r@ == nodes_svg(n@, given@, n@.len() as int),
{
    let mut s = "".to_owned();
    let mut i: usize = 0;
    while i < n.len()
        invariant
            i <= n@.len(),
            given@.len() == n@.len(),
            s@ == nodes_svg(n@, given@, i as int),
        decreases n@.len() - i,
    {
        s.append(shape_svg(&n[i], &given[i]).as_str());
        s.append(label_svg(&n[i]).as_str());
        i += 1;
    }
    s
}

/// A mindmap as SVG.
pub open spec fn mindmap_svg(m: MindScene, given: Seq<Vec<(Px, Px)>>) -> Seq<char> {
    opening(m.width, m.height, "Mind map"@, false, None) + links_svg(
        m.edges@,
        m.edges@.len() as int,
    ) + nodes_svg(m.nodes@, given, m.nodes@.len() as int) + "</svg>\n"@
}

/// Render a mindmap to an SVG string. `given` holds the corners of every
/// spiky and every scalloped node.
pub fn to_svg(m: &MindScene, given: &Vec<Vec<(Px, Px)>>) -> (r: String)
    requires
        given@.len() == m.nodes@.len(),
    ensures
        r@ == mindmap_svg(*m, given@),
{
    let opts = SvgOptions::default();
    let mut s = svg_open(m.width, m.height, "Mind map", &opts);
    s.append(write_links(&m.edges).as_str());
    s.append(write_nodes(&m.nodes, given).as_str());
    s.append("</svg>\n");
    s
}

} // verus!
