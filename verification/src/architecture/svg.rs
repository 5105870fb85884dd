//! Architecture diagrams as SVG.

use vstd::prelude::*;

use crate::advance::scene::{show, shown, Point};
use crate::advance::svg::{opening, svg_open, SvgOptions};
use crate::architecture::arrange::GROUP_PAD;
use crate::architecture::place::{SERVICE_H, SERVICE_W};
use crate::architecture::scene::{ArchCluster, ArchLine, ArchNode, ArchScene};
use crate::markup::{escape, escaped};
use crate::style::{EDGE_COLOR, TEXT_COLOR};

verus! {

/// An attribute in single quotes.
pub open spec fn quoted(name: Seq<char>, value: Seq<char>) -> Seq<char> {
    " "@ + name + "='"@ + value + "'"@
}

fn quote(name: &str, value: &str) -> (r: String)
    ensures
        r@ == quoted(name@, value@),
{
    let mut r = " ".to_owned();
    r.append(name);
    r.append("='");
    r.append(value);
    r.append("'");
    r
}

/// An attribute that holds a length of `q` quarter units.
pub open spec fn length(name: Seq<char>, q: int) -> Seq<char> {
    quoted(name, shown(q))
}

fn length_attr(name: &str, q: i128) -> (r: String)
    requires
        crate::advance::scene::in_range(q as int),
    ensures
        r@ == length(name@, q as int),
{
    quote(name, show(q).as_str())
}

/// The arrowheads.
pub open spec fn definitions() -> Seq<char> {
    "<defs><marker id='flowmaid-arch-arrow-end' markerWidth='10' markerHeight='10' refX='9' refY='5' orient='auto' markerUnits='userSpaceOnUse'><path d='M 0,0 L 10,5 L 0,10 L 1,5 z'"@
        + quoted("fill"@, EDGE_COLOR@)
        + "/></marker><marker id='flowmaid-arch-arrow-start' markerWidth='10' markerHeight='10' refX='1' refY='5' orient='auto' markerUnits='userSpaceOnUse'><path d='M 10,0 L 0,5 L 10,10 L 9,5 z'"@
        + quoted("fill"@, EDGE_COLOR@) + "/></marker></defs>\n"@
}

fn write_definitions() -> (r: String)
    ensures
        r@ == definitions(),
{
    let mut s =
        "<defs><marker id='flowmaid-arch-arrow-end' markerWidth='10' markerHeight='10' refX='9' refY='5' orient='auto' markerUnits='userSpaceOnUse'><path d='M 0,0 L 10,5 L 0,10 L 1,5 z'".to_owned();
    s.append(quote("fill", EDGE_COLOR).as_str());
    s.append(
        "/></marker><marker id='flowmaid-arch-arrow-start' markerWidth='10' markerHeight='10' refX='1' refY='5' orient='auto' markerUnits='userSpaceOnUse'><path d='M 10,0 L 0,5 L 10,10 L 9,5 z'",
    );
    s.append(quote("fill", EDGE_COLOR).as_str());
    s.append("/></marker></defs>\n");
    s
}

/// The box and the title of a group.
pub open spec fn cluster_svg(c: ArchCluster) -> Seq<char> {
    "<rect"@ + length("x"@, 4 * c.x) + length("y"@, 4 * c.y) + length("width"@, 4 * c.w) + length(
        "height"@,
        4 * c.h,
    ) + " rx='8' fill='#f7f8fc' stroke='#d5d9ec' stroke-width='2'/>\n<text"@ + length(
        "x"@,
        4 * (c.x + GROUP_PAD),
    ) + length("y"@, 4 * (c.y + GROUP_PAD - 256000))
        + " font-size='13' font-weight='bold'"@ + quoted("fill"@, TEXT_COLOR@) + ">"@ + escaped(
        c.title@,
    ) + "</text>\n"@
}

fn write_cluster(c: &ArchCluster) -> (r: String)
    ensures
        r@ == cluster_svg(*c),
{
    let x: i128 = c.x as i128;
    let y: i128 = c.y as i128;
    let pad: i128 = GROUP_PAD as i128;
    let mut s = "<rect".to_owned();
    s.append(length_attr("x", 4 * x).as_str());
    s.append(length_attr("y", 4 * y).as_str());
    s.append(length_attr("width", 4 * (c.w as i128)).as_str());
    s.append(length_attr("height", 4 * (c.h as i128)).as_str());
    s.append(" rx='8' fill='#f7f8fc' stroke='#d5d9ec' stroke-width='2'/>\n<text");
    s.append(length_attr("x", 4 * (x + pad)).as_str());
    s.append(length_attr("y", 4 * (y + pad - 256000)).as_str());
    s.append(" font-size='13' font-weight='bold'");
    s.append(quote("fill", TEXT_COLOR).as_str());
    s.append(">");
    s.append(escape(c.title.as_str()).as_str());
    s.append("</text>\n");
    s
}

/// The first `k` groups.
pub open spec fn clusters_svg(c: Seq<ArchCluster>, k: int) -> Seq<char>
    decreases k,
{
    if k <= 0 {
        ""@
    } else {
        clusters_svg(c, k - 1) + cluster_svg(c[k - 1])
    }
}

fn write_clusters(c: &Vec<ArchCluster>) -> (r: String)
    ensures
        r@ == clusters_svg(c@, c@.len() as int),
{
    let mut s = "".to_owned();
    let mut i: usize = 0;
    while i < c.len()
        invariant
            i <= c@.len(),
            s@ == clusters_svg(c@, i as int),
        decreases c@.len() - i,
    {
        s.append(write_cluster(&c[i]).as_str());
        i += 1;
    }
    s
}

/// The first `k` points of a way, with spaces between them.
pub open spec fn points_text(p: Seq<Point>, k: int) -> Seq<char>
    decreases k,
{
    if k <= 0 {
        ""@
    } else {
        points_text(p, k - 1) + (if k > 1 {
            " "@
        } else {
            ""@
        }) + shown(4 * p[k - 1].x) + ","@ + shown(4 * p[k - 1].y)
    }
}

fn write_points(p: &Vec<Point>) -> (r: String)
    ensures
        r@ == points_text(p@, p@.len() as int),
{
    let mut s = "".to_owned();
    let mut i: usize = 0;
    while i < p.len()
        invariant
            i <= p@.len(),
            s@ == points_text(p@, i as int),
        decreases p@.len() - i,
    {
        s.append(
            if i > 0 {
                " "
            } else {
                ""
            },
        );
        s.append(show(4 * (p[i].x as i128)).as_str());
        s.append(",");
        s.append(show(4 * (p[i].y as i128)).as_str());
        i += 1;
    }
    s
}

/// A line with its arrowheads.
pub open spec fn line_svg(l: ArchLine) -> Seq<char> {
    "<polyline"@ + quoted("points"@, points_text(l.waypoints@, l.waypoints@.len() as int))
        + " fill='none'"@ + quoted("stroke"@, EDGE_COLOR@) + " stroke-width='2'"@ + (
    if l.arrow_end {
        " marker-end='url(#flowmaid-arch-arrow-end)'"@
    } else {
        ""@
    }) + (if l.arrow_start {
        " marker-start='url(#flowmaid-arch-arrow-start)'"@
    } else {
        ""@
    }) + " />\n"@
}

fn write_line(l: &ArchLine) -> (r: String)
    ensures
        r@ == line_svg(*l),
{
    let mut s = "<polyline".to_owned();
    s.append(quote("points", write_points(&l.waypoints).as_str()).as_str());
    s.append(" fill='none'");
    s.append(quote("stroke", EDGE_COLOR).as_str());
    s.append(" stroke-width='2'");
    s.append(
        if l.arrow_end {
            " marker-end='url(#flowmaid-arch-arrow-end)'"
        } else {
            ""
        },
    );
    s.append(
        if l.arrow_start {
            " marker-start='url(#flowmaid-arch-arrow-start)'"
        } else {
            ""
        },
    );
    s.append(" />\n");
    s
}

/// The first `k` lines.
pub open spec fn lines_svg(l: Seq<ArchLine>, k: int) -> Seq<char>
    decreases k,
{
    if k <= 0 {
        ""@
    } else {
        lines_svg(l, k - 1) + line_svg(l[k - 1])
    }
}

fn write_lines(l: &Vec<ArchLine>) -> (r: String)
    ensures
        r@ == lines_svg(l@, l@.len() as int),
{
    let mut s = "".to_owned();
    let mut i: usize = 0;
    while i < l.len()
        invariant
            i <= l@.len(),
            s@ == lines_svg(l@, i as int),
        decreases l@.len() - i,
    {
        s.append(write_line(&l[i]).as_str());
        i += 1;
    }
    s
}

/// A service: its box, its label, and its icon above the label.
pub open spec fn node_svg(n: ArchNode) -> Seq<char> {
    "<rect"@ + length("x"@, 4 * n.x - 2 * SERVICE_W) + length("y"@, 4 * n.y - 2 * SERVICE_H)
        + length("width"@, 4 * SERVICE_W) + length("height"@, 4 * SERVICE_H)
        + " rx='8' fill='#ffffff'"@ + quoted("stroke"@, escaped(n.stroke@))
        + " stroke-width='2.0'/>\n<text"@ + length("x"@, 4 * n.x) + length(
        "y"@,
        4 * n.y + (if n.icon is Some {
            1024000int
        } else {
            0
        }),
    ) + " dy='0.33em' text-anchor='middle' font-size='13'"@ + quoted("fill"@, TEXT_COLOR@) + ">"@
        + escaped(n.label@) + "\n"@ + (match n.icon {
        Some(i) => "<tspan"@ + length("x"@, 4 * n.x) + " dy='-20' font-size='16'>"@ + i@
            + "</tspan>\n"@,
        None => ""@,
    }) + "</text>\n"@
}

fn write_node(n: &ArchNode) -> (r: String)
    ensures
        r@ == node_svg(*n),
{
    let x: i128 = n.x as i128;
    let y: i128 = n.y as i128;
    let w: i128 = SERVICE_W as i128;
    let h: i128 = SERVICE_H as i128;
    let mut s = "<rect".to_owned();
    s.append(length_attr("x", 4 * x - 2 * w).as_str());
    s.append(length_attr("y", 4 * y - 2 * h).as_str());
    s.append(length_attr("width", 4 * w).as_str());
    s.append(length_attr("height", 4 * h).as_str());
    s.append(" rx='8' fill='#ffffff'");
    s.append(quote("stroke", escape(n.stroke.as_str()).as_str()).as_str());
    s.append(" stroke-width='2.0'/>\n<text");
    s.append(length_attr("x", 4 * x).as_str());
    let down: i128 = if n.icon.is_some() {
        1024000
    } else {
        0
    };
    s.append(length_attr("y", 4 * y + down).as_str());
    s.append(" dy='0.33em' text-anchor='middle' font-size='13'");
    s.append(quote("fill", TEXT_COLOR).as_str());
    s.append(">");
    s.append(escape(n.label.as_str()).as_str());
    s.append("\n");
    let icon = match &n.icon {
        Some(i) => {
            let mut t = "<tspan".to_owned();
            t.append(length_attr("x", 4 * x).as_str());
            t.append(" dy='-20' font-size='16'>");
            t.append(i.as_str());
            t.append("</tspan>\n");
            t
        },
        None => "".to_owned(),
    };
    s.append(icon.as_str());
    s.append("</text>\n");
    s
}

/// The first `k` services.
pub open spec fn nodes_svg(n: Seq<ArchNode>, k: int) -> Seq<char>
    decreases k,
{
    if k <= 0 {
        ""@
    } else {
        nodes_svg(n, k - 1) + node_svg(n[k - 1])
    }
}

fn write_nodes(n: &Vec<ArchNode>) -> (r: String)
    ensures
        r@ == nodes_svg(n@, n@.len() as int),
{
    let mut s = "".to_owned();
    let mut i: usize = 0;
    while i < n.len()
        invariant
            i <= n@.len(),
            s@ == nodes_svg(n@, i as int),
        decreases n@.len() - i,
    {
        s.append(write_node(&n[i]).as_str());
        i += 1;
    }
    s
}

/// The picture of an architecture diagram.
pub open spec fn arch_svg(s: ArchScene) -> Seq<char> {
    opening(s.width, s.height, "Architecture diagram"@, false, None) + definitions()
        + clusters_svg(s.clusters@, s.clusters@.len() as int) + lines_svg(
        s.edges@,
        s.edges@.len() as int,
    ) + nodes_svg(s.nodes@, s.nodes@.len() as int) + "</svg>\n"@
}

/// Render an architecture diagram to an SVG string.
pub fn to_svg(s: &ArchScene) -> (r: String)
    ensures
        r@ == arch_svg(*s),
{
    let opts = SvgOptions::default();
    let mut t = svg_open(s.width, s.height, "Architecture diagram", &opts);
    t.append(write_definitions().as_str());
    t.append(write_clusters(&s.clusters).as_str());
    t.append(write_lines(&s.edges).as_str());
    t.append(write_nodes(&s.nodes).as_str());
    t.append("</svg>\n");
    t
}

} // verus!
