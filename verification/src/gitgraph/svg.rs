//! Git graphs as SVG.

use vstd::prelude::*;

use crate::advance::scene::{show, shown, Point};
use crate::advance::svg::{opening, svg_open, SvgOptions};
use crate::advance::svg_node::{circle, circle_tag, length, length_attr};
use crate::gitgraph::edges::GitEdge;
use crate::gitgraph::scene::{GitLabel, GitNode, GitScene};
use crate::gitgraph::R;
use crate::markup::{attr, attribute, escape, escaped};
use crate::model::opt_text;
use crate::style::EDGE_COLOR;

verus! {

/// The weight of a label's font.
pub open spec fn weight(bold: bool) -> Seq<char> {
    if bold {
        "bold"@
    } else {
        "normal"@
    }
}

/// A label.
pub open spec fn label_svg(l: GitLabel) -> Seq<char> {
    "<text"@ + length("x"@, 4 * l.x) + length("y"@, 4 * l.y) + attribute(
        "text-anchor"@,
        l.anchor@,
    ) + " dominant-baseline=\"middle\" font-size=\"13\""@ + attribute(
        "font-weight"@,
        weight(l.bold),
    ) + attribute("fill"@, escaped(l.color@)) + ">"@ + escaped(l.text@) + "</text>\n"@
}

fn write_label(l: &GitLabel) -> (r: String)
    ensures
        r@ == label_svg(*l),
{
    let mut s = "<text".to_owned();
    s.append(length_attr("x", 4 * (l.x as i128)).as_str());
    s.append(length_attr("y", 4 * (l.y as i128)).as_str());
    s.append(attr("text-anchor", l.anchor).as_str());
    s.append(" dominant-baseline=\"middle\" font-size=\"13\"");
    let w = if l.bold {
        "bold"
    } else {
        "normal"
    };
    s.append(attr("font-weight", w).as_str());
    s.append(attr("fill", escape(l.color.as_str()).as_str()).as_str());
    s.append(">");
    s.append(escape(l.text.as_str()).as_str());
    s.append("</text>\n");
    s
}

/// The first `k` labels.
pub open spec fn labels_svg(l: Seq<GitLabel>, k: int) -> Seq<char>
    decreases k,
{
    if k <= 0 {
        ""@
    } else {
        labels_svg(l, k - 1) + label_svg(l[k - 1])
    }
}

fn write_labels(l: &Vec<GitLabel>) -> (r: String)
    ensures
        r@ == labels_svg(l@, l@.len() as int),
{
    let mut s = "".to_owned();
    let mut i: usize = 0;
    while i < l.len()
        invariant
            i <= l@.len(),
            s@ == labels_svg(l@, i as int),
        decreases l@.len() - i,
    {
        s.append(write_label(&l[i]).as_str());
        i += 1;
    }
    s
}

/// A point of a path.
pub open spec fn at(p: Point) -> Seq<char> {
    shown(4 * p.x) + " "@ + shown(4 * p.y)
}

fn point_text(p: Point) -> (r: String)
    ensures
        r@ == at(p),
{
    let mut s = show(4 * (p.x as i128));
    s.append(" ");
    s.append(show(4 * (p.y as i128)).as_str());
    s
}

/// The curve of an edge.
pub open spec fn edge_svg(e: GitEdge) -> Seq<char> {
    "<path d=\"M "@ + at(e.start) + " C "@ + at(e.bend_from) + " "@ + at(e.bend_to) + " "@ + at(
        e.end,
    ) + "\" fill=\"none\""@ + attribute("stroke"@, EDGE_COLOR@) + " stroke-width=\"2\"/>\n"@
}

fn write_edge(e: &GitEdge) -> (r: String)
    ensures
        r@ == edge_svg(*e),
{
    let mut s = "<path d=\"M ".to_owned();
    s.append(point_text(e.start).as_str());
    s.append(" C ");
    s.append(point_text(e.bend_from).as_str());
    s.append(" ");
    s.append(point_text(e.bend_to).as_str());
    s.append(" ");
    s.append(point_text(e.end).as_str());
    s.append("\" fill=\"none\"");
    s.append(attr("stroke", EDGE_COLOR).as_str());
    s.append(" stroke-width=\"2\"/>\n");
    s
}

/// The curves of the first `k` edges.
pub open spec fn edges_svg(e: Seq<GitEdge>, k: int) -> Seq<char>
    decreases k,
{
    if k <= 0 {
        ""@
    } else {
        edges_svg(e, k - 1) + edge_svg(e[k - 1])
    }
}

fn write_edges(e: &Vec<GitEdge>) -> (r: String)
    ensures
        r@ == edges_svg(e@, e@.len() as int),
{
    let mut s = "".to_owned();
    let mut i: usize = 0;
    while i < e.len()
        invariant
            i <= e@.len(),
            s@ == edges_svg(e@, i as int),
        decreases e@.len() - i,
    {
        s.append(write_edge(&e[i]).as_str());
        i += 1;
    }
    s
}

/// The circle of a commit.
pub open spec fn node_svg(n: GitNode) -> Seq<char> {
    circle(
        4 * n.x,
        4 * n.y,
        4 * R,
        attribute("fill"@, escaped(n.fill@)) + attribute("stroke"@, escaped(n.stroke@))
            + " stroke-width=\"2.0\""@,
    )
}

fn write_node(n: &GitNode) -> (r: String)
    ensures
        r@ == node_svg(*n),
{
    let mut more = attr("fill", escape(n.fill.as_str()).as_str());
    more.append(attr("stroke", escape(n.stroke.as_str()).as_str()).as_str());
    more.append(" stroke-width=\"2.0\"");
    circle_tag(4 * (n.x as i128), 4 * (n.y as i128), 4 * (R as i128), more.as_str())
}

/// The circles of the first `k` commits.
pub open spec fn nodes_svg(n: Seq<GitNode>, k: int) -> Seq<char>
    decreases k,
{
    if k <= 0 {
        ""@
    } else {
        nodes_svg(n, k - 1) + node_svg(n[k - 1])
    }
}

fn write_nodes(n: &Vec<GitNode>) -> (r: String)
    ensures
        r@ == nodes_svg(n@, n@.len() as int),
{
    let mut s = "".to_owned();
    let mut i: usize = 0;
    while i < n.len()
        invariant
            i <= n@.len(),
            s@ == nodes_svg(n@, i as int),
        decreases n@.len() - i,
    {
        s.append(write_node(&n[i]).as_str());
        i += 1;
    }
    s
}

/// The picture of a git graph.
pub open spec fn git_svg(g: GitScene, responsive: bool, ratio: Option<Seq<char>>) -> Seq<char> {
    opening(g.width, g.height, "Git graph diagram"@, responsive, ratio) + labels_svg(
        g.branch_labels@,
        g.branch_labels@.len() as int,
    ) + edges_svg(g.edges@, g.edges@.len() as int) + nodes_svg(g.nodes@, g.nodes@.len() as int)
        + labels_svg(g.commit_ids@, g.commit_ids@.len() as int) + labels_svg(
        g.tags@,
        g.tags@.len() as int,
    ) + "</svg>\n"@
}

/// Render with explicit viewport options.
pub fn to_svg_with(g: &GitScene, opts: &SvgOptions) -> (r: String)
    ensures
        r@ == git_svg(*g, opts.responsive, opt_text(opts.preserve_aspect_ratio)),
{
    let mut s = svg_open(g.width, g.height, "Git graph diagram", opts);
    s.append(write_labels(&g.branch_labels).as_str());
    s.append(write_edges(&g.edges).as_str());
    s.append(write_nodes(&g.nodes).as_str());
    s.append(write_labels(&g.commit_ids).as_str());
    s.append(write_labels(&g.tags).as_str());
    s.append("</svg>\n");
    s
}

/// Render a git graph to an SVG string.
pub fn to_svg(g: &GitScene) -> (r: String)
    ensures
        r@ == git_svg(*g, false, None),
{
    let opts = SvgOptions::default();
    to_svg_with(g, &opts)
}

} // verus!
