//! The sizes of flowchart nodes.

use vstd::prelude::*;

use crate::advance::place::lengths::{bound, bounded, cut, plus, sum};
use crate::advance::place::measure::{text_px, width_px};
use crate::advance::place::sizes::{band, band_height, shape_size, size_of_shape};
use crate::advance::route::geometry::{greater, most};
use crate::advance::scene::Px;
use crate::layout::cycles::in_graph;
use crate::layout::engine::{edge_ends, is_layered, layout_sized, LayoutResult};
use crate::model::{Graph, Node, Shape};

verus! {

/// The size of a node of the given shape whose widest line is `tw` wide and
/// whose text needs the height `h`. The start and end of a state diagram and
/// a fork bar have no text: their sizes are fixed.
pub open spec fn flow_size(shape: Shape, tw: int, h: int) -> (int, int) {
    match shape {
        Shape::StateStart => (896000, 896000),
        Shape::StateEnd => (1152000, 1152000),
        Shape::ForkBar => (3840000, 512000),
        Shape::DoubleCircle => {
            let d = most(most(plus(tw, 2048000), 3840000), h);
            (d, d)
        },
        _ => shape_size(shape, tw, h),
    }
}

fn flow_size_of(shape: Shape, tw: Px, h: Px) -> (r: (Px, Px))
    requires
        bounded(tw as int),
        bounded(h as int),
    ensures
        (r.0 as int, r.1 as int) == flow_size(shape, tw as int, h as int),
{
    match shape {
        Shape::StateStart => (896000, 896000),
        Shape::StateEnd => (1152000, 1152000),
        Shape::ForkBar => (3840000, 512000),
        Shape::DoubleCircle => {
            let d: Px = greater(greater(sum(tw, 2048000), 3840000), h);
            (d, d)
        },
        _ => size_of_shape(shape, tw, h),
    }
}

/// The greatest of the first `k` widths.
pub open spec fn widest(w: Seq<Px>, k: int) -> int
    decreases k,
{
    if k <= 0 {
        0
    } else {
        most(widest(w, k - 1), bound(w[k - 1] as int))
    }
}

/// The size of a node whose label lines have the given widths.
pub fn intrinsic_size_with(node: &Node, widths: &Vec<Px>) -> (r: (Px, Px))
    ensures
        (r.0 as int, r.1 as int) == flow_size(
            node.shape,
            widest(widths@, widths@.len() as int),
            band(node.label@),
        ),
{
    let mut tw: Px = 0;
    let mut k: usize = 0;
    while k < widths.len()
        invariant
            k <= widths@.len(),
            tw == widest(widths@, k as int),
            bounded(tw as int),
        decreases widths@.len() - k,
    {
        tw = greater(tw, cut(widths[k]));
        k += 1;
    }
    flow_size_of(node.shape, tw, band_height(node.label.as_str()))
}

/// The size of a node by the built-in text widths.
pub open spec fn natural_flow_size(n: Node) -> (int, int) {
    flow_size(n.shape, text_px(n.label@), band(n.label@))
}

/// The size of a node by the built-in text widths.
pub fn intrinsic_size(node: &Node) -> (r: (Px, Px))
    ensures
        (r.0 as int, r.1 as int) == natural_flow_size(*node),
{
    flow_size_of(node.shape, width_px(node.label.as_str()), band_height(node.label.as_str()))
}

/// The sizes of all nodes by the built-in text widths.
pub open spec fn flow_sizes(nodes: Seq<Node>) -> Seq<(Px, Px)> {
    nodes.map_values(|n: Node| (natural_flow_size(n).0 as Px, natural_flow_size(n).1 as Px))
}

/// Lay a graph out whose nodes have their own sizes.
pub fn layout(g: &Graph) -> (r: LayoutResult)
    requires
        in_graph(edge_ends(g.edges@), g.nodes@.len() as int),
        g.nodes@.len() < usize::MAX,
    ensures
        is_layered(*g, flow_sizes(g.nodes@), None, r),
{
    let mut sizes: Vec<(Px, Px)> = Vec::new();
    let mut i: usize = 0;
    while i < g.nodes.len()
        invariant
            i <= g.nodes@.len(),
            sizes@.len() == i,
            forall|k: int| 0 <= k < i ==> #[trigger] sizes@[k] == flow_sizes(g.nodes@)[k],
        decreases g.nodes@.len() - i,
    {
        sizes.push(intrinsic_size(&g.nodes[i]));
        i += 1;
    }
    assert(sizes@ =~= flow_sizes(g.nodes@));
    layout_sized(g, &sizes)
}

} // verus!
