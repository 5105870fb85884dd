//! What a drawn mindmap shows.

use vstd::prelude::*;

use crate::advance::place::lengths::{plus, times};
use crate::advance::place::measure::text_px;
use crate::advance::route::geometry::FAR;
use crate::advance::scene::Px;
use crate::layout::labels::count_char;
use crate::mindmap::scene::{
    branch_number, is_box, is_link, is_routed, joints, link_width, middle_of, thirds, MindScene,
    LINE_H, PAD_X, PAD_Y,
};
use crate::mindmap::{grown, node_fits};
use crate::model::{MindNode, Mindmap};

verus! {

/// Whether a box lies inside the range of lengths, away from its ends.
pub open spec fn in_middle(x: int, w: int) -> bool {
    -FAR / 4 <= x <= FAR / 4 && 0 <= w <= FAR / 4
}

/// Every node is drawn around the centre that it was given, with its text
/// and in its shape, as long as it stays in range.
pub proof fn law_nodes_stand_around_their_centres(
    d: Mindmap,
    accents: Seq<String>,
    pos: Seq<(Px, Px)>,
    r: MindScene,
    i: int,
)
    requires
        is_routed(d, accents, pos, r),
        pos.len() == d.nodes@.len(),
        0 <= i < d.nodes@.len(),
        in_middle(pos[i].0 as int, r.nodes@[i].w as int),
        in_middle(pos[i].1 as int, r.nodes@[i].h as int),
    ensures
        r.nodes@[i].x + r.nodes@[i].w as int / 2 == pos[i].0,
        r.nodes@[i].y + r.nodes@[i].h as int / 2 == pos[i].1,
        middle_of(r.nodes@[i]) == (pos[i].0 as int, pos[i].1 as int),
        r.nodes@[i].text@ == d.nodes@[i].text@,
        r.nodes@[i].shape == d.nodes@[i].shape,
{
    assert(is_box(d, accents, pos, r.nodes@[i], i));
}

proof fn lemma_joints(nodes: Seq<MindNode>, k: int, i: int)
    requires
        0 <= i < k <= nodes.len(),
        nodes[i].parent is Some,
    ensures
        joints(nodes, k).contains((nodes[i].parent->0 as int, i)),
    decreases k,
{
    let x = (nodes[i].parent->0 as int, i);
    if i < k - 1 {
        lemma_joints(nodes, k - 1, i);
        let before = joints(nodes, k - 1);
        let j = choose|j: int| 0 <= j < before.len() && before[j] == x;
        assert(joints(nodes, k)[j] == x);
    } else {
        assert(joints(nodes, k)[joints(nodes, k).len() - 1] == x);
    }
}

/// Whether `v` lies between two numbers.
pub open spec fn between(a: int, v: int, b: int) -> bool {
    a <= v <= b || b <= v <= a
}

proof fn lemma_thirds(a: int, b: int)
    requires
        -FAR / 2 <= a <= FAR / 2,
        -FAR / 2 <= b <= FAR / 2,
    ensures
        between(a, thirds(a, b, 1), thirds(a, b, 2)),
        between(thirds(a, b, 1), thirds(a, b, 2), b),
{
}

/// A line leads to every node from its parent, in the colour of the node:
/// it starts in the middle of the parent and ends in the middle of the
/// node, and bends in between.
pub proof fn law_links_join_parents_to_children(
    d: Mindmap,
    accents: Seq<String>,
    pos: Seq<(Px, Px)>,
    r: MindScene,
    i: int,
)
    requires
        is_routed(d, accents, pos, r),
        pos.len() == d.nodes@.len(),
        0 <= i < d.nodes@.len(),
        d.nodes@[i].parent is Some,
        (d.nodes@[i].parent->0 as int) < d.nodes@.len(),
    ensures
        ({
            let a = middle_of(r.nodes@[d.nodes@[i].parent->0 as int]);
            let b = middle_of(r.nodes@[i]);
            exists|e: int|
                {
                    let l = r.edges@[e];
                    &&& 0 <= e < r.edges@.len()
                    &&& (l.bezier.0.0 as int, l.bezier.0.1 as int) == a
                    &&& (l.bezier.3.0 as int, l.bezier.3.1 as int) == b
                    &&& #[trigger] r.edges@[e].color@ == r.nodes@[i].fill@
                    &&& -FAR / 2 <= a.0 <= FAR / 2 && -FAR / 2 <= b.0 <= FAR / 2 ==> between(
                        a.0,
                        l.bezier.1.0 as int,
                        l.bezier.2.0 as int,
                    ) && between(l.bezier.1.0 as int, l.bezier.2.0 as int, b.0)
                    &&& -FAR / 2 <= a.1 <= FAR / 2 && -FAR / 2 <= b.1 <= FAR / 2 ==> between(
                        a.1,
                        l.bezier.1.1 as int,
                        l.bezier.2.1 as int,
                    ) && between(l.bezier.1.1 as int, l.bezier.2.1 as int, b.1)
                }
        }),
{
    let n = d.nodes@.len() as int;
    let p = d.nodes@[i].parent->0 as int;
    lemma_joints(d.nodes@, n, i);
    let js = joints(d.nodes@, n);
    let e = choose|e: int| 0 <= e < js.len() && js[e] == (p, i);
    assert(is_link(r.nodes@, r.edges@[e], js[e].0, js[e].1));
    let a = middle_of(r.nodes@[p]);
    let b = middle_of(r.nodes@[i]);
    if -FAR / 2 <= a.0 <= FAR / 2 && -FAR / 2 <= b.0 <= FAR / 2 {
        lemma_thirds(a.0, b.0);
    }
    if -FAR / 2 <= a.1 <= FAR / 2 && -FAR / 2 <= b.1 <= FAR / 2 {
        lemma_thirds(a.1, b.1);
    }
    assert(r.edges@[e].color@ == r.nodes@[i].fill@);
}

/// Lines to deeper nodes are no wider, and every line can be seen.
pub proof fn law_links_narrow_with_depth(a: int, b: int)
    requires
        0 <= a <= b,
    ensures
        link_width(b) <= link_width(a),
        0 < link_width(b),
        link_width(1) < link_width(0),
{
    assert(a * 64000 <= b * 64000);
}

proof fn lemma_branch(kids: Seq<usize>, k: int, j: int)
    requires
        0 <= j < k <= kids.len(),
        forall|a: int, b: int| 0 <= a < b < kids.len() ==> #[trigger] kids[a] < #[trigger] kids[b],
    ensures
        branch_number(kids, kids[j], k) == j,
    decreases k,
{
    if j < k - 1 {
        assert(kids[j] < kids[k - 1]);
        lemma_branch(kids, k - 1, j);
    }
}

/// A node of the `j`-th branch has the `j`-th colour, from the start again
/// where there are more branches than colours.
pub proof fn law_branches_have_their_colours(
    d: Mindmap,
    accents: Seq<String>,
    pos: Seq<(Px, Px)>,
    r: MindScene,
    i: int,
    j: int,
)
    requires
        is_routed(d, accents, pos, r),
        grown(d),
        pos.len() == d.nodes@.len(),
        0 <= i < d.nodes@.len(),
        0 <= j < d.nodes@[0].children@.len(),
        d.nodes@[i].depth > 0,
        d.nodes@[i].branch == Some(d.nodes@[0].children@[j]),
        accents.len() > 0,
    ensures
        j < accents.len() ==> r.nodes@[i].fill@ == accents[j]@,
        r.nodes@[i].fill@ == accents[j % accents.len() as int]@,
{
    assert(is_box(d, accents, pos, r.nodes@[i], i));
    assert(node_fits(d.nodes@, 0));
    let kids = d.nodes@[0].children@;
    lemma_branch(kids, kids.len() as int, j);
    if j < accents.len() {
        vstd::arithmetic::div_mod::lemma_small_mod(j as nat, accents.len());
    }
}

/// Every node is wide enough for its text, as long as it stays in range.
pub proof fn law_nodes_have_room_for_their_texts(
    d: Mindmap,
    accents: Seq<String>,
    pos: Seq<(Px, Px)>,
    r: MindScene,
    i: int,
)
    requires
        is_routed(d, accents, pos, r),
        pos.len() == d.nodes@.len(),
        0 <= i < d.nodes@.len(),
        0 <= text_px(d.nodes@[i].text@) <= FAR / 4,
    ensures
        text_px(d.nodes@[i].text@) + 2 * PAD_X <= r.nodes@[i].w,
{
    let t = d.nodes@[i].text@;
    assert(is_box(d, accents, pos, r.nodes@[i], i));
    let n = count_char(t, '\n') as int;
    let l = LINE_H as int;
    let h = plus(plus(times(n, l), l), 2 * PAD_Y);
    assert(0 <= n * l) by (nonlinear_arith)
        requires
            0 <= n,
            0 <= l,
    ;
    assert(0 <= h);
}

} // verus!
