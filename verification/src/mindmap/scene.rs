//! The geometry of a mindmap.

use vstd::prelude::*;

use crate::advance::place::lengths::{
    bound, bounded, cut, diff, minus, multiple, plus, scale, scaled, sum, times,
};
use crate::advance::place::measure::{text_px, width_px};
use crate::advance::route::geometry::{greater, half, least, lesser, most, FAR};
use crate::advance::scene::Px;
use crate::layout::labels::{break_count, count_char};
use crate::mindmap::rooted;
use crate::model::{MindNode, MindShape, Mindmap};
use crate::style::{accent, accent_of, TEXT_COLOR};

verus! {

/// Padding beside the text of a node.
pub const PAD_X: Px = 768000;

/// Padding above and below the text of a node.
pub const PAD_Y: Px = 448000;

/// Height of one label line.
pub const LINE_H: Px = 1152000;

/// Radius added per level.
pub const RING: Px = 11008000;

/// Canvas margin.
pub const MARGIN: Px = 1792000;

pub const ROOT_FILL: &'static str = "#c9cfe0";

/// Text on branches.
pub const BRANCH_TEXT: &'static str = "#ffffff";

/// A node as it is drawn; `x` and `y` are its upper left corner.
#[derive(Debug)]
pub struct MindNodeBox {
    pub x: Px,
    pub y: Px,
    pub w: Px,
    pub h: Px,
    pub text: String,
    pub shape: MindShape,
    pub depth: usize,
    pub fill: String,
    pub text_color: String,
}

/// The line from a parent to a child: start, two control points, end.
#[derive(Debug)]
pub struct MindLink {
    pub bezier: ((Px, Px), (Px, Px), (Px, Px), (Px, Px)),
    pub color: String,
    pub width: Px,
}

/// A mindmap as it is drawn.
#[derive(Debug)]
pub struct MindScene {
    pub width: Px,
    pub height: Px,
    pub nodes: Vec<MindNodeBox>,
    pub edges: Vec<MindLink>,
}

/// The middle of a stretch.
pub open spec fn centre(x: int, w: int) -> int {
    plus(x, bound(w) / 2)
}

impl MindNodeBox {
    pub fn cx(&self) -> (r: Px)
        ensures
            r == centre(bound(self.x as int), self.w as int),
            bounded(r as int),
    {
        sum(cut(self.x), half(cut(self.w)))
    }

    pub fn cy(&self) -> (r: Px)
        ensures
            r == centre(bound(self.y as int), self.h as int),
            bounded(r as int),
    {
        sum(cut(self.y), half(cut(self.h)))
    }
}

/// The size of a node by its text and shape.
pub open spec fn box_size(t: Seq<char>, shape: MindShape) -> (int, int) {
    let w = plus(text_px(t), 2 * PAD_X);
    let h = plus(
        plus(times(count_char(t, '\n') as int, LINE_H as int), LINE_H as int),
        2 * PAD_Y,
    );
    match shape {
        MindShape::Circle => {
            let d = most(w, scaled(h, 8, 5));
            (d, most(h, scaled(d, 31, 50)))
        },
        MindShape::Cloud => (plus(scaled(w, 7, 5), 512000), plus(scaled(h, 27, 20), 384000)),
        MindShape::Bang => (plus(scaled(w, 5, 4), 384000), plus(scaled(h, 13, 10), 384000)),
        MindShape::Hexagon => (plus(w, scaled(h, 7, 10)), h),
        MindShape::Rounded | MindShape::Square => (w, h),
    }
}

/// The size of a node by its text and shape.
pub fn node_size(text: &str, shape: MindShape) -> (r: (Px, Px))
    ensures
        (r.0 as int, r.1 as int) == box_size(text@, shape),
        bounded(r.0 as int),
        bounded(r.1 as int),
{
    let w: Px = sum(width_px(text), 2 * PAD_X);
    let h: Px = sum(sum(multiple(break_count(text), LINE_H), LINE_H), 2 * PAD_Y);
    match shape {
        MindShape::Circle => {
            let d: Px = greater(w, scale(h, 8, 5));
            (d, greater(h, scale(d, 31, 50)))
        },
        MindShape::Cloud => (sum(scale(w, 7, 5), 512000), sum(scale(h, 27, 20), 384000)),
        MindShape::Bang => (sum(scale(w, 5, 4), 384000), sum(scale(h, 13, 10), 384000)),
        MindShape::Hexagon => (sum(w, scale(h, 7, 10)), h),
        MindShape::Rounded | MindShape::Square => (w, h),
    }
}

/// The number of branch `b` among the first `k` children of the root.
pub open spec fn branch_number(kids: Seq<usize>, b: usize, k: int) -> int
    decreases k,
{
    if k <= 0 {
        0
    } else if kids[k - 1] == b {
        k - 1
    } else {
        branch_number(kids, b, k - 1)
    }
}

fn number_branch(kids: &Vec<usize>, b: usize) -> (r: usize)
    ensures
        r == branch_number(kids@, b, kids@.len() as int),
{
    let mut k: usize = kids.len();
    while k > 0
        invariant
            k <= kids@.len(),
            branch_number(kids@, b, kids@.len() as int) == branch_number(kids@, b, k as int),
        decreases k,
    {
        if kids[k - 1] == b {
            return k - 1;
        }
        k -= 1;
    }
    0
}

/// The colour of a node: that of its branch.
pub open spec fn node_fill(d: Mindmap, accents: Seq<String>, i: int) -> Seq<char> {
    let n = d.nodes@[i];
    if n.depth == 0 {
        ROOT_FILL@
    } else {
        let b = match n.branch {
            Some(b) => b,
            None => i as usize,
        };
        let kids = d.nodes@[0].children@;
        accent_of(accents, branch_number(kids, b, kids.len() as int))
    }
}

/// Whether `b` is node `i` around its centre.
pub open spec fn is_box(
    d: Mindmap,
    accents: Seq<String>,
    pos: Seq<(Px, Px)>,
    b: MindNodeBox,
    i: int,
) -> bool {
    let n = d.nodes@[i];
    let (w, h) = box_size(n.text@, n.shape);
    &&& b.x == minus(bound(pos[i].0 as int), w / 2)
    &&& b.y == minus(bound(pos[i].1 as int), h / 2)
    &&& b.w == w
    &&& b.h == h
    &&& b.text@ == n.text@
    &&& b.shape == n.shape
    &&& b.depth == n.depth
    &&& b.fill@ == node_fill(d, accents, i)
    &&& b.text_color@ == (if n.depth == 0 {
        TEXT_COLOR@
    } else {
        BRANCH_TEXT@
    })
}

fn make_box(d: &Mindmap, accents: &Vec<String>, pos: &Vec<(Px, Px)>, i: usize) -> (r: MindNodeBox)
    requires
        i < d.nodes@.len(),
        pos@.len() == d.nodes@.len(),
        accents@.len() > 0,
    ensures
        is_box(*d, accents@, pos@, r, i as int),
{
    let n = &d.nodes[i];
    let (w, h): (Px, Px) = node_size(n.text.as_str(), n.shape);
    let (fill, text_color) = if n.depth == 0 {
        (ROOT_FILL.to_owned(), TEXT_COLOR.to_owned())
    } else {
        let b: usize = match n.branch {
            Some(b) => b,
            None => i,
        };
        let order: usize = number_branch(&d.nodes[0].children, b);
        (accent(accents, order), BRANCH_TEXT.to_owned())
    };
    MindNodeBox {
        x: diff(cut(pos[i].0), half(w)),
        y: diff(cut(pos[i].1), half(h)),
        w,
        h,
        text: n.text.clone(),
        shape: n.shape,
        depth: n.depth,
        fill,
        text_color,
    }
}

/// The centre of a node that is drawn.
pub open spec fn middle_of(b: MindNodeBox) -> (int, int) {
    (centre(bound(b.x as int), b.w as int), centre(bound(b.y as int), b.h as int))
}

/// A third of the way from `a` to `b`, `k` times.
pub open spec fn thirds(a: int, b: int, k: int) -> int {
    plus(a, scaled(minus(b, a), k, 3))
}

/// How wide the line to a node is: less the deeper it is.
pub open spec fn link_width(depth: int) -> int {
    most(minus(352000, times(depth, 64000)), 128000)
}

/// Whether `l` leads to node `i` from its parent `p`.
pub open spec fn is_link(boxes: Seq<MindNodeBox>, l: MindLink, p: int, i: int) -> bool {
    let a = middle_of(boxes[p]);
    let b = middle_of(boxes[i]);
    &&& (l.bezier.0.0 as int, l.bezier.0.1 as int) == a
    &&& l.bezier.1.0 == thirds(a.0, b.0, 1)
    &&& l.bezier.1.1 == thirds(a.1, b.1, 1)
    &&& l.bezier.2.0 == thirds(a.0, b.0, 2)
    &&& l.bezier.2.1 == thirds(a.1, b.1, 2)
    &&& (l.bezier.3.0 as int, l.bezier.3.1 as int) == b
    &&& l.color@ == boxes[i].fill@
    &&& l.width == link_width(boxes[i].depth as int)
}

fn third(a: Px, b: Px, k: Px) -> (r: Px)
    requires
        bounded(a as int),
        bounded(b as int),
        0 <= k <= 3,
    ensures
        r == thirds(a as int, b as int, k as int),
{
    sum(a, scale(diff(b, a), k, 3))
}

fn make_link(boxes: &Vec<MindNodeBox>, p: usize, i: usize) -> (r: MindLink)
    requires
        p < boxes@.len(),
        i < boxes@.len(),
    ensures
        is_link(boxes@, r, p as int, i as int),
{
    let ax: Px = boxes[p].cx();
    let ay: Px = boxes[p].cy();
    let bx: Px = boxes[i].cx();
    let by: Px = boxes[i].cy();
    MindLink {
        bezier: (
            (ax, ay),
            (third(ax, bx, 1), third(ay, by, 1)),
            (third(ax, bx, 2), third(ay, by, 2)),
            (bx, by),
        ),
        color: boxes[i].fill.clone(),
        width: greater(diff(352000, multiple(boxes[i].depth, 64000)), 128000),
    }
}

/// The nodes among the first `k` that have a parent, with it.
pub open spec fn joints(nodes: Seq<MindNode>, k: int) -> Seq<(int, int)>
    decreases k,
{
    if k <= 0 {
        Seq::empty()
    } else {
        match nodes[k - 1].parent {
            Some(p) => joints(nodes, k - 1).push((p as int, k - 1)),
            None => joints(nodes, k - 1),
        }
    }
}

/// How far right the first `k` nodes reach.
pub open spec fn reach_x(b: Seq<MindNodeBox>, k: int) -> int
    decreases k,
{
    if k <= 0 {
        0
    } else {
        most(reach_x(b, k - 1), plus(b[k - 1].x as int, b[k - 1].w as int))
    }
}

/// How far down the first `k` nodes reach.
pub open spec fn reach_y(b: Seq<MindNodeBox>, k: int) -> int
    decreases k,
{
    if k <= 0 {
        0
    } else {
        most(reach_y(b, k - 1), plus(b[k - 1].y as int, b[k - 1].h as int))
    }
}

/// Whether `r` is the mindmap with its nodes around the centres `pos`. A
/// number of centres that does not match gives an empty canvas.
pub open spec fn is_routed(
    d: Mindmap,
    accents: Seq<String>,
    pos: Seq<(Px, Px)>,
    r: MindScene,
) -> bool {
    let n = d.nodes@.len() as int;
    if n == 0 || pos.len() != n {
        &&& r.width == 2 * MARGIN
        &&& r.height == 2 * MARGIN
        &&& r.nodes@.len() == 0
        &&& r.edges@.len() == 0
    } else {
        let js = joints(d.nodes@, n);
        &&& r.nodes@.len() == n
        &&& forall|i: int| 0 <= i < n ==> is_box(d, accents, pos, #[trigger] r.nodes@[i], i)
        &&& r.edges@.len() == js.len()
        &&& forall|e: int|
            0 <= e < js.len() ==> is_link(r.nodes@, #[trigger] r.edges@[e], js[e].0, js[e].1)
        &&& r.width == plus(reach_x(r.nodes@, n), MARGIN as int)
        &&& r.height == plus(reach_y(r.nodes@, n), MARGIN as int)
    }
}

fn make_links(d: &Mindmap, boxes: &Vec<MindNodeBox>) -> (r: Vec<MindLink>)
    requires
        rooted(*d),
        boxes@.len() == d.nodes@.len(),
    ensures
        ({
            let js = joints(d.nodes@, d.nodes@.len() as int);
            &&& r@.len() == js.len()
            &&& forall|e: int|
                0 <= e < js.len() ==> is_link(boxes@, #[trigger] r@[e], js[e].0, js[e].1)
        }),
{
    let mut r: Vec<MindLink> = Vec::new();
    let mut i: usize = 0;
    while i < d.nodes.len()
        invariant
            i <= d.nodes@.len(),
            rooted(*d),
            boxes@.len() == d.nodes@.len(),
            r@.len() == joints(d.nodes@, i as int).len(),
            forall|e: int|
                0 <= e < r@.len() ==> is_link(
                    boxes@,
                    #[trigger] r@[e],
                    joints(d.nodes@, i as int)[e].0,
                    joints(d.nodes@, i as int)[e].1,
                ),
        decreases d.nodes@.len() - i,
    {
        assert(d.nodes@[i as int].parent matches Some(p) ==> p < d.nodes@.len());
        match d.nodes[i].parent {
            Some(p) => {
                r.push(make_link(boxes, p, i));
            },
            None => {},
        }
        i += 1;
    }
    r
}

/// Draw a mindmap with its nodes around given centres.
pub fn route(d: &Mindmap, pos: &Vec<(Px, Px)>, accents: &Vec<String>) -> (r: MindScene)
    requires
        rooted(*d),
        accents@.len() > 0,
    ensures
        is_routed(*d, accents@, pos@, r),
{
    let n: usize = d.nodes.len();
    if n == 0 || pos.len() != n {
        return MindScene {
            width: 2 * MARGIN,
            height: 2 * MARGIN,
            nodes: Vec::new(),
            edges: Vec::new(),
        };
    }
    let mut nodes: Vec<MindNodeBox> = Vec::new();
    let mut width: Px = 0;
    let mut height: Px = 0;
    let mut i: usize = 0;
    while i < n
        invariant
            i <= n,
            n == d.nodes@.len(),
            pos@.len() == n,
            accents@.len() > 0,
            nodes@.len() == i,
            forall|k: int| 0 <= k < i ==> is_box(*d, accents@, pos@, #[trigger] nodes@[k], k),
            width == reach_x(nodes@, i as int),
            height == reach_y(nodes@, i as int),
            bounded(width as int),
            bounded(height as int),
        decreases n - i,
    {
        let b = make_box(d, accents, pos, i);
        let ghost before = nodes@;
        let right: Px = sum(b.x, b.w);
        let bottom: Px = sum(b.y, b.h);
        nodes.push(b);
        proof {
            lemma_reach_same(before, nodes@, i as int);
        }
        width = greater(width, right);
        height = greater(height, bottom);
        i += 1;
    }
    let edges = make_links(d, &nodes);
    MindScene { width: sum(width, MARGIN), height: sum(height, MARGIN), nodes, edges }
}

proof fn lemma_reach_same(a: Seq<MindNodeBox>, b: Seq<MindNodeBox>, k: int)
    requires
        0 <= k <= a.len(),
        k <= b.len(),
        forall|i: int| 0 <= i < k ==> a[i] == b[i],
    ensures
        reach_x(a, k) == reach_x(b, k),
        reach_y(a, k) == reach_y(b, k),
    decreases k,
{
    if k > 0 {
        lemma_reach_same(a, b, k - 1);
    }
}

/// How far left a tree reaches around its root.
pub open spec fn left_end(d: Mindmap, c: Seq<(Px, Px)>, k: int) -> int
    decreases k,
{
    let n = d.nodes@[k - 1];
    let here = minus(bound(c[k - 1].0 as int), box_size(n.text@, n.shape).0 / 2);
    if k <= 1 {
        here
    } else {
        least(left_end(d, c, k - 1), here)
    }
}

/// How far up a tree reaches around its root.
pub open spec fn top_end(d: Mindmap, c: Seq<(Px, Px)>, k: int) -> int
    decreases k,
{
    let n = d.nodes@[k - 1];
    let here = minus(bound(c[k - 1].1 as int), box_size(n.text@, n.shape).1 / 2);
    if k <= 1 {
        here
    } else {
        least(top_end(d, c, k - 1), here)
    }
}

/// The centres, moved so that the tree keeps the margin.
pub open spec fn settled(d: Mindmap, c: Seq<(Px, Px)>) -> Seq<(Px, Px)> {
    let n = d.nodes@.len() as int;
    Seq::new(
        c.len(),
        |i: int|
            (
                minus(plus(bound(c[i].0 as int), MARGIN as int), left_end(d, c, n)) as Px,
                minus(plus(bound(c[i].1 as int), MARGIN as int), top_end(d, c, n)) as Px,
            ),
    )
}

fn settle(d: &Mindmap, c: &Vec<(Px, Px)>) -> (r: Vec<(Px, Px)>)
    requires
        0 < c@.len() == d.nodes@.len(),
    ensures
        r@ == settled(*d, c@),
{
    let n: usize = c.len();
    let (w, h): (Px, Px) = node_size(d.nodes[0].text.as_str(), d.nodes[0].shape);
    let mut left: Px = diff(cut(c[0].0), half(w));
    let mut top: Px = diff(cut(c[0].1), half(h));
    let mut k: usize = 1;
    while k < n
        invariant
            1 <= k <= n,
            n == c@.len(),
            n == d.nodes@.len(),
            left == left_end(*d, c@, k as int),
            top == top_end(*d, c@, k as int),
            bounded(left as int),
            bounded(top as int),
        decreases n - k,
    {
        let (w, h): (Px, Px) = node_size(d.nodes[k].text.as_str(), d.nodes[k].shape);
        left = lesser(left, diff(cut(c[k].0), half(w)));
        top = lesser(top, diff(cut(c[k].1), half(h)));
        k += 1;
    }
    let mut r: Vec<(Px, Px)> = Vec::new();
    let mut i: usize = 0;
    while i < n
        invariant
            i <= n,
            n == c@.len(),
            n == d.nodes@.len(),
            left == left_end(*d, c@, n as int),
            top == top_end(*d, c@, n as int),
            bounded(left as int),
            bounded(top as int),
            r@.len() == i,
            forall|j: int| 0 <= j < i ==> #[trigger] r@[j] == settled(*d, c@)[j],
        decreases n - i,
    {
        r.push((diff(sum(cut(c[i].0), MARGIN), left), diff(sum(cut(c[i].1), MARGIN), top)));
        i += 1;
    }
    assert(r@ =~= settled(*d, c@));
    r
}

/// Draw a mindmap whose nodes stand around the root as `around` says: the
/// root at the origin, every other node on the ring of its depth.
pub fn scene(d: &Mindmap, around: &Vec<(Px, Px)>, accents: &Vec<String>) -> (r: MindScene)
    requires
        rooted(*d),
        accents@.len() > 0,
        around@.len() == d.nodes@.len(),
    ensures
        is_routed(*d, accents@, settled(*d, around@), r),
{
    if d.nodes.len() == 0 {
        let none: Vec<(Px, Px)> = Vec::new();
        return route(d, &none, accents);
    }
    let c = settle(d, around);
    route(d, &c, accents)
}

/// Whether the centre and the size of node `j` are far inside the range of
/// lengths.
pub open spec fn well_inside(d: Mindmap, c: Seq<(Px, Px)>, j: int) -> bool {
    let size = box_size(d.nodes@[j].text@, d.nodes@[j].shape);
    &&& -0x8_0000_0000_0000 <= c[j].0 <= 0x8_0000_0000_0000
    &&& -0x8_0000_0000_0000 <= c[j].1 <= 0x8_0000_0000_0000
    &&& 0 <= size.0 <= 0x8_0000_0000_0000
    &&& 0 <= size.1 <= 0x8_0000_0000_0000
}

proof fn lemma_ends(d: Mindmap, c: Seq<(Px, Px)>, k: int, i: int)
    requires
        0 <= i < k <= d.nodes@.len(),
        forall|j: int| 0 <= j < d.nodes@.len() ==> #[trigger] well_inside(d, c, j),
    ensures
        ({
            let size = box_size(d.nodes@[i].text@, d.nodes@[i].shape);
            &&& -0x10_0000_0000_0000 <= left_end(d, c, k) <= c[i].0 - size.0 / 2
            &&& -0x10_0000_0000_0000 <= top_end(d, c, k) <= c[i].1 - size.1 / 2
        }),
    decreases k,
{
    assert(well_inside(d, c, k - 1));
    assert(well_inside(d, c, i));
    if i < k - 1 {
        lemma_ends(d, c, k - 1, i);
    } else if k > 1 {
        lemma_ends(d, c, k - 1, 0);
    }
}

proof fn lemma_reaches(b: Seq<MindNodeBox>, k: int, i: int)
    requires
        0 <= i < k <= b.len(),
    ensures
        plus(b[i].x as int, b[i].w as int) <= reach_x(b, k),
        plus(b[i].y as int, b[i].h as int) <= reach_y(b, k),
    decreases k,
{
    if i < k - 1 {
        lemma_reaches(b, k - 1, i);
    }
}

/// Every node of a drawn mindmap keeps the margin to all four sides of the
/// canvas, as long as the tree is far inside the range of lengths.
pub proof fn law_nodes_stay_inside(
    d: Mindmap,
    accents: Seq<String>,
    around: Seq<(Px, Px)>,
    r: MindScene,
    i: int,
)
    requires
        is_routed(d, accents, settled(d, around), r),
        around.len() == d.nodes@.len(),
        0 <= i < d.nodes@.len(),
        forall|j: int| 0 <= j < d.nodes@.len() ==> #[trigger] well_inside(d, around, j),
        r.width < FAR,
        r.height < FAR,
    ensures
        MARGIN <= r.nodes@[i].x,
        MARGIN <= r.nodes@[i].y,
        r.nodes@[i].x + r.nodes@[i].w + MARGIN <= r.width,
        r.nodes@[i].y + r.nodes@[i].h + MARGIN <= r.height,
{
    let n = d.nodes@.len() as int;
    assert(well_inside(d, around, i));
    assert(is_box(d, accents, settled(d, around), r.nodes@[i], i));
    lemma_ends(d, around, n, i);
    lemma_reaches(r.nodes@, n, i);
}

/// The corners of a hexagonal node.
pub open spec fn hexagon(x: int, y: int, w: int, h: int) -> Seq<(int, int)> {
    let k = least(h / 2, scaled(w, 1, 3));
    seq![
        (plus(x, k), y),
        (minus(plus(x, w), k), y),
        (plus(x, w), plus(y, h / 2)),
        (minus(plus(x, w), k), plus(y, h)),
        (plus(x, k), plus(y, h)),
        (x, plus(y, h / 2)),
    ]
}

/// Corners over whole numbers.
pub open spec fn corners(v: Seq<(Px, Px)>) -> Seq<(int, int)> {
    v.map_values(|p: (Px, Px)| (p.0 as int, p.1 as int))
}

/// The corners of a hexagonal node.
pub fn hexagon_pts(n: &MindNodeBox) -> (r: Vec<(Px, Px)>)
    ensures
        corners(r@) == hexagon(
            bound(n.x as int),
            bound(n.y as int),
            bound(n.w as int),
            bound(n.h as int),
        ),
{
    let x: Px = cut(n.x);
    let y: Px = cut(n.y);
    let w: Px = cut(n.w);
    let h: Px = cut(n.h);
    let k: Px = lesser(half(h), scale(w, 1, 3));
    let right: Px = sum(x, w);
    let low: Px = sum(y, h);
    let mid: Px = sum(y, half(h));
    let r = vec![
        (sum(x, k), y),
        (diff(right, k), y),
        (right, mid),
        (diff(right, k), low),
        (sum(x, k), low),
        (x, mid),
    ];
    assert(corners(r@) =~= hexagon(x as int, y as int, w as int, h as int));
    r
}

} // verus!
