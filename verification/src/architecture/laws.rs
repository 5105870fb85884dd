//! What a drawn architecture shows.

use vstd::prelude::*;

use crate::advance::place::lengths::{minus, plus};
use crate::advance::route::geometry::{course, most, FAR};
use crate::advance::scene::Px;
use crate::architecture::arrange::{
    box_at, columns, columns_from, group_size, pen, row_end, square, turned, CHILD_GAP, GROUP_PAD,
    GROUP_TITLE_H,
};
use crate::architecture::place::{
    kid_from, kid_sizes, kids, law_group_lists_its_kids, size, stands_in, Kid, SERVICE_H, SERVICE_W,
};
use crate::architecture::scene::{
    is_cluster, is_line, is_scene, is_service, ArchNode, ArchScene,
};
use crate::architecture::{
    indices_exist, lemma_rank, nests, ArchSide, Architecture,
};

verus! {

/// The number of the first box in the row of box `k`.
spec fn base(k: int, cols: int) -> int {
    k - k % cols
}

proof fn lemma_base(k: int, cols: int)
    requires
        0 < k,
        0 < cols,
    ensures
        k % cols == 0 ==> base(k, cols) == k && base(k - 1, cols) < k,
        k % cols != 0 ==> base(k, cols) == base(k - 1, cols),
        0 <= base(k - 1, cols) <= k - 1 < base(k - 1, cols) + cols,
{
    vstd::arithmetic::div_mod::lemma_mod_bound(k, cols);
    vstd::arithmetic::div_mod::lemma_mod_bound(k - 1, cols);
    vstd::arithmetic::div_mod::lemma_mod_decreases(k as nat, cols as nat);
    vstd::arithmetic::div_mod::lemma_mod_decreases((k - 1) as nat, cols as nat);
    if k % cols != 0 {
        vstd::arithmetic::div_mod::lemma_fundamental_div_mod(k, cols);
        assert(cols * (k / cols) == (k / cols) * cols) by (nonlinear_arith);
        vstd::arithmetic::div_mod::lemma_fundamental_div_mod_converse(
            k - 1,
            cols,
            k / cols,
            k % cols - 1,
        );
    }
}

/// Whether no box has a negative size.
pub open spec fn solid(s: Seq<(Px, Px)>) -> bool {
    forall|i: int| 0 <= i < s.len() ==> 0 <= (#[trigger] s[i]).0 <= FAR && 0 <= s[i].1 <= FAR
}

/// Where box `i` stands before its row is centred.
spec fn raw(s: Seq<(Px, Px)>, cols: int, i: int) -> (int, int) {
    let p = turned(pen(s, cols, i), i, cols);
    (p.x, p.y)
}

/// What the pen behind the first `k` boxes knows of box `i`.
spec fn noted(s: Seq<(Px, Px)>, cols: int, k: int, i: int) -> bool {
    let p = pen(s, cols, k);
    let (x, y) = raw(s, cols, i);
    let (w, h) = (s[i].0 as int, s[i].1 as int);
    &&& GROUP_PAD <= x && GROUP_PAD + GROUP_TITLE_H <= y
    &&& x + w + GROUP_PAD <= p.max_w
    &&& y + h + GROUP_PAD <= p.max_h
    &&& if base(i, cols) == base(k - 1, cols) {
        y == p.y && x + w + CHILD_GAP <= p.x && h <= p.row_h
    } else {
        y + h + CHILD_GAP <= p.y
    }
}

proof fn lemma_pen_rises(s: Seq<(Px, Px)>, cols: int, k: int, n: int)
    requires
        0 <= k <= n,
    ensures
        pen(s, cols, k).max_w <= pen(s, cols, n).max_w,
        pen(s, cols, k).max_h <= pen(s, cols, n).max_h,
    decreases n,
{
    if k < n {
        lemma_pen_rises(s, cols, k, n - 1);
    }
}

proof fn lemma_pen(s: Seq<(Px, Px)>, cols: int, k: int)
    requires
        solid(s),
        0 < cols,
        0 <= k <= s.len(),
        pen(s, cols, k).max_w < FAR - CHILD_GAP,
        pen(s, cols, k).max_h < FAR - CHILD_GAP,
    ensures
        GROUP_PAD <= pen(s, cols, k).x,
        GROUP_PAD + GROUP_TITLE_H <= pen(s, cols, k).y,
        0 <= pen(s, cols, k).row_h,
        k > 0 ==> pen(s, cols, k).x + GROUP_PAD - CHILD_GAP <= pen(s, cols, k).max_w,
        pen(s, cols, k).y + pen(s, cols, k).row_h + GROUP_PAD <= most(
            pen(s, cols, k).max_h,
            GROUP_PAD + GROUP_PAD + GROUP_TITLE_H,
        ),
        k > 0 ==> pen(s, cols, k).x == raw(s, cols, k - 1).0 + s[k - 1].0 + CHILD_GAP,
        forall|i: int| 0 <= i < k ==> #[trigger] noted(s, cols, k, i),
    decreases k,
{
    if k > 0 {
        lemma_pen_rises(s, cols, k - 1, k);
        lemma_pen(s, cols, k - 1);
        assert(0 <= s[k - 1].0 && 0 <= s[k - 1].1);
        let before = pen(s, cols, k - 1);
        let p = turned(before, k - 1, cols);
        let q = pen(s, cols, k);
        if k > 1 {
            lemma_base(k - 1, cols);
        }
        assert forall|i: int| 0 <= i < k implies #[trigger] noted(s, cols, k, i) by {
            if i < k - 1 {
                assert(noted(s, cols, k - 1, i));
                lemma_base_order(i, k - 2, cols);
            }
        }
    }
}

proof fn lemma_base_order(i: int, k: int, cols: int)
    requires
        0 <= i <= k,
        0 < cols,
    ensures
        base(i, cols) <= base(k, cols) <= k,
    decreases k,
{
    vstd::arithmetic::div_mod::lemma_mod_bound(k, cols);
    if i < k {
        lemma_base_order(i, k - 1, cols);
        lemma_base(k, cols);
    }
}

/// Boxes that are arranged in a group keep its padding and stay below its
/// title, and no two of them overlap: one ends a gap before the other
/// starts, in their row or from row to row. This holds as long as the group
/// stays in range.
pub proof fn law_boxes_do_not_overlap(s: Seq<(Px, Px)>, i: int, j: int)
    requires
        solid(s),
        0 <= i < s.len(),
        0 <= j < s.len(),
        group_size(s).0 < FAR - CHILD_GAP,
        group_size(s).1 < FAR - CHILD_GAP,
    ensures
        ({
            let (a, b) = (box_at(s, i), box_at(s, j));
            let (w, h) = group_size(s);
            &&& GROUP_PAD <= a.0 && a.0 + s[i].0 + GROUP_PAD <= w
            &&& GROUP_PAD + GROUP_TITLE_H <= a.1 && a.1 + s[i].1 + GROUP_PAD <= h
            &&& i < j ==> (a.1 == b.1 && a.0 + s[i].0 + CHILD_GAP <= b.0) || a.1 + s[i].1
                + CHILD_GAP <= b.1
        }),
{
    let n = s.len() as int;
    let cols = columns(n);
    lemma_columns_positive(n, 1);
    lemma_placed(s, cols, i);
    lemma_placed(s, cols, j);
    if i < j {
        lemma_pen_rises(s, cols, j, n);
        lemma_pen(s, cols, j);
        assert(noted(s, cols, j, i));
        lemma_base(j, cols);
        lemma_base_order(i, j - 1, cols);
        lemma_pen_rises(s, cols, j + 1, n);
        lemma_pen(s, cols, j + 1);
        assert(noted(s, cols, j + 1, i));
        assert(noted(s, cols, j + 1, j));
        if base(i, cols) == base(j, cols) {
            assert(row_end(i, cols, n) == row_end(j, cols, n));
        }
    }
}

proof fn lemma_columns_positive(n: int, c: int)
    requires
        1 <= c,
    ensures
        1 <= columns_from(n, c),
    decreases n - c,
{
    if c < n && square(c) < n {
        lemma_columns_positive(n, c + 1);
    }
}

/// How far the row of box `i` is moved to the right.
spec fn aside(s: Seq<(Px, Px)>, cols: int, i: int) -> int {
    let right = minus(pen(s, cols, row_end(i, cols, s.len() as int)).x, CHILD_GAP as int);
    minus(group_size(s).0, plus(right, GROUP_PAD as int)) / 2
}

/// Whether all boxes from `i` to `k` stand in one row.
proof fn lemma_row(i: int, k: int, cols: int)
    requires
        0 <= i <= k < base(i, cols) + cols,
        0 < cols,
    ensures
        base(k, cols) == base(i, cols),
    decreases k - i,
{
    if i < k {
        lemma_row(i, k - 1, cols);
        lemma_base(k, cols);
        vstd::arithmetic::div_mod::lemma_mod_bound(i, cols);
        if k % cols == 0 {
            vstd::arithmetic::div_mod::lemma_fundamental_div_mod(i, cols);
            vstd::arithmetic::div_mod::lemma_fundamental_div_mod(k, cols);
            assert(base(i, cols) == cols * (i / cols));
            let (a, b) = (i / cols, k / cols);
            assert(cols * a < cols * b < cols * a + cols);
            assert(false) by (nonlinear_arith)
                requires
                    cols * a < cols * b,
                    cols * b < cols * a + cols,
                    0 < cols,
            ;
        }
    }
}

proof fn lemma_placed(s: Seq<(Px, Px)>, cols: int, i: int)
    requires
        solid(s),
        cols == columns(s.len() as int),
        0 < cols,
        0 <= i < s.len(),
        group_size(s).0 < FAR - CHILD_GAP,
        group_size(s).1 < FAR - CHILD_GAP,
    ensures
        0 <= aside(s, cols, i),
        box_at(s, i) == (raw(s, cols, i).0 + aside(s, cols, i), raw(s, cols, i).1),
        GROUP_PAD <= raw(s, cols, i).0,
        GROUP_PAD + GROUP_TITLE_H <= raw(s, cols, i).1,
        raw(s, cols, i).0 + aside(s, cols, i) + s[i].0 + GROUP_PAD <= group_size(s).0,
        raw(s, cols, i).1 + s[i].1 + GROUP_PAD <= group_size(s).1,
{
    let n = s.len() as int;
    let e = row_end(i, cols, n);
    vstd::arithmetic::div_mod::lemma_mod_bound(i, cols);
    assert(i < e <= n);
    lemma_base_order(i, i, cols);
    lemma_row(i, e - 1, cols);
    lemma_pen_rises(s, cols, e, n);
    lemma_pen(s, cols, e);
    assert(noted(s, cols, e, i));
    assert(0 <= s[i].0 && 0 <= s[i].1);
}

/// The left and upper side, the width and the height of something that is
/// drawn in a group.
pub open spec fn drawn_box(s: ArchScene, kid: Kid) -> (int, int, int, int) {
    match kid {
        Kid::Group(c) => {
            let b = s.clusters@[c as int];
            (b.x as int, b.y as int, b.w as int, b.h as int)
        },
        Kid::Service(v) => {
            let n = s.nodes@[v as int];
            (n.x - SERVICE_W / 2, n.y - SERVICE_H / 2, SERVICE_W as int, SERVICE_H as int)
        },
    }
}

proof fn lemma_found(list: Seq<Kid>, kid: Kid, i: int, j: int)
    requires
        0 <= i <= j < list.len(),
        list[j] == kid,
    ensures
        i <= kid_from(list, kid, i) <= j,
        list[kid_from(list, kid, i)] == kid,
    decreases list.len() - i,
{
    if list[i] != kid {
        lemma_found(list, kid, i + 1, j);
    }
}

proof fn lemma_size_bounded(s: Seq<(Px, Px)>, cols: int, k: int)
    ensures
        0 <= pen(s, cols, k).max_w <= FAR,
        0 <= pen(s, cols, k).max_h <= FAR,
    decreases k,
{
    if k > 0 {
        lemma_size_bounded(s, cols, k - 1);
    }
}

proof fn lemma_kids_solid(d: Architecture, g: int)
    ensures
        solid(kid_sizes(d, g)),
{
    let list = kids(d, g);
    let sizes = kid_sizes(d, g);
    assert forall|i: int| 0 <= i < sizes.len() implies 0 <= (#[trigger] sizes[i]).0 <= FAR && 0
        <= sizes[i].1 <= FAR by {
        match list[i] {
            Kid::Group(c) => {
                let own = kid_sizes(d, c as int);
                lemma_size_bounded(own, columns(own.len() as int), own.len() as int);
            },
            Kid::Service(_) => {},
        }
    }
}

/// The kid of a group is drawn where the group's arrangement puts it.
proof fn lemma_drawn(s: ArchScene, d: Architecture, accents: Seq<String>, g: int, kid: Kid)
    requires
        is_scene(s, d, accents),
        nests(d),
        0 <= g < d.groups@.len(),
        stands_in(d, kid, g),
        d.groups@.len() <= usize::MAX,
        d.services@.len() <= usize::MAX,
        0 <= s.clusters@[g].x,
        0 <= s.clusters@[g].y,
        s.clusters@[g].x + s.clusters@[g].w < FAR - CHILD_GAP,
        s.clusters@[g].y + s.clusters@[g].h < FAR - CHILD_GAP,
    ensures
        ({
            let i = kid_from(kids(d, g), kid, 0);
            let b = drawn_box(s, kid);
            let at = box_at(kid_sizes(d, g), i);
            &&& 0 <= i < kids(d, g).len()
            &&& kids(d, g)[i] == kid
            &&& b.0 == s.clusters@[g].x + at.0
            &&& b.1 == s.clusters@[g].y + at.1
            &&& b.2 == kid_sizes(d, g)[i].0
            &&& b.3 == kid_sizes(d, g)[i].1
        }),
{
    let list = kids(d, g);
    let sizes = kid_sizes(d, g);
    law_group_lists_its_kids(d, kid, g);
    let j = choose|j: int| 0 <= j < list.len() && list[j] == kid;
    lemma_found(list, kid, 0, j);
    let i = kid_from(list, kid, 0);
    lemma_kids_solid(d, g);
    assert(is_cluster(s.clusters@[g], d, g));
    assert(size(d, g) == group_size(sizes));
    law_boxes_do_not_overlap(sizes, i, i);
    match kid {
        Kid::Group(c) => {
            assert(is_cluster(s.clusters@[c as int], d, c as int));
            assert(d.groups@[c as int].parent == Some(g as usize));
            lemma_rank(d.groups@, c as int, d.groups@.len() as int);
            lemma_rank(d.groups@, g, d.groups@.len() as int);
            let own = kid_sizes(d, c as int);
            lemma_size_bounded(own, columns(own.len() as int), own.len() as int);
        },
        Kid::Service(v) => {
            assert(is_service(s.nodes@[v as int], d, v as int, accents));
            assert(d.services@[v as int].group == Some(g as usize));
        },
    }
}

/// Whatever stands in a group is drawn inside its box, with padding around
/// and below its title; and two things in one group do not overlap. This
/// holds as long as the group stays in range.
pub proof fn law_groups_hold_their_kids(
    s: ArchScene,
    d: Architecture,
    accents: Seq<String>,
    g: int,
    p: Kid,
    q: Kid,
)
    requires
        is_scene(s, d, accents),
        nests(d),
        0 <= g < d.groups@.len(),
        stands_in(d, p, g),
        stands_in(d, q, g),
        d.groups@.len() <= usize::MAX,
        d.services@.len() <= usize::MAX,
        0 <= s.clusters@[g].x,
        0 <= s.clusters@[g].y,
        s.clusters@[g].x + s.clusters@[g].w < FAR - CHILD_GAP,
        s.clusters@[g].y + s.clusters@[g].h < FAR - CHILD_GAP,
    ensures
        ({
            let c = s.clusters@[g];
            let (a, b) = (drawn_box(s, p), drawn_box(s, q));
            &&& c.x + GROUP_PAD <= a.0 && a.0 + a.2 + GROUP_PAD <= c.x + c.w
            &&& c.y + GROUP_PAD + GROUP_TITLE_H <= a.1 && a.1 + a.3 + GROUP_PAD <= c.y + c.h
            &&& p != q ==> a.0 + a.2 + CHILD_GAP <= b.0 || b.0 + b.2 + CHILD_GAP <= a.0 || a.1 + a.3
                + CHILD_GAP <= b.1 || b.1 + b.3 + CHILD_GAP <= a.1
        }),
{
    lemma_drawn(s, d, accents, g, p);
    lemma_drawn(s, d, accents, g, q);
    let sizes = kid_sizes(d, g);
    let i = kid_from(kids(d, g), p, 0);
    let j = kid_from(kids(d, g), q, 0);
    lemma_kids_solid(d, g);
    assert(is_cluster(s.clusters@[g], d, g));
    assert(size(d, g) == group_size(sizes));
    law_boxes_do_not_overlap(sizes, i, j);
    law_boxes_do_not_overlap(sizes, j, i);
}

/// The middle of a side of a service that is drawn at a centre.
pub open spec fn side_of(n: ArchNode, side: ArchSide) -> (int, int) {
    match side {
        ArchSide::L => (n.x - SERVICE_W / 2, n.y as int),
        ArchSide::R => (n.x + SERVICE_W / 2, n.y as int),
        ArchSide::T => (n.x as int, n.y - SERVICE_H / 2),
        ArchSide::B => (n.x as int, n.y + SERVICE_H / 2),
    }
}

/// Whether a service is drawn well inside the range of lengths.
pub open spec fn inside_range(n: ArchNode) -> bool {
    -FAR / 2 <= n.x <= FAR / 2 && -FAR / 2 <= n.y <= FAR / 2
}

/// An edge leaves its first service in the middle of the side that is named
/// for it, and reaches its second one in the middle of the side that is
/// named for that, with its heads where they are asked for.
pub proof fn law_edges_meet_their_sides(s: ArchScene, d: Architecture, accents: Seq<String>, k: int)
    requires
        is_scene(s, d, accents),
        indices_exist(d),
        0 <= k < s.edges@.len(),
        inside_range(s.nodes@[d.edges@[k].from as int]),
        inside_range(s.nodes@[d.edges@[k].to as int]),
    ensures
        ({
            let e = d.edges@[k];
            let l = s.edges@[k];
            let way = l.waypoints@;
            let (a, b) = (way[0], way[way.len() - 1]);
            &&& way.len() >= 2
            &&& (a.x as int, a.y as int) == side_of(s.nodes@[e.from as int], e.from_side)
            &&& (b.x as int, b.y as int) == side_of(s.nodes@[e.to as int], e.to_side)
            &&& l.arrow_start == e.arrow_start
            &&& l.arrow_end == e.arrow_end
        }),
{
    let e = d.edges@[k];
    assert(is_line(s.edges@[k], d, k));
    assert(is_service(s.nodes@[e.from as int], d, e.from as int, accents));
    assert(is_service(s.nodes@[e.to as int], d, e.to as int, accents));
    let way = s.edges@[k].waypoints@;
    let c = course(way);
    assert(c.len() == way.len());
    assert(c[0] == (way[0].x as int, way[0].y as int));
    assert(c[c.len() - 1] == (way[way.len() - 1].x as int, way[way.len() - 1].y as int));
}

} // verus!
