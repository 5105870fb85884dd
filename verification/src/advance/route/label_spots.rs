//! Where edge labels go: off the nodes, and off one another.

use vstd::prelude::*;

use crate::advance::route::geometry::{
    at, course, course_near, frame, half, near, node_rect, point_near, spots_near, Frame, Rect,
    Spot,
};
use crate::advance::route::paths::size_of;
use crate::advance::scene::{Point, Px};

verus! {

/// The shortest upright segment that a label is put beside.
pub const MIN_UPRIGHT: i64 = 1408000;

/// How far beside an upright segment a label goes.
pub const BESIDE: i64 = 512000;

/// What a label's box is wider than its text.
pub const LABEL_PAD: i64 = 896000;

/// Half the height of a label's box.
pub const LABEL_HALF_H: i64 = 576000;

/// The first of the longest upright segments among the first `k`, with its
/// length.
pub open spec fn longest_upright(c: Seq<(int, int)>, k: int) -> Option<(int, int)>
    decreases k,
{
    if k <= 0 {
        None
    } else {
        let before = longest_upright(c, k - 1);
        let p = c[k - 1];
        let q = c[k];
        if p.0 == q.0 {
            longer(before, k - 1, size_of(q.1 - p.1))
        } else {
            before
        }
    }
}

/// The first of the longest level segments among the first `k`, with its
/// length.
pub open spec fn longest_level(c: Seq<(int, int)>, k: int) -> Option<(int, int)>
    decreases k,
{
    if k <= 0 {
        None
    } else {
        let before = longest_level(c, k - 1);
        let p = c[k - 1];
        let q = c[k];
        if p.1 == q.1 {
            longer(before, k - 1, size_of(q.0 - p.0))
        } else {
            before
        }
    }
}

/// The longer of `best` and segment `i`.
pub open spec fn longer(best: Option<(int, int)>, i: int, len: int) -> Option<(int, int)> {
    match best {
        Some(b) => if len > b.1 {
            Some((i, len))
        } else {
            best
        },
        None => Some((i, len)),
    }
}

/// `s` with `p`, unless it holds it already.
pub open spec fn with_new(s: Seq<(int, int)>, p: (int, int)) -> Seq<(int, int)> {
    if s.contains(p) {
        s
    } else {
        s.push(p)
    }
}

/// The middle of a segment.
pub open spec fn middle(p: (int, int), q: (int, int)) -> (int, int) {
    ((p.0 + q.0) / 2, (p.1 + q.1) / 2)
}

/// `s` with the middles of the first `k` segments.
pub open spec fn with_middles(s: Seq<(int, int)>, c: Seq<(int, int)>, k: int) -> Seq<(int, int)>
    decreases k,
{
    if k <= 0 {
        s
    } else {
        with_new(with_middles(s, c, k - 1), middle(c[k - 1], c[k]))
    }
}

/// Where a label may go, best place first: beside the longest upright
/// segment, else at the middle point; on the longest level segment; at the
/// middle point; on the middle of any segment.
pub open spec fn places(c: Seq<(int, int)>) -> Seq<(int, int)> {
    let n = c.len() as int;
    if n == 0 {
        Seq::empty()
    } else {
        let centre = c[n / 2];
        let first = match longest_upright(c, n - 1) {
            Some((i, len)) => if len >= MIN_UPRIGHT {
                seq![(c[i].0 + BESIDE, (c[i].1 + c[i + 1].1) / 2)]
            } else {
                seq![centre]
            },
            None => seq![centre],
        };
        let second = match longest_level(c, n - 1) {
            Some((i, _)) => with_new(first, middle(c[i], c[i + 1])),
            None => first,
        };
        with_middles(with_new(second, centre), c, n - 1)
    }
}

/// The box of a label with its centre at `p`.
pub open spec fn label_frame(p: (int, int), width: int) -> Frame {
    let w = width + LABEL_PAD;
    Frame { l: p.0 - w / 2, t: p.1 - LABEL_HALF_H, r: p.0 + w / 2, b: p.1 + LABEL_HALF_H }
}

/// Whether two boxes overlap.
pub open spec fn overlap(a: Frame, b: Frame) -> bool {
    a.l < b.r && a.r > b.l && a.t < b.b && a.b > b.t
}

/// Whether a label at `p` is off all `spots` and off all placed labels.
pub open spec fn is_free(p: (int, int), width: int, spots: Seq<Spot>, placed: Seq<Frame>) -> bool {
    let f = label_frame(p, width);
    &&& forall|i: int| 0 <= i < spots.len() ==> !overlap(f, frame(#[trigger] spots[i]))
    &&& forall|i: int| 0 <= i < placed.len() ==> !overlap(f, #[trigger] placed[i])
}

/// The first place from `k` on at which a label is free.
pub open spec fn free_from(
    c: Seq<(int, int)>,
    k: int,
    width: int,
    spots: Seq<Spot>,
    placed: Seq<Frame>,
) -> Option<(int, int)>
    decreases c.len() - k,
{
    if k < 0 || k >= c.len() {
        None
    } else if is_free(c[k], width, spots, placed) {
        Some(c[k])
    } else {
        free_from(c, k + 1, width, spots, placed)
    }
}

/// Where a label goes: to the first place at which it is free, else to the
/// first place.
pub open spec fn label_spot(
    c: Seq<(int, int)>,
    width: int,
    spots: Seq<Spot>,
    placed: Seq<Frame>,
) -> Option<(int, int)> {
    match free_from(c, 0, width, spots, placed) {
        Some(p) => Some(p),
        None => if c.len() > 0 {
            Some(c[0])
        } else {
            None
        },
    }
}

/// Labels that were placed, in mathematical terms.
pub open spec fn frames(v: Seq<Rect>) -> Seq<Frame> {
    v.map_values(|r: Rect| r@)
}

fn absolute_gap(a: Px, b: Px) -> (r: Px)
    requires
        near(a as int, 8),
        near(b as int, 8),
    ensures
        r == size_of(b - a),
{
    if b < a {
        a - b
    } else {
        b - a
    }
}

/// Find the first of the longest upright segments, with its length.
pub fn find_upright(v: &Vec<Point>) -> (r: Option<(usize, i128)>)
    ensures
        match longest_upright(course(v@), v@.len() - 1) {
            Some(b) => r matches Some(x) && x.0 == b.0 && x.1 == b.1 && 0 <= b.0 < v@.len() - 1,
            None => r is None,
        },
{
    let ghost c = course(v@);
    let mut best: Option<(usize, i128)> = None;
    if v.len() == 0 {
        return None;
    }
    let mut k: usize = 1;
    while k < v.len()
        invariant
            1 <= k <= v@.len(),
            c == course(v@),
            match longest_upright(c, k - 1) {
                Some(b) => best matches Some(x) && x.0 == b.0 && x.1 == b.1 && 0 <= b.0 < k - 1,
                None => best is None,
            },
        decreases v@.len() - k,
    {
        let p = v[k - 1];
        let q = v[k];
        assert(c[k - 1] == at(p) && c[k as int] == at(q));
        if p.x == q.x {
            let len: i128 = if p.y < q.y {
                q.y as i128 - p.y as i128
            } else {
                p.y as i128 - q.y as i128
            };
            let better = match best {
                Some((_, b)) => len > b,
                None => true,
            };
            if better {
                best = Some((k - 1, len));
            }
        }
        k += 1;
    }
    best
}

fn find_level(v: &Vec<Point>) -> (r: Option<(usize, Px)>)
    requires
        course_near(v@, 4),
        v@.len() > 0,
    ensures
        longest_level(course(v@), v@.len() - 1) == seg_view(r),
        r matches Some(b) ==> b.0 + 1 < v@.len(),
{
    let ghost c = course(v@);
    let mut best: Option<(usize, Px)> = None;
    let mut k: usize = 1;
    while k < v.len()
        invariant
            1 <= k <= v@.len(),
            c == course(v@),
            course_near(v@, 4),
            longest_level(c, k - 1) == seg_view(best),
            best matches Some(b) ==> b.0 + 1 < k,
        decreases v@.len() - k,
    {
        let p = v[k - 1];
        let q = v[k];
        assert(point_near(at(v@[k - 1]), 4) && point_near(at(v@[k as int]), 4));
        assert(c[k - 1] == at(p) && c[k as int] == at(q));
        if p.y == q.y {
            let len: Px = absolute_gap(p.x, q.x);
            let better = match best {
                Some((_, b)) => len > b,
                None => true,
            };
            if better {
                best = Some((k - 1, len));
            }
        }
        k += 1;
    }
    best
}

spec fn seg_view(o: Option<(usize, Px)>) -> Option<(int, int)> {
    match o {
        Some(b) => Some((b.0 as int, b.1 as int)),
        None => None,
    }
}

fn push_unique(out: &mut Vec<Point>, p: Point)
    requires
        course_near(old(out)@, 5),
        point_near(at(p), 5),
    ensures
        course(final(out)@) == with_new(course(old(out)@), at(p)),
        course_near(final(out)@, 5),
{
    let ghost before = out@;
    let ghost c = course(out@);
    let mut i: usize = 0;
    while i < out.len()
        invariant
            i <= out@.len(),
            out@ == before,
            c == course(out@),
            course_near(out@, 5),
            forall|k: int| 0 <= k < i ==> #[trigger] c[k] != at(p),
        decreases out@.len() - i,
    {
        assert(c[i as int] == at(out@[i as int]));
        if out[i].x == p.x && out[i].y == p.y {
            assert(c.contains(at(p)));
            return ;
        }
        i += 1;
    }
    assert(!c.contains(at(p)));
    out.push(p);
    assert(course(out@) =~= c.push(at(p)));
}

fn mid_point(p: Point, q: Point) -> (r: Point)
    requires
        point_near(at(p), 4),
        point_near(at(q), 4),
    ensures
        at(r) == middle(at(p), at(q)),
        point_near(at(r), 5),
{
    Point { x: half(p.x + q.x), y: half(p.y + q.y) }
}

/// Where a label may go, best place first.
pub fn label_candidates(points: &Vec<Point>) -> (r: Vec<Point>)
    requires
        course_near(points@, 4),
    ensures
        course(r@) == places(course(points@)),
        course_near(r@, 5),
{
    let ghost c = course(points@);
    let n: usize = points.len();
    let mut out: Vec<Point> = Vec::new();
    assert(course(out@) =~= Seq::empty());
    if n == 0 {
        return out;
    }
    let centre = points[n / 2];
    assert(point_near(at(points@[n as int / 2]), 4));
    assert(c[n as int / 2] == at(centre));
    let first = match find_upright(points) {
        Some((i, len)) => {
            if len >= MIN_UPRIGHT as i128 {
                let p = points[i];
                let q = points[i + 1];
                assert(point_near(at(points@[i as int]), 4) && point_near(at(points@[i + 1]), 4));
                assert(c[i as int] == at(p) && c[i + 1] == at(q));
                Point { x: p.x + BESIDE, y: half(p.y + q.y) }
            } else {
                centre
            }
        },
        None => centre,
    };
    out.push(first);
    assert(course(out@) =~= seq![at(first)]);
    if let Some((i, _)) = find_level(points) {
        assert(point_near(at(points@[i as int]), 4) && point_near(at(points@[i + 1]), 4));
        assert(c[i as int] == at(points@[i as int]) && c[i + 1] == at(points@[i + 1]));
        push_unique(&mut out, mid_point(points[i], points[i + 1]));
    }
    push_unique(&mut out, centre);
    let ghost start = course(out@);
    let mut k: usize = 1;
    while k < n
        invariant
            1 <= k <= n,
            n == points@.len(),
            c == course(points@),
            course_near(points@, 4),
            course_near(out@, 5),
            course(out@) == with_middles(start, c, k - 1),
        decreases n - k,
    {
        assert(point_near(at(points@[k - 1]), 4) && point_near(at(points@[k as int]), 4));
        assert(c[k - 1] == at(points@[k - 1]) && c[k as int] == at(points@[k as int]));
        push_unique(&mut out, mid_point(points[k - 1], points[k]));
        k += 1;
    }
    out
}

pub fn label_box(p: Point, width: Px) -> (r: Rect)
    requires
        point_near(at(p), 5),
        near(width as int, 1),
    ensures
        r@ == label_frame(at(p), width as int),
{
    let w: Px = half(width + LABEL_PAD);
    Rect { l: p.x - w, t: p.y - LABEL_HALF_H, r: p.x + w, b: p.y + LABEL_HALF_H }
}

fn rects_overlap(a: Rect, b: Rect) -> (r: bool)
    ensures
        r == overlap(a@, b@),
{
    a.l < b.r && a.r > b.l && a.t < b.b && a.b > b.t
}

fn label_is_free(p: Point, width: Px, spots: &Vec<Spot>, placed: &Vec<Rect>) -> (r: bool)
    requires
        point_near(at(p), 5),
        near(width as int, 1),
        spots_near(spots@),
    ensures
        r == is_free(at(p), width as int, spots@, frames(placed@)),
{
    let f = label_box(p, width);
    let mut i: usize = 0;
    while i < spots.len()
        invariant
            i <= spots@.len(),
            spots_near(spots@),
            f@ == label_frame(at(p), width as int),
            forall|k: int| 0 <= k < i ==> !overlap(f@, frame(#[trigger] spots@[k])),
        decreases spots@.len() - i,
    {
        if rects_overlap(f, node_rect(spots[i])) {
            assert(overlap(f@, frame(spots@[i as int])));
            return false;
        }
        i += 1;
    }
    let mut i: usize = 0;
    let ghost all = frames(placed@);
    while i < placed.len()
        invariant
            i <= placed@.len(),
            all == frames(placed@),
            f@ == label_frame(at(p), width as int),
            forall|k: int| 0 <= k < i ==> !overlap(f@, #[trigger] all[k]),
        decreases placed@.len() - i,
    {
        assert(all[i as int] == placed@[i as int]@);
        if rects_overlap(f, placed[i]) {
            return false;
        }
        i += 1;
    }
    true
}

/// Pick the first place at which the label is off all `spots` and off every
/// label that was placed before it, else the first place.
pub fn choose_label_pos(
    candidates: &Vec<Point>,
    width: Px,
    spots: &Vec<Spot>,
    placed: &Vec<Rect>,
) -> (r: Option<Point>)
    requires
        course_near(candidates@, 5),
        near(width as int, 1),
        spots_near(spots@),
    ensures
        match label_spot(course(candidates@), width as int, spots@, frames(placed@)) {
            Some(p) => r matches Some(q) && at(q) == p && point_near(at(q), 5),
            None => r is None,
        },
{
    let ghost c = course(candidates@);
    let ghost all = frames(placed@);
    let mut i: usize = 0;
    while i < candidates.len()
        invariant
            i <= candidates@.len(),
            c == course(candidates@),
            all == frames(placed@),
            course_near(candidates@, 5),
            near(width as int, 1),
            spots_near(spots@),
            free_from(c, 0, width as int, spots@, all) == free_from(
                c,
                i as int,
                width as int,
                spots@,
                all,
            ),
        decreases candidates@.len() - i,
    {
        let p = candidates[i];
        assert(point_near(at(candidates@[i as int]), 5));
        assert(c[i as int] == at(p));
        if label_is_free(p, width, spots, placed) {
            return Some(p);
        }
        i += 1;
    }
    if candidates.len() > 0 {
        assert(point_near(at(candidates@[0]), 5));
        assert(c[0] == at(candidates@[0]));
        Some(candidates[0])
    } else {
        None
    }
}

/// A label that some place leaves free is put where it is free.
pub proof fn law_label_avoids_boxes(
    c: Seq<(int, int)>,
    width: int,
    spots: Seq<Spot>,
    placed: Seq<Frame>,
    k: int,
)
    requires
        0 <= k < c.len(),
        is_free(c[k], width, spots, placed),
    ensures
        label_spot(c, width, spots, placed) matches Some(p) && is_free(p, width, spots, placed),
{
    lemma_free_from(c, 0, width, spots, placed, k);
}

proof fn lemma_free_from(
    c: Seq<(int, int)>,
    i: int,
    width: int,
    spots: Seq<Spot>,
    placed: Seq<Frame>,
    k: int,
)
    requires
        0 <= i <= k < c.len(),
        is_free(c[k], width, spots, placed),
    ensures
        free_from(c, i, width, spots, placed) matches Some(p) && is_free(p, width, spots, placed),
    decreases k - i,
{
    if !is_free(c[i], width, spots, placed) {
        lemma_free_from(c, i + 1, width, spots, placed, k);
    }
}

} // verus!
