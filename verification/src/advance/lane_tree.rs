//! Lanes as a tree: nesting flat records by their depth, and listing a tree
//! in declaration order.

use vstd::prelude::*;

use crate::advance::{lane_view, lane_views, AdvanceLane, LaneView};

verus! {

/// A lane declaration: id, title, and how many blocks it stands in.
#[derive(Debug)]
pub struct LaneRec {
    pub id: String,
    pub title: String,
    pub depth: usize,
}

/// A [`LaneRec`] in mathematical terms.
#[verifier::ext_equal]
pub struct LaneRecView {
    pub id: Seq<char>,
    pub title: Seq<char>,
    pub depth: int,
}

impl View for LaneRec {
    type V = LaneRecView;

    open spec fn view(&self) -> LaneRecView {
        LaneRecView { id: self.id@, title: self.title@, depth: self.depth as int }
    }
}

pub open spec fn rec_views(r: Seq<LaneRec>) -> Seq<LaneRecView> {
    r.map_values(|x: LaneRec| x@)
}

/// The end of the records that belong under record `lo`: the first position
/// behind it, from `i` on, whose depth is not greater.
pub open spec fn subtree_end(r: Seq<LaneRecView>, lo: int, i: int, hi: int) -> int
    decreases hi - i,
{
    if i >= hi || r[i].depth <= r[lo].depth {
        i
    } else {
        subtree_end(r, lo, i + 1, hi)
    }
}

pub proof fn lemma_subtree_end(r: Seq<LaneRecView>, lo: int, i: int, hi: int)
    requires
        i <= hi,
    ensures
        i <= subtree_end(r, lo, i, hi) <= hi,
        forall|j: int| i <= j < subtree_end(r, lo, i, hi) ==> r[j].depth > r[lo].depth,
    decreases hi - i,
{
    if i < hi && r[i].depth > r[lo].depth {
        lemma_subtree_end(r, lo, i + 1, hi);
    }
}

/// The lanes of records `lo` up to `hi`: a record's parent is the nearest
/// record before it with a smaller depth.
pub open spec fn forest(r: Seq<LaneRecView>, lo: int, hi: int) -> Seq<LaneView>
    decreases hi - lo,
{
    if lo >= hi {
        Seq::empty()
    } else {
        proof {
            lemma_subtree_end(r, lo, lo + 1, hi);
        }
        let j = subtree_end(r, lo, lo + 1, hi);
        let lane = LaneView {
            id: r[lo].id,
            title: r[lo].title,
            children: forest(r, lo + 1, j),
        };
        seq![lane] + forest(r, j, hi)
    }
}

fn build_forest(r: &Vec<LaneRec>, lo: usize, hi: usize) -> (out: Vec<AdvanceLane>)
    requires
        lo <= hi <= r@.len(),
    ensures
        lane_views(out@) == forest(rec_views(r@), lo as int, hi as int),
    decreases hi - lo,
{
    let ghost views = rec_views(r@);
    let mut out: Vec<AdvanceLane> = Vec::new();
    let mut at: usize = lo;
    assert(lane_views(out@) + forest(views, lo as int, hi as int) =~= forest(
        views,
        lo as int,
        hi as int,
    ));
    while at < hi
        invariant
            lo <= at <= hi <= r@.len(),
            views == rec_views(r@),
            lane_views(out@) + forest(views, at as int, hi as int) == forest(
                views,
                lo as int,
                hi as int,
            ),
        decreases hi - at,
    {
        let mut j: usize = at + 1;
        proof {
            lemma_subtree_end(views, at as int, at as int + 1, hi as int);
        }
        while j < hi && r[j].depth > r[at].depth
            invariant
                at < j <= hi <= r@.len(),
                views == rec_views(r@),
                subtree_end(views, at as int, at as int + 1, hi as int) == subtree_end(
                    views,
                    at as int,
                    j as int,
                    hi as int,
                ),
            decreases hi - j,
        {
            j += 1;
        }
        let children = build_forest(r, at + 1, j);
        let lane = AdvanceLane { id: r[at].id.clone(), title: r[at].title.clone(), children };
        let ghost before = out@;
        let ghost item = lane@;
        out.push(lane);
        assert(lane_views(out@) =~= lane_views(before).push(item));
        assert(lane_views(before) + (seq![item] + forest(views, j as int, hi as int))
            =~= lane_views(out@) + forest(views, j as int, hi as int));
        at = j;
    }
    assert(lane_views(out@) + forest(views, at as int, hi as int) =~= lane_views(out@));
    out
}

/// Nest the lane records: a record's parent is the nearest record before it
/// with a smaller depth.
pub fn assemble_lane_tree(r: &Vec<LaneRec>) -> (out: Vec<AdvanceLane>)
    ensures
        lane_views(out@) == forest(rec_views(r@), 0, r@.len() as int),
{
    build_forest(r, 0, r.len())
}

/// The lanes of a forest in declaration order: each before its children,
/// those before the next.
pub open spec fn preorder(l: Seq<LaneView>) -> Seq<LaneView>
    decreases l,
{
    if l.len() == 0 {
        Seq::empty()
    } else {
        seq![l[0]] + preorder(l[0].children) + preorder(l.skip(1))
    }
}

/// Nesting keeps every record, in order: listing the tree gives the ids and
/// titles of the records back.
pub proof fn law_forest_keeps_records(r: Seq<LaneRecView>, lo: int, hi: int)
    requires
        0 <= lo <= hi <= r.len(),
    ensures
        preorder(forest(r, lo, hi)).len() == hi - lo,
        forall|k: int|
            0 <= k < hi - lo ==> (#[trigger] preorder(forest(r, lo, hi))[k]).id == r[lo + k].id
                && preorder(forest(r, lo, hi))[k].title == r[lo + k].title,
    decreases hi - lo,
{
    if lo < hi {
        lemma_subtree_end(r, lo, lo + 1, hi);
        let j = subtree_end(r, lo, lo + 1, hi);
        let f = forest(r, lo, hi);
        law_forest_keeps_records(r, lo + 1, j);
        law_forest_keeps_records(r, j, hi);
        assert(f.skip(1) =~= forest(r, j, hi));
        let p = preorder(f);
        let a = preorder(forest(r, lo + 1, j));
        let b = preorder(forest(r, j, hi));
        assert(p == seq![f[0]] + a + b);
        assert forall|k: int| 0 <= k < hi - lo implies (#[trigger] p[k]).id == r[lo + k].id
            && p[k].title == r[lo + k].title by {
            if k == 0 {
            } else if k < 1 + a.len() {
                assert(p[k] == a[k - 1]);
                assert(a[k - 1].id == r[lo + 1 + (k - 1)].id);
            } else {
                assert(p[k] == b[k - 1 - a.len()]);
                assert(b[k - 1 - a.len()].id == r[j + (k - 1 - a.len())].id);
            }
        }
    }
}

/// The lanes that a list of references points to.
pub open spec fn ref_views(v: Seq<&AdvanceLane>) -> Seq<LaneView> {
    v.map_values(|l: &AdvanceLane| lane_view(*l))
}

/// Append the lanes in declaration order.
pub fn collect_all_lanes<'a>(lanes: &'a Vec<AdvanceLane>, out: &mut Vec<&'a AdvanceLane>)
    ensures
        ref_views(final(out)@) == ref_views(old(out)@) + preorder(lane_views(lanes@)),
    decreases lanes,
{
    let ghost all = lane_views(lanes@);
    let ghost start = ref_views(out@);
    let mut i: usize = 0;
    assert(all.skip(0) =~= all);
    while i < lanes.len()
        invariant
            i <= lanes@.len(),
            all == lane_views(lanes@),
            ref_views(out@) + preorder(all.skip(i as int)) == start + preorder(all),
        decreases lanes@.len() - i,
    {
        let ghost before = out@;
        let ghost rest = all.skip(i as int);
        let l: &'a AdvanceLane = &lanes[i];
        assert(rest[0] == lane_view(*l));
        out.push(l);
        assert(ref_views(out@) =~= ref_views(before).push(rest[0]));
        collect_all_lanes(&l.children, out);
        assert(rest.skip(1) =~= all.skip(i as int + 1));
        assert(ref_views(before) + (seq![rest[0]] + preorder(rest[0].children) + preorder(
            rest.skip(1),
        )) =~= ref_views(out@) + preorder(all.skip(i as int + 1)));
        i += 1;
    }
    assert(ref_views(out@) + preorder(all.skip(i as int)) =~= ref_views(out@));
}

} // verus!
