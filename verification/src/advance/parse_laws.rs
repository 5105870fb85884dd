//! What holds of every diagram that can be read.

use vstd::prelude::*;

use crate::advance::ends::{end_side, lane_node_ids};
use crate::advance::lane_tree::{forest, lemma_subtree_end, subtree_end, LaneRecView};
use crate::advance::place::coverage::{in_tree, in_trees};
use crate::advance::place::layout::placeable;
use crate::advance::place::sequence::{tree_distinct, trees_distinct};
use crate::advance::read_json::{
    content_of, diagram_of, diagram_of_text, edges_from, lane_json, lanes_from, nodes_from,
};
use crate::advance::read_text::{
    diagram_of_notation, finish, initial, rec_ids, run_from, statements_from, step, styled_edges,
    styled_nodes, ReaderView, Statement,
};
use crate::advance::{DiagramView, LaneEdgeView, LaneNodeView, LaneView};
use crate::json::Json;
use crate::model::{distinct, lemma_name_from, name_index};
use crate::text::lines_seq;

verus! {

/// Whether a diagram is consistent: no node id occurs twice, every node is
/// in a lane of the diagram, and every edge connects nodes of it.
pub open spec fn consistent(d: DiagramView) -> bool {
    distinct(lane_node_ids(d.nodes)) && placeable(d)
}

/// Whether an edge connects two of the nodes.
spec fn connects(nodes: Seq<LaneNodeView>, e: LaneEdgeView) -> bool {
    name_index(lane_node_ids(nodes), e.from) is Some && name_index(lane_node_ids(nodes), e.to)
        is Some
}

/// Whether all edges connect two of the nodes.
spec fn all_connect(nodes: Seq<LaneNodeView>, edges: Seq<LaneEdgeView>) -> bool {
    forall|k: int| 0 <= k < edges.len() ==> connects(nodes, #[trigger] edges[k])
}

proof fn lemma_in_trees(lanes: Seq<LaneView>, id: Seq<char>, k: nat, j: int)
    requires
        0 <= j < k <= lanes.len(),
        in_tree(lanes[j], id),
    ensures
        in_trees(lanes, id, k),
    decreases k,
{
    if j < k - 1 {
        lemma_in_trees(lanes, id, (k - 1) as nat, j);
    }
}

proof fn lemma_which_tree(lanes: Seq<LaneView>, id: Seq<char>, k: nat) -> (j: int)
    requires
        in_trees(lanes, id, k),
    ensures
        0 <= j < k <= lanes.len(),
        in_tree(lanes[j], id),
    decreases k,
{
    if in_tree(lanes[k - 1], id) {
        k - 1
    } else {
        lemma_which_tree(lanes, id, (k - 1) as nat)
    }
}

/// Every record is somewhere in the lanes made of them.
proof fn lemma_forest(r: Seq<LaneRecView>, lo: int, hi: int, i: int)
    requires
        0 <= lo <= i < hi <= r.len(),
    ensures
        in_trees(forest(r, lo, hi), r[i].id, forest(r, lo, hi).len()),
    decreases hi - lo,
{
    lemma_subtree_end(r, lo, lo + 1, hi);
    let j = subtree_end(r, lo, lo + 1, hi);
    let lane = LaneView { id: r[lo].id, title: r[lo].title, children: forest(r, lo + 1, j) };
    let rest = forest(r, j, hi);
    let all = forest(r, lo, hi);
    assert(all == seq![lane] + rest);
    assert(all[0] == lane);
    if i < j {
        if i > lo {
            lemma_forest(r, lo + 1, j, i);
        }
        assert(in_tree(lane, r[i].id));
        lemma_in_trees(all, r[i].id, all.len(), 0);
    } else {
        lemma_forest(r, j, hi, i);
        let q = lemma_which_tree(rest, r[i].id, rest.len());
        assert(all[q + 1] == rest[q]);
        lemma_in_trees(all, r[i].id, all.len(), q + 1);
    }
}

/// Every id that reading a lane adds is in that lane.
proof fn lemma_lane_json(v: Json, depth: int, ids: Seq<Seq<char>>, id: Seq<char>)
    requires
        lane_json(v, depth, ids) is Ok,
        lane_json(v, depth, ids)->Ok_0.1.contains(id),
    ensures
        ids.contains(id) || in_tree(lane_json(v, depth, ids)->Ok_0.0, id),
    decreases 18 - depth, 0int,
{
    let o = crate::json::members_of(v)->Some_0;
    let own = crate::advance::read_json::text_member(o, "id"@)->Some_0;
    let lane = lane_json(v, depth, ids)->Ok_0.0;
    let with = ids.push(own);
    assert(lane.id == own);
    if id != own {
        match crate::advance::read_json::items_member(o, "children"@) {
            Some(a) => {
                lemma_lanes_from(a, 0, Seq::empty(), depth + 1, with, id);
                if with.contains(id) {
                    let k = choose|k: int| 0 <= k < with.len() && with[k] == id;
                    assert(ids[k] == id);
                }
            },
            None => {
                let k = choose|k: int| 0 <= k < with.len() && with[k] == id;
                assert(ids[k] == id);
            },
        }
    }
}

proof fn lemma_lanes_from(
    a: Seq<Json>,
    i: int,
    acc: Seq<LaneView>,
    depth: int,
    ids: Seq<Seq<char>>,
    id: Seq<char>,
)
    requires
        0 <= i,
        lanes_from(a, i, acc, depth, ids) is Ok,
        lanes_from(a, i, acc, depth, ids)->Ok_0.1.contains(id),
    ensures
        ({
            let lanes = lanes_from(a, i, acc, depth, ids)->Ok_0.0;
            ids.contains(id) || in_trees(lanes, id, lanes.len())
        }),
        acc.len() <= lanes_from(a, i, acc, depth, ids)->Ok_0.0.len(),
        forall|j: int|
            0 <= j < acc.len() ==> #[trigger] lanes_from(a, i, acc, depth, ids)->Ok_0.0[j]
                == acc[j],
    decreases 18 - depth, a.len() - i + 1,
{
    if i < a.len() {
        let (lane, more) = lane_json(a[i], depth, ids)->Ok_0;
        let next = acc.push(lane);
        lemma_lanes_from(a, i + 1, next, depth, more, id);
        let lanes = lanes_from(a, i, acc, depth, ids)->Ok_0.0;
        assert(lanes == lanes_from(a, i + 1, next, depth, more)->Ok_0.0);
        assert(lanes[acc.len() as int] == next[acc.len() as int]);
        assert forall|j: int| 0 <= j < acc.len() implies #[trigger] lanes[j] == acc[j] by {
            assert(next[j] == acc[j]);
        }
        if more.contains(id) {
            lemma_lane_json(a[i], depth, ids, id);
            if !ids.contains(id) {
                lemma_in_trees(lanes, id, lanes.len(), acc.len() as int);
            }
        }
    }
}

/// Whether the ids of a tree are among `more`, and none of them is among
/// `ids`.
spec fn new_ids(lane: LaneView, ids: Seq<Seq<char>>, more: Seq<Seq<char>>) -> bool {
    forall|id: Seq<char>| #[trigger] in_tree(lane, id) ==> more.contains(id) && !ids.contains(id)
}

/// A lane that was read holds no id twice, and none that was read before.
proof fn lemma_lane_distinct(v: Json, depth: int, ids: Seq<Seq<char>>)
    requires
        lane_json(v, depth, ids) is Ok,
    ensures
        tree_distinct(lane_json(v, depth, ids)->Ok_0.0),
        new_ids(lane_json(v, depth, ids)->Ok_0.0, ids, lane_json(v, depth, ids)->Ok_0.1),
        forall|id: Seq<char>| #[trigger]
            ids.contains(id) ==> lane_json(v, depth, ids)->Ok_0.1.contains(id),
    decreases 18 - depth, 0int,
{
    let o = crate::json::members_of(v)->Some_0;
    let own = crate::advance::read_json::text_member(o, "id"@)->Some_0;
    let (lane, more) = lane_json(v, depth, ids)->Ok_0;
    let with = ids.push(own);
    assert(with[ids.len() as int] == own);
    assert forall|id: Seq<char>| #[trigger] ids.contains(id) implies with.contains(id) by {
        let k = choose|k: int| 0 <= k < ids.len() && ids[k] == id;
        assert(with[k] == id);
    }
    match crate::advance::read_json::items_member(o, "children"@) {
        Some(a) => {
            lemma_lanes_distinct(a, 0, Seq::empty(), depth + 1, with);
        },
        None => {},
    }
    let n = lane.children.len();
    assert forall|id: Seq<char>| #[trigger] in_tree(lane, id) implies more.contains(id)
        && !ids.contains(id) by {
        if in_trees(lane.children, id, n) {
            assert(!with.contains(id));
        } else {
            assert(with.contains(own));
        }
    }
    assert(with.contains(own));
}

proof fn lemma_lanes_distinct(
    a: Seq<Json>,
    i: int,
    acc: Seq<LaneView>,
    depth: int,
    ids: Seq<Seq<char>>,
)
    requires
        0 <= i,
        lanes_from(a, i, acc, depth, ids) is Ok,
        trees_distinct(acc, acc.len()),
        forall|id: Seq<char>| #[trigger] in_trees(acc, id, acc.len()) ==> ids.contains(id),
    ensures
        ({
            let (lanes, more) = lanes_from(a, i, acc, depth, ids)->Ok_0;
            &&& trees_distinct(lanes, lanes.len())
            &&& forall|id: Seq<char>| #[trigger] ids.contains(id) ==> more.contains(id)
            &&& forall|id: Seq<char>| #[trigger]
                in_trees(lanes, id, lanes.len()) ==> more.contains(id)
            &&& forall|id: Seq<char>| #[trigger]
                in_trees(lanes, id, lanes.len()) && ids.contains(id) ==> in_trees(
                    acc,
                    id,
                    acc.len(),
                )
        }),
    decreases 18 - depth, a.len() - i + 1,
{
    if i < a.len() {
        let (lane, more) = lane_json(a[i], depth, ids)->Ok_0;
        let next = acc.push(lane);
        lemma_lane_distinct(a[i], depth, ids);
        lemma_longer(acc, lane, acc.len());
        assert forall|id: Seq<char>| in_trees(next, id, next.len()) == (in_trees(
            acc,
            id,
            acc.len(),
        ) || in_tree(lane, id)) by {
            lemma_longer_in(acc, lane, id, acc.len());
        }
        assert forall|id: Seq<char>| #[trigger] in_tree(next[next.len() - 1], id) implies !in_trees(
            next,
            id,
            acc.len(),
        ) by {
            lemma_longer_in(acc, lane, id, acc.len());
            if in_trees(acc, id, acc.len()) {
                assert(ids.contains(id));
            }
        }
        assert(trees_distinct(next, next.len()));
        assert forall|id: Seq<char>| #[trigger] in_trees(next, id, next.len()) implies more.contains(
            id,
        ) by {
            lemma_longer_in(acc, lane, id, acc.len());
            if in_trees(acc, id, acc.len()) {
                assert(ids.contains(id));
            } else {
                assert(in_tree(lane, id));
            }
        }
        lemma_lanes_distinct(a, i + 1, next, depth, more);
        let (lanes, all) = lanes_from(a, i, acc, depth, ids)->Ok_0;
        assert((lanes, all) == lanes_from(a, i + 1, next, depth, more)->Ok_0);
        assert forall|id: Seq<char>| #[trigger]
            in_trees(lanes, id, lanes.len()) && ids.contains(id) implies in_trees(
            acc,
            id,
            acc.len(),
        ) by {
            assert(more.contains(id));
            assert(in_trees(next, id, next.len()));
            lemma_longer_in(acc, lane, id, acc.len());
        }
    }
}

proof fn lemma_longer_in(acc: Seq<LaneView>, lane: LaneView, id: Seq<char>, k: nat)
    requires
        k <= acc.len(),
    ensures
        in_trees(acc.push(lane), id, k) == in_trees(acc, id, k),
        in_trees(acc.push(lane), id, acc.len() + 1) == (in_trees(acc.push(lane), id, acc.len())
            || in_tree(lane, id)),
    decreases k,
{
    assert(acc.push(lane)[acc.len() as int] == lane);
    if k > 0 {
        lemma_longer_in(acc, lane, id, (k - 1) as nat);
        assert(acc.push(lane)[k - 1] == acc[k - 1]);
    }
}

proof fn lemma_longer(acc: Seq<LaneView>, lane: LaneView, k: nat)
    requires
        k <= acc.len(),
        trees_distinct(acc, k),
    ensures
        trees_distinct(acc.push(lane), k),
    decreases k,
{
    if k > 0 {
        let j = (k - 1) as nat;
        lemma_longer(acc, lane, j);
        assert(acc.push(lane)[k - 1] == acc[k - 1]);
        assert forall|id: Seq<char>| #[trigger] in_tree(acc.push(lane)[k - 1], id) implies !in_trees(
            acc.push(lane),
            id,
            j,
        ) by {
            lemma_longer_in(acc, lane, id, j);
            assert(in_tree(acc[k - 1], id));
        }
    }
}

/// No lane id occurs twice in a diagram read from JSON.
pub proof fn law_parsed_lanes_are_distinct(source: Seq<char>)
    requires
        diagram_of_text(source) is Ok,
    ensures
        ({
            let d = diagram_of_text(source)->Ok_0;
            trees_distinct(d.lanes, d.lanes.len())
        }),
{
    let v = crate::json::read_json(source)->Ok_0;
    let o = crate::json::members_of(v)->Some_0;
    assert(content_of(o) is Ok);
    let la = crate::advance::read_json::items_member(o, "lanes"@)->Some_0;
    lemma_lanes_distinct(la, 0, Seq::empty(), 1, Seq::empty());
}

/// Reading nodes keeps ids distinct, and puts each node in a known lane.
proof fn lemma_nodes_from(a: Seq<Json>, i: int, acc: Seq<LaneNodeView>, lanes: Seq<Seq<char>>)
    requires
        nodes_from(a, i, acc, lanes) is Ok,
        distinct(lane_node_ids(acc)),
        forall|j: int| 0 <= j < acc.len() ==> lanes.contains((#[trigger] acc[j]).lane),
    ensures
        distinct(lane_node_ids(nodes_from(a, i, acc, lanes)->Ok_0)),
        ({
            let n = nodes_from(a, i, acc, lanes)->Ok_0;
            forall|j: int| 0 <= j < n.len() ==> lanes.contains((#[trigger] n[j]).lane)
        }),
    decreases a.len() - i,
{
    if 0 <= i < a.len() {
        let n = crate::advance::read_json::node_json(a[i], i, lanes, lane_node_ids(acc))->Ok_0;
        lemma_name_from(lane_node_ids(acc), n.id, 0);
        lemma_push(acc, n);
        lemma_nodes_from(a, i + 1, acc.push(n), lanes);
    }
}

proof fn lemma_push(acc: Seq<LaneNodeView>, n: LaneNodeView)
    requires
        distinct(lane_node_ids(acc)),
        name_index(lane_node_ids(acc), n.id) is None,
    ensures
        distinct(lane_node_ids(acc.push(n))),
{
    let ids = lane_node_ids(acc);
    lemma_name_from(ids, n.id, 0);
    assert(lane_node_ids(acc.push(n)) =~= ids.push(n.id));
}

proof fn lemma_end(nodes: Seq<LaneNodeView>, end: crate::advance::EndView)
    requires
        end_side(nodes, end) is Ok,
    ensures
        name_index(lane_node_ids(nodes), end.node) is Some,
{
}

/// Read edges connect known nodes.
proof fn lemma_edges_from(
    a: Seq<Json>,
    i: int,
    acc: Seq<LaneEdgeView>,
    nodes: Seq<LaneNodeView>,
)
    requires
        edges_from(a, i, acc, nodes) is Ok,
        all_connect(nodes, acc),
    ensures
        all_connect(nodes, edges_from(a, i, acc, nodes)->Ok_0),
    decreases a.len() - i,
{
    if 0 <= i < a.len() {
        let e = crate::advance::read_json::edge_json(a[i], i, nodes)->Ok_0;
        lemma_end(nodes, e.from_end);
        lemma_end(nodes, e.to_end);
        assert(connects(nodes, e));
        lemma_edges_from(a, i + 1, acc.push(e), nodes);
    }
}

/// Every diagram read from JSON is consistent.
pub proof fn law_parsed_diagram_is_consistent(source: Seq<char>)
    requires
        diagram_of_text(source) is Ok,
    ensures
        consistent(diagram_of_text(source)->Ok_0),
{
    let v = crate::json::read_json(source)->Ok_0;
    let o = crate::json::members_of(v)->Some_0;
    let d = diagram_of(v)->Ok_0;
    assert(content_of(o) is Ok);
    let la = crate::advance::read_json::items_member(o, "lanes"@)->Some_0;
    let na = crate::advance::read_json::items_member(o, "nodes"@)->Some_0;
    let ea = match crate::advance::read_json::items_member(o, "edges"@) {
        Some(a) => a,
        None => Seq::empty(),
    };
    let none: Seq<Seq<char>> = Seq::empty();
    let (lanes, ids) = lanes_from(la, 0, Seq::empty(), 1, none)->Ok_0;
    lemma_nodes_from(na, 0, Seq::empty(), ids);
    lemma_edges_from(ea, 0, Seq::empty(), d.nodes);
    assert forall|i: int| 0 <= i < d.nodes.len() implies in_trees(
        d.lanes,
        (#[trigger] d.nodes[i]).lane,
        d.lanes.len(),
    ) by {
        assert(ids.contains(d.nodes[i].lane));
        lemma_lanes_from(la, 0, Seq::empty(), 1, none, d.nodes[i].lane);
    }
    assert forall|k: int| 0 <= k < d.edges.len() implies connects(
        d.nodes,
        #[trigger] d.edges[k],
    ) by {}
}

/// Whether a lane id is declared.
spec fn known(st: ReaderView, id: Seq<char>) -> bool {
    rec_ids(st.lanes.recs).contains(id)
}

/// What holds between any two statements.
spec fn sane(st: ReaderView) -> bool {
    &&& distinct(lane_node_ids(st.nodes))
    &&& forall|i: int| 0 <= i < st.nodes.len() ==> known(st, (#[trigger] st.nodes[i]).lane)
    &&& all_connect(st.nodes, st.edges)
    &&& st.blocks.node matches Some(n) ==> known(st, n.lane) && name_index(
        lane_node_ids(st.nodes),
        n.id,
    ) is None
    &&& st.lanes.current matches Some(id) ==> known(st, id)
    &&& forall|i: int|
        0 <= i < st.lanes.stack.len() ==> 0 <= #[trigger] st.lanes.stack[i] < st.lanes.recs.len()
}

proof fn lemma_known(st: ReaderView, next: ReaderView, id: Seq<char>)
    requires
        known(st, id),
        st.lanes.recs.len() <= next.lanes.recs.len(),
        forall|i: int|
            0 <= i < st.lanes.recs.len() ==> #[trigger] next.lanes.recs[i] == st.lanes.recs[i],
    ensures
        known(next, id),
{
    let a = rec_ids(st.lanes.recs);
    let k = choose|k: int| 0 <= k < a.len() && a[k] == id;
    assert(next.lanes.recs[k] == st.lanes.recs[k]);
    assert(rec_ids(next.lanes.recs)[k] == id);
}

proof fn lemma_more_nodes(st: ReaderView, n: LaneNodeView)
    requires
        sane(st),
        known(st, n.lane),
        name_index(lane_node_ids(st.nodes), n.id) is None,
    ensures
        distinct(lane_node_ids(st.nodes.push(n))),
        forall|i: int|
            0 <= i < st.nodes.len() + 1 ==> known(st, (#[trigger] st.nodes.push(n)[i]).lane),
        all_connect(st.nodes.push(n), st.edges),
{
    lemma_push(st.nodes, n);
    let ids = lane_node_ids(st.nodes);
    let more = lane_node_ids(st.nodes.push(n));
    assert forall|k: int| 0 <= k < st.edges.len() implies connects(
        st.nodes.push(n),
        #[trigger] st.edges[k],
    ) by {
        let e = st.edges[k];
        assert(connects(st.nodes, e));
        lemma_name_from(ids, e.from, 0);
        lemma_name_from(ids, e.to, 0);
        let i = name_index(ids, e.from)->Some_0;
        let j = name_index(ids, e.to)->Some_0;
        assert(more[i] == ids[i] && more[j] == ids[j]);
        lemma_name_from(more, e.from, 0);
        lemma_name_from(more, e.to, 0);
    }
}

proof fn lemma_closed(st: ReaderView)
    requires
        sane(st),
        crate::advance::read_text::close_brace(st) is Ok,
    ensures
        sane(crate::advance::read_text::close_brace(st)->Ok_0),
{
    let next = crate::advance::read_text::close_brace(st)->Ok_0;
    assert(next.lanes.recs == st.lanes.recs);
    assert(forall|id: Seq<char>| known(next, id) == known(st, id));
    match st.blocks.frames.last() {
        crate::advance::read_text::Frame::Lane => {
            let stack = next.lanes.stack;
            if stack.len() > 0 {
                let k = stack.last();
                assert(st.lanes.stack[stack.len() - 1] == k);
                assert(rec_ids(st.lanes.recs)[k] == st.lanes.recs[k].id);
                assert(known(st, st.lanes.recs[k].id));
            }
            assert forall|i: int| 0 <= i < stack.len() implies 0 <= #[trigger] stack[i]
                < next.lanes.recs.len() by {
                assert(stack[i] == st.lanes.stack[i]);
            }
        },
        crate::advance::read_text::Frame::Node => {
            if st.blocks.open.len() == 0 {
                if let Some(n) = st.blocks.node {
                    lemma_more_nodes(st, n);
                }
            }
        },
    }
}

proof fn lemma_lane(st: ReaderView, n: int, line: Seq<char>)
    requires
        sane(st),
        crate::advance::read_text::declare_lane(st.lanes, st.blocks.frames, n, line) is Ok,
    ensures
        ({
            let (lanes, frames) = crate::advance::read_text::declare_lane(
                st.lanes,
                st.blocks.frames,
                n,
                line,
            )->Ok_0;
            sane(
                ReaderView {
                    lanes,
                    blocks: crate::advance::read_text::BlocksView { frames, ..st.blocks },
                    ..st
                },
            )
        }),
{
    let (lanes, frames) = crate::advance::read_text::declare_lane(
        st.lanes,
        st.blocks.frames,
        n,
        line,
    )->Ok_0;
    let next = ReaderView {
        lanes,
        blocks: crate::advance::read_text::BlocksView { frames, ..st.blocks },
        ..st
    };
    let last = st.lanes.recs.len() as int;
    let id = lanes.recs[last].id;
    assert(rec_ids(lanes.recs)[last] == id);
    assert(known(next, id));
    assert forall|i: int| 0 <= i < next.nodes.len() implies known(
        next,
        (#[trigger] next.nodes[i]).lane,
    ) by {
        assert(known(st, st.nodes[i].lane));
        lemma_known(st, next, st.nodes[i].lane);
    }
    if let Some(m) = st.blocks.node {
        lemma_known(st, next, m.lane);
    }
    assert forall|i: int| 0 <= i < lanes.stack.len() implies 0 <= #[trigger] lanes.stack[i]
        < lanes.recs.len() by {
        if i < st.lanes.stack.len() {
            assert(lanes.stack[i] == st.lanes.stack[i]);
        }
    }
}

proof fn lemma_step(st: ReaderView, n: int, line: Seq<char>)
    requires
        sane(st),
        step(st, n, line) is Ok,
    ensures
        sane(step(st, n, line)->Ok_0),
{
    let next = step(st, n, line)->Ok_0;
    if crate::advance::read_text::is_silent(line) {
    } else if line == "}"@ {
        lemma_closed(st);
    } else if st.blocks.node is Some {
        assert(next.blocks.node->Some_0.id == st.blocks.node->Some_0.id);
        assert(next.blocks.node->Some_0.lane == st.blocks.node->Some_0.lane);
        assert(next.blocks.node is Some);
        assert(known(next, next.blocks.node->Some_0.lane));
        assert forall|i: int| 0 <= i < next.nodes.len() implies known(
            next,
            (#[trigger] next.nodes[i]).lane,
        ) by {
            assert(known(st, st.nodes[i].lane));
        }
    } else if crate::advance::read_text::is_head(line) || crate::advance::read_text::is_styling(
        line,
    ) {
        assert forall|i: int| 0 <= i < next.nodes.len() implies known(
            next,
            (#[trigger] next.nodes[i]).lane,
        ) by {
            assert(known(st, st.nodes[i].lane));
        }
    } else if crate::text::has_prefix(line, "lane "@) {
        lemma_lane(st, n, line);
    } else if crate::advance::read_text::cut_edge(line) is Some {
        let e = crate::advance::read_text::declare_edge(st.nodes, line)->Ok_0;
        lemma_end(st.nodes, e.from_end);
        lemma_end(st.nodes, e.to_end);
        assert(connects(st.nodes, e));
        assert forall|i: int| 0 <= i < next.nodes.len() implies known(
            next,
            (#[trigger] next.nodes[i]).lane,
        ) by {
            assert(known(st, st.nodes[i].lane));
        }
        assert(all_connect(next.nodes, next.edges));
    } else {
        assert(next.lanes == st.lanes);
        if next.nodes != st.nodes {
            let node = next.nodes.last();
            assert(next.nodes =~= st.nodes.push(node));
            lemma_more_nodes(st, node);
            assert forall|i: int| 0 <= i < next.nodes.len() implies known(
                next,
                (#[trigger] next.nodes[i]).lane,
            ) by {
                assert(known(st, st.nodes.push(node)[i].lane));
            }
        } else {
            assert forall|i: int| 0 <= i < next.nodes.len() implies known(
                next,
                (#[trigger] next.nodes[i]).lane,
            ) by {
                assert(known(st, st.nodes[i].lane));
            }
        }
    }
}

proof fn lemma_run(s: Seq<Statement>, i: int, st: ReaderView)
    requires
        sane(st),
        run_from(s, i, st) is Ok,
    ensures
        sane(run_from(s, i, st)->Ok_0),
    decreases s.len() - i,
{
    if 0 <= i < s.len() {
        lemma_step(st, s[i].0, s[i].1);
        lemma_run(s, i + 1, step(st, s[i].0, s[i].1)->Ok_0);
    }
}

/// Every diagram read from the line notation is consistent.
pub proof fn law_noted_diagram_is_consistent(source: Seq<char>)
    requires
        diagram_of_notation(source) is Ok,
    ensures
        consistent(diagram_of_notation(source)->Ok_0),
{
    let s = statements_from(lines_seq(source), 0);
    let start = initial();
    assert(lane_node_ids(start.nodes) =~= Seq::empty());
    assert(sane(start));
    lemma_run(s, 0, start);
    let st = run_from(s, 0, start)->Ok_0;
    let d = diagram_of_notation(source)->Ok_0;
    assert(finish(st) == Ok::<DiagramView, crate::advance::read_text::Failure>(d));
    assert(d.nodes == styled_nodes(st.styles, st.nodes));
    assert(d.edges == styled_edges(st.styles, st.edges));
    assert(lane_node_ids(d.nodes) =~= lane_node_ids(st.nodes));
    let recs = st.lanes.recs;
    assert forall|i: int| 0 <= i < d.nodes.len() implies in_trees(
        d.lanes,
        (#[trigger] d.nodes[i]).lane,
        d.lanes.len(),
    ) by {
        assert(d.nodes[i].lane == st.nodes[i].lane);
        assert(known(st, st.nodes[i].lane));
        let ids = rec_ids(recs);
        let k = choose|k: int| 0 <= k < ids.len() && ids[k] == st.nodes[i].lane;
        assert(ids[k] == recs[k].id);
        lemma_forest(recs, 0, recs.len() as int, k);
    }
    assert forall|k: int| 0 <= k < d.edges.len() implies connects(
        d.nodes,
        #[trigger] d.edges[k],
    ) by {
        assert(connects(st.nodes, st.edges[k]));
        assert(d.edges[k].from == st.edges[k].from && d.edges[k].to == st.edges[k].to);
    }
}

} // verus!
