//! Edge ends: the reference grammar `node.element@anchor`, and where a
//! reference may attach.

use vstd::prelude::*;

use crate::advance::{
    anchor_views, element_view, element_views, lane_node_views, side_name, AdvanceAnchor,
    AdvanceElement, AdvanceEnd, AdvanceNode, AdvanceSide, AnchorRef, AnchorRefView, AnchorView,
    ElementLayout, ElementView, EndView, LaneNodeView,
};
use crate::model::{name_from, name_index};
use crate::num::{in_unit, number, parse_num, Num};
use crate::text::{
    cat, cat3, cat5, chars_of, contains_char, eq, has_char, last_index, rfind_char, split_char,
    split_seq, str_eq, string_of, strings, texts, trim, trim_seq, words, words_seq,
};

verus! {

/// The side that a keyword names.
pub open spec fn side_of(s: Seq<char>) -> Option<AdvanceSide> {
    if s == "left"@ {
        Some(AdvanceSide::Left)
    } else if s == "right"@ {
        Some(AdvanceSide::Right)
    } else if s == "top"@ {
        Some(AdvanceSide::Top)
    } else if s == "bottom"@ {
        Some(AdvanceSide::Bottom)
    } else {
        None
    }
}

pub fn parse_side(s: &[char]) -> (r: Option<AdvanceSide>)
    ensures
        r == side_of(s@),
{
    if eq(s, "left") {
        Some(AdvanceSide::Left)
    } else if eq(s, "right") {
        Some(AdvanceSide::Right)
    } else if eq(s, "top") {
        Some(AdvanceSide::Top)
    } else if eq(s, "bottom") {
        Some(AdvanceSide::Bottom)
    } else {
        None
    }
}

/// Every side is what its keyword names.
pub proof fn law_side_name(side: AdvanceSide)
    ensures
        side_of(side_name(side)) == Some(side),
{
    reveal_strlit("left");
    reveal_strlit("right");
    reveal_strlit("top");
    reveal_strlit("bottom");
    assert("left"@.len() != "right"@.len());
    assert("left"@.len() != "top"@.len());
    assert("top"@.len() != "right"@.len());
    assert("bottom"@.len() == 6);
}

/// The layout that a keyword names.
pub open spec fn layout_of(s: Seq<char>) -> Option<ElementLayout> {
    if s == "column"@ || s == "col"@ {
        Some(ElementLayout::Column)
    } else if s == "row"@ {
        Some(ElementLayout::Row)
    } else {
        None
    }
}

pub fn parse_layout_word(s: &[char]) -> (r: Option<ElementLayout>)
    ensures
        r == layout_of(s@),
{
    if eq(s, "column") || eq(s, "col") {
        Some(ElementLayout::Column)
    } else if eq(s, "row") {
        Some(ElementLayout::Row)
    } else {
        None
    }
}

/// Every layout is what its keyword names.
pub proof fn law_layout_name(l: ElementLayout)
    ensures
        layout_of(crate::advance::layout_name(l)) == Some(l),
{
    reveal_strlit("column");
    reveal_strlit("col");
    reveal_strlit("row");
    assert("col"@[0] == 'c' && "row"@[0] == 'r');
}

/// `node` and the names of `path`, each after a full stop.
pub open spec fn dotted(node: Seq<char>, path: Seq<Seq<char>>) -> Seq<char>
    decreases path.len(),
{
    if path.len() == 0 {
        node
    } else {
        dotted(node, path.drop_last()) + "."@ + path.last()
    }
}

fn dotted_string(node: &str, path: &Vec<String>) -> (r: String)
    ensures
        r@ == dotted(node@, strings(path@)),
{
    let ghost names = strings(path@);
    let mut r = node.to_owned();
    let mut i: usize = 0;
    assert(names.take(0).len() == 0);
    while i < path.len()
        invariant
            i <= path@.len(),
            names == strings(path@),
            r@ == dotted(node@, names.take(i as int)),
        decreases path@.len() - i,
    {
        r.append(".");
        r.append(path[i].as_str());
        assert(names.take(i as int + 1).drop_last() =~= names.take(i as int));
        i += 1;
    }
    assert(names.take(names.len() as int) =~= names);
    r
}

/// An end as it is written in the text notation.
pub open spec fn end_ref(e: EndView) -> Seq<char> {
    match e.at {
        None => dotted(e.node, e.path),
        Some(AnchorRefView::Side(s)) => dotted(e.node, e.path) + ":"@ + side_name(s),
        Some(AnchorRefView::Named(a)) => dotted(e.node, e.path) + "@"@ + a,
    }
}

/// An end as it is written in JSON: a plain side travels apart.
pub open spec fn json_end_ref(e: EndView) -> Seq<char> {
    match e.at {
        Some(AnchorRefView::Named(a)) => dotted(e.node, e.path) + "@"@ + a,
        _ => dotted(e.node, e.path),
    }
}

/// Whether an end names something finer than a node side.
pub open spec fn terminal(e: EndView) -> bool {
    e.path.len() > 0 || e.at matches Some(AnchorRefView::Named(_))
}

impl AdvanceEnd {
    /// A plain node reference with no path and no anchor.
    pub fn node(id: &str) -> (r: Self)
        ensures
            r@ == (EndView { node: id@, path: Seq::empty(), at: None }),
    {
        let r = AdvanceEnd { node: id.to_owned(), path: Vec::new(), at: None };
        assert(strings(r.path@) =~= Seq::empty());
        r
    }

    /// Whether this end names something finer than a node side: a
    /// sub-element or a named anchor.
    pub fn is_terminal(&self) -> (r: bool)
        ensures
            r == terminal(self@),
    {
        self.path.len() > 0 || matches!(self.at, Some(AnchorRef::Named(_)))
    }

    /// The reference as it is written in the text notation.
    pub fn to_ref(&self) -> (r: String)
        ensures
            r@ == end_ref(self@),
    {
        let s = dotted_string(self.node.as_str(), &self.path);
        match &self.at {
            Some(AnchorRef::Side(side)) => cat3(s.as_str(), ":", side.name()),
            Some(AnchorRef::Named(a)) => cat3(s.as_str(), "@", a.as_str()),
            None => s,
        }
    }
}

/// The reference as it is written in JSON.
pub fn end_ref_for_json(end: &AdvanceEnd) -> (r: String)
    ensures
        r@ == json_end_ref(end@),
{
    let s = dotted_string(end.node.as_str(), &end.path);
    match &end.at {
        Some(AnchorRef::Named(a)) => cat3(s.as_str(), "@", a.as_str()),
        _ => s,
    }
}

/// What stands before the anchor or side of a reference, and that anchor or
/// side.
pub open spec fn cut_anchor(s: Seq<char>) -> Result<
    (Seq<char>, Option<AnchorRefView>),
    Seq<char>,
> {
    match last_index(s, '@') {
        Some(k) => {
            let a = s.skip(k + 1);
            if a.len() == 0 || has_char(a, '.') || has_char(a, ':') {
                Err("invalid anchor reference '"@ + s + "'"@)
            } else {
                Ok((s.take(k), Some(AnchorRefView::Named(a))))
            }
        },
        None => match last_index(s, ':') {
            Some(k) => match side_of(s.skip(k + 1)) {
                Some(side) if k > 0 && s[k - 1] != ':' => Ok(
                    (s.take(k), Some(AnchorRefView::Side(side))),
                ),
                _ => Ok((s, None)),
            },
            None => Ok((s, None)),
        },
    }
}

/// The names of a path, each without the white space around it.
pub open spec fn trimmed(segs: Seq<Seq<char>>) -> Seq<Seq<char>> {
    segs.map_values(|t: Seq<char>| trim_seq(t))
}

/// Whether one of the names is empty.
pub open spec fn has_empty(names: Seq<Seq<char>>) -> bool {
    exists|i: int| 0 <= i < names.len() && (#[trigger] names[i]).len() == 0
}

/// The edge end that `text` writes:
/// `node ('.' element)* ('@' anchor | ':' side)?`. A `:` in front of a word
/// that is no side keyword belongs to the id.
pub open spec fn end_of(text: Seq<char>) -> Result<EndView, Seq<char>> {
    let s = trim_seq(text);
    match cut_anchor(s) {
        Err(m) => Err(m),
        Ok((head, at)) => {
            let names = trimmed(split_seq(head, '.'));
            if names[0].len() == 0 {
                Err("invalid edge end '"@ + s + "'"@)
            } else if has_empty(names.skip(1)) {
                Err("empty sub-element name in '"@ + s + "'"@)
            } else {
                Ok(EndView { node: names[0], path: names.skip(1), at })
            }
        },
    }
}

/// The text of an error message.
pub open spec fn end_result(r: Result<AdvanceEnd, String>, want: Result<EndView, Seq<char>>) -> bool {
    match want {
        Ok(e) => r is Ok && r->Ok_0@ == e,
        Err(m) => r is Err && r->Err_0@ == m,
    }
}

fn split_anchor<'a>(s: &'a [char]) -> (r: Result<(&'a [char], Option<AnchorRef>), String>)
    ensures
        match cut_anchor(s@) {
            Ok((head, at)) => r is Ok && r->Ok_0.0@ == head && crate::advance::at_view(r->Ok_0.1)
                == at,
            Err(m) => r is Err && r->Err_0@ == m,
        },
{
    let n: usize = s.len();
    if let Some(k) = rfind_char(s, '@') {
        let a = &s[k + 1..n];
        let h = &s[0..k];
        assert(a@ =~= s@.skip(k as int + 1));
        assert(h@ =~= s@.take(k as int));
        if a.len() == 0 || contains_char(a, '.') || contains_char(a, ':') {
            return Err(cat3("invalid anchor reference '", string_of(s).as_str(), "'"));
        }
        return Ok((h, Some(AnchorRef::Named(string_of(a)))));
    }
    if let Some(k) = rfind_char(s, ':') {
        let a = &s[k + 1..n];
        let h = &s[0..k];
        assert(a@ =~= s@.skip(k as int + 1));
        assert(h@ =~= s@.take(k as int));
        if let Some(side) = parse_side(a) {
            if k > 0 && s[k - 1] != ':' {
                return Ok((h, Some(AnchorRef::Side(side))));
            }
        }
    }
    Ok((s, None))
}

/// Parse one edge end.
pub fn parse_end(text: &[char]) -> (r: Result<AdvanceEnd, String>)
    ensures
        end_result(r, end_of(text@)),
{
    let s = trim(text);
    let (head, at) = match split_anchor(s) {
        Ok(p) => p,
        Err(m) => {
            return Err(m);
        },
    };
    let segs = split_char(head, '.');
    let ghost all = split_seq(head@, '.');
    let ghost names = trimmed(all);
    assert(texts(segs@)[0] == all[0]);
    let node = trim(segs[0]);
    if node.len() == 0 {
        return Err(cat3("invalid edge end '", string_of(s).as_str(), "'"));
    }
    let mut path: Vec<String> = Vec::new();
    let mut i: usize = 1;
    while i < segs.len()
        invariant
            1 <= i <= segs@.len(),
            texts(segs@) == all,
            names == trimmed(all),
            cut_anchor(s@) == Ok::<(Seq<char>, Option<AnchorRefView>), Seq<char>>(
                (head@, crate::advance::at_view(at)),
            ),
            all == split_seq(head@, '.'),
            names[0].len() > 0,
            s@ == trim_seq(text@),
            strings(path@) == names.subrange(1, i as int),
            forall|j: int| 1 <= j < i ==> (#[trigger] names[j]).len() > 0,
        decreases segs@.len() - i,
    {
        assert(texts(segs@)[i as int] == all[i as int]);
        let seg = trim(segs[i]);
        assert(seg@ == names[i as int]);
        if seg.len() == 0 {
            assert(names.skip(1)[i as int - 1].len() == 0);
            return Err(cat3("empty sub-element name in '", string_of(s).as_str(), "'"));
        }
        let ghost before = path@;
        path.push(string_of(seg));
        assert(strings(path@) =~= strings(before).push(seg@));
        assert(names.subrange(1, i as int + 1) =~= names.subrange(1, i as int).push(
            names[i as int],
        ));
        i += 1;
    }
    assert(names.subrange(1, names.len() as int) =~= names.skip(1));
    assert(!has_empty(names.skip(1)));
    Ok(AdvanceEnd { node: string_of(node), path, at })
}

/// The position of the first character that references reserve.
pub open spec fn reserved_from(s: Seq<char>, i: int) -> Option<int>
    decreases s.len() - i,
{
    if i < 0 || i >= s.len() {
        None
    } else if s[i] == '.' || s[i] == '@' {
        Some(i)
    } else {
        reserved_from(s, i + 1)
    }
}

/// Whether an id may be used; ids take part in the reference grammar, so
/// the two characters that it reserves may not appear in them.
pub open spec fn id_check(kind: Seq<char>, id: Seq<char>) -> Result<(), Seq<char>> {
    match reserved_from(id, 0) {
        None => Ok(()),
        Some(k) => Err(
            kind + " id '"@ + id + "' may not contain '"@ + seq![id[k]]
                + "' — it is reserved for edge references (node.element@anchor)"@,
        ),
    }
}

pub fn check_id(kind: &str, id: &str) -> (r: Result<(), String>)
    ensures
        match id_check(kind@, id@) {
            Ok(_) => r is Ok,
            Err(m) => r is Err && r->Err_0@ == m,
        },
{
    let c = chars_of(id);
    let mut i: usize = 0;
    while i < c.len()
        invariant
            i <= c@.len(),
            c@ == id@,
            reserved_from(id@, 0) == reserved_from(id@, i as int),
        decreases c@.len() - i,
    {
        if c[i] == '.' || c[i] == '@' {
            let mut m = cat5(kind, " id '", id, "' may not contain '", "");
            m.push(c[i]);
            m.append("' — it is reserved for edge references (node.element@anchor)");
            proof {
                reveal_strlit("");
                assert(m@ =~= kind@ + " id '"@ + id@ + "' may not contain '"@ + seq![
                    id@[i as int],
                ] + "' — it is reserved for edge references (node.element@anchor)"@);
            }
            return Err(m);
        }
        i += 1;
    }
    Ok(())
}

/// Which of its four sides a sub-element shows at the node's boundary.
#[derive(Debug, Clone, Copy, PartialEq, Eq, Structural)]
pub struct Exposed {
    pub left: bool,
    pub right: bool,
    pub top: bool,
    pub bottom: bool,
}

/// A node shows all its sides.
pub open spec fn all_exposed() -> Exposed {
    Exposed { left: true, right: true, top: true, bottom: true }
}

/// The sides shown on both levels.
pub open spec fn both_exposed(a: Exposed, b: Exposed) -> Exposed {
    Exposed {
        left: a.left && b.left,
        right: a.right && b.right,
        top: a.top && b.top,
        bottom: a.bottom && b.bottom,
    }
}

/// Which sides of child number `idx` of `len` touch their parent's
/// boundary: in a column the flanks always do, and the top of the first and
/// the bottom of the last; in a row the other way round.
pub open spec fn exposed_child(layout: ElementLayout, len: int, idx: int) -> Exposed {
    match layout {
        ElementLayout::Column => Exposed {
            left: true,
            right: true,
            top: idx == 0,
            bottom: idx + 1 == len,
        },
        ElementLayout::Row => Exposed {
            left: idx == 0,
            right: idx + 1 == len,
            top: true,
            bottom: true,
        },
    }
}

pub fn exposed_in(layout: ElementLayout, len: usize, idx: usize) -> (r: Exposed)
    requires
        idx < len,
    ensures
        r == exposed_child(layout, len as int, idx as int),
{
    let first = idx == 0;
    let last = idx + 1 == len;
    match layout {
        ElementLayout::Column => Exposed { left: true, right: true, top: first, bottom: last },
        ElementLayout::Row => Exposed { left: first, right: last, top: true, bottom: true },
    }
}

/// Whether `side` is among the exposed ones.
pub open spec fn shows(e: Exposed, side: AdvanceSide) -> bool {
    match side {
        AdvanceSide::Left => e.left,
        AdvanceSide::Right => e.right,
        AdvanceSide::Top => e.top,
        AdvanceSide::Bottom => e.bottom,
    }
}

impl Exposed {
    pub fn has(&self, side: AdvanceSide) -> (r: bool)
        ensures
            r == shows(*self, side),
    {
        match side {
            AdvanceSide::Left => self.left,
            AdvanceSide::Right => self.right,
            AdvanceSide::Top => self.top,
            AdvanceSide::Bottom => self.bottom,
        }
    }
}

/// The ids of sub-elements.
pub open spec fn element_ids(e: Seq<ElementView>) -> Seq<Seq<char>> {
    e.map_values(|x: ElementView| x.id)
}

/// Walk a path of names down from `elems`: the element that it names, and
/// the sides of it that are exposed through every level.
pub open spec fn walk(
    node: Seq<char>,
    elems: Seq<ElementView>,
    layout: ElementLayout,
    exposed: Exposed,
    path: Seq<Seq<char>>,
) -> Result<(ElementView, Exposed), Seq<char>>
    decreases path.len(),
{
    if path.len() == 0 {
        Err("empty sub-element path"@)
    } else {
        match name_index(element_ids(elems), path[0]) {
            None => Err("node '"@ + node + "' has no sub-element '"@ + path[0] + "'"@),
            Some(i) => {
                let e = elems[i];
                let here = both_exposed(exposed, exposed_child(layout, elems.len() as int, i));
                if path.len() == 1 {
                    Ok((e, here))
                } else {
                    walk(node, e.elements, e.layout, here, path.skip(1))
                }
            },
        }
    }
}

/// The first element with the given id.
pub fn element_index(elems: &Vec<AdvanceElement>, id: &str) -> (r: Option<usize>)
    ensures
        match name_index(element_ids(element_views(elems@)), id@) {
            Some(i) => r is Some && r->Some_0 == i && 0 <= i < elems@.len(),
            None => r is None,
        },
{
    let ghost ids = element_ids(element_views(elems@));
    let mut i: usize = 0;
    while i < elems.len()
        invariant
            i <= elems@.len(),
            ids == element_ids(element_views(elems@)),
            name_index(ids, id@) == name_from(ids, id@, i as int),
        decreases elems@.len() - i,
    {
        assert(ids[i as int] == elems@[i as int].id@);
        if str_eq(elems[i].id.as_str(), id) {
            return Some(i);
        }
        i += 1;
    }
    None
}

/// Walk `path` down from a node.
pub fn resolve_element<'a>(node: &'a AdvanceNode, path: &Vec<String>) -> (r: Result<
    (&'a AdvanceElement, Exposed),
    String,
>)
    ensures
        match walk(node.id@, node@.elements, node.layout, all_exposed(), strings(path@)) {
            Ok((e, x)) => r is Ok && r->Ok_0.0@ == e && r->Ok_0.1 == x,
            Err(m) => r is Err && r->Err_0@ == m,
        },
{
    let ghost names = strings(path@);
    let mut elems: &'a Vec<AdvanceElement> = &node.elements;
    let mut layout = node.layout;
    let mut exposed = Exposed { left: true, right: true, top: true, bottom: true };
    let mut i: usize = 0;
    assert(names.skip(0) =~= names);
    while i < path.len()
        invariant
            i <= path@.len(),
            names == strings(path@),
            i < path@.len() || i == 0,
            walk(node.id@, node@.elements, node.layout, all_exposed(), names) == walk(
                node.id@,
                element_views(elems@),
                layout,
                exposed,
                names.skip(i as int),
            ),
        decreases path@.len() - i,
    {
        assert(names.skip(i as int)[0] == path@[i as int]@);
        match element_index(elems, path[i].as_str()) {
            None => {
                return Err(
                    cat5(
                        "node '",
                        node.id.as_str(),
                        "' has no sub-element '",
                        path[i].as_str(),
                        "'",
                    ),
                );
            },
            Some(idx) => {
                let e: &'a AdvanceElement = &elems[idx];
                assert(element_views(elems@)[idx as int] == element_view(*e));
                let here = exposed_in(layout, elems.len(), idx);
                exposed = Exposed {
                    left: exposed.left && here.left,
                    right: exposed.right && here.right,
                    top: exposed.top && here.top,
                    bottom: exposed.bottom && here.bottom,
                };
                if i + 1 == path.len() {
                    return Ok((e, exposed));
                }
                assert(names.skip(i as int).skip(1) =~= names.skip(i as int + 1));
                elems = &e.elements;
                layout = e.layout;
                i += 1;
            },
        }
    }
    Err("empty sub-element path".to_owned())
}

/// The ids of nodes.
pub open spec fn lane_node_ids(nodes: Seq<LaneNodeView>) -> Seq<Seq<char>> {
    nodes.map_values(|n: LaneNodeView| n.id)
}

/// The ids of anchors.
pub open spec fn anchor_ids(a: Seq<AnchorView>) -> Seq<Seq<char>> {
    a.map_values(|x: AnchorView| x.id)
}

/// The anchors of what an end names, and its exposed sides.
pub open spec fn end_host(nodes: Seq<LaneNodeView>, end: EndView) -> Result<
    (Seq<AnchorView>, Exposed),
    Seq<char>,
> {
    match name_index(lane_node_ids(nodes), end.node) {
        None => Err("edge references unknown node '"@ + end.node + "'"@),
        Some(i) => if end.path.len() == 0 {
            Ok((nodes[i].anchors, all_exposed()))
        } else {
            match walk(
                nodes[i].id,
                nodes[i].elements,
                nodes[i].layout,
                all_exposed(),
                end.path,
            ) {
                Ok((e, x)) => Ok((e.anchors, x)),
                Err(m) => Err(m),
            }
        },
    }
}

/// The side that an end asks for, where it asks for one.
pub open spec fn asked_side(anchors: Seq<AnchorView>, end: EndView) -> Result<
    Option<AdvanceSide>,
    Seq<char>,
> {
    match end.at {
        None => Ok(None),
        Some(AnchorRefView::Side(s)) => Ok(Some(s)),
        Some(AnchorRefView::Named(id)) => match name_index(anchor_ids(anchors), id) {
            Some(i) => Ok(Some(anchors[i].side)),
            None => Err(
                "'"@ + dotted(end.node, end.path) + "' has no anchor '"@ + id + "'"@,
            ),
        },
    }
}

/// The side on which an end attaches, checked against the declared nodes.
/// A side that faces a sibling inside the node is refused.
pub open spec fn end_side(nodes: Seq<LaneNodeView>, end: EndView) -> Result<
    Option<AdvanceSide>,
    Seq<char>,
> {
    match end_host(nodes, end) {
        Err(m) => Err(m),
        Ok((anchors, x)) => match asked_side(anchors, end) {
            Err(m) => Err(m),
            Ok(None) => Ok(None),
            Ok(Some(side)) => if shows(x, side) {
                Ok(Some(side))
            } else {
                Err(
                    end_ref(end)
                        + " is not an exposed side — it faces a sibling inside the node"@,
                )
            },
        },
    }
}

/// The first node with the given id.
pub fn lane_node_index(nodes: &Vec<AdvanceNode>, id: &str) -> (r: Option<usize>)
    ensures
        match name_index(lane_node_ids(lane_node_views(nodes@)), id@) {
            Some(i) => r is Some && r->Some_0 == i && 0 <= i < nodes@.len(),
            None => r is None,
        },
{
    let ghost ids = lane_node_ids(lane_node_views(nodes@));
    let mut i: usize = 0;
    while i < nodes.len()
        invariant
            i <= nodes@.len(),
            ids == lane_node_ids(lane_node_views(nodes@)),
            name_index(ids, id@) == name_from(ids, id@, i as int),
        decreases nodes@.len() - i,
    {
        assert(ids[i as int] == nodes@[i as int].id@);
        if str_eq(nodes[i].id.as_str(), id) {
            return Some(i);
        }
        i += 1;
    }
    None
}

/// The first anchor with the given id.
pub fn anchor_index(anchors: &Vec<AdvanceAnchor>, id: &str) -> (r: Option<usize>)
    ensures
        match name_index(anchor_ids(anchor_views(anchors@)), id@) {
            Some(i) => r is Some && r->Some_0 == i && 0 <= i < anchors@.len(),
            None => r is None,
        },
{
    let ghost ids = anchor_ids(anchor_views(anchors@));
    let mut i: usize = 0;
    while i < anchors.len()
        invariant
            i <= anchors@.len(),
            ids == anchor_ids(anchor_views(anchors@)),
            name_index(ids, id@) == name_from(ids, id@, i as int),
        decreases anchors@.len() - i,
    {
        assert(ids[i as int] == anchors@[i as int].id@);
        if str_eq(anchors[i].id.as_str(), id) {
            return Some(i);
        }
        i += 1;
    }
    None
}

/// Check one edge end against the declared nodes and work out the side it
/// attaches on.
pub fn resolve_end_side(nodes: &Vec<AdvanceNode>, end: &AdvanceEnd) -> (r: Result<
    Option<AdvanceSide>,
    String,
>)
    ensures
        match end_side(lane_node_views(nodes@), end@) {
            Ok(s) => r is Ok && r->Ok_0 == s,
            Err(m) => r is Err && r->Err_0@ == m,
        },
{
    let ghost views = lane_node_views(nodes@);
    let node = match lane_node_index(nodes, end.node.as_str()) {
        Some(i) => {
            assert(views[i as int] == nodes@[i as int]@);
            &nodes[i]
        },
        None => {
            return Err(cat3("edge references unknown node '", end.node.as_str(), "'"));
        },
    };
    let mut anchors: &Vec<AdvanceAnchor> = &node.anchors;
    let mut exposed = Exposed { left: true, right: true, top: true, bottom: true };
    if end.path.len() > 0 {
        match resolve_element(node, &end.path) {
            Ok((e, x)) => {
                anchors = &e.anchors;
                exposed = x;
            },
            Err(m) => {
                return Err(m);
            },
        }
    }
    assert(end_host(views, end@) == Ok::<(Seq<AnchorView>, Exposed), Seq<char>>(
        (anchor_views(anchors@), exposed),
    ));
    let side = match &end.at {
        None => {
            return Ok(None);
        },
        Some(AnchorRef::Side(side)) => *side,
        Some(AnchorRef::Named(id)) => match anchor_index(anchors, id.as_str()) {
            Some(i) => {
                assert(anchor_views(anchors@)[i as int] == anchors@[i as int]@);
                anchors[i].side
            },
            None => {
                let host = dotted_string(end.node.as_str(), &end.path);
                return Err(cat5("'", host.as_str(), "' has no anchor '", id.as_str(), "'"));
            },
        },
    };
    if !exposed.has(side) {
        return Err(
            cat(
                end.to_ref().as_str(),
                " is not an exposed side — it faces a sibling inside the node",
            ),
        );
    }
    Ok(Some(side))
}

/// The anchor that a line `anchor <id> <side> [offset]` declares, from what
/// follows the keyword.
pub open spec fn anchor_of(rest: Seq<char>) -> Result<AnchorView, Seq<char>> {
    let w = words_seq(rest);
    if w.len() == 0 {
        Err("anchor needs an id"@)
    } else {
        match id_check("anchor"@, w[0]) {
            Err(m) => Err(m),
            Ok(_) => if w.len() == 1 {
                Err("anchor '"@ + w[0] + "' needs a side (left, right, top, bottom)"@)
            } else {
                match side_of(w[1]) {
                    None => Err("unknown side '"@ + w[1] + "' for anchor '"@ + w[0] + "'"@),
                    Some(side) => {
                        let offset = if w.len() == 2 {
                            Some("0.5"@)
                        } else {
                            number(w[2])
                        };
                        if offset is Some && (w.len() == 2 || in_unit(offset->Some_0)) {
                            if w.len() > 3 {
                                Err("too many words after anchor '"@ + w[0] + "'"@)
                            } else {
                                Ok(AnchorView { id: w[0], side, offset: offset->Some_0 })
                            }
                        } else {
                            Err(
                                "anchor '"@ + w[0] + "' offset must be a number in 0..=1, got '"@
                                    + w[2] + "'"@,
                            )
                        }
                    },
                }
            },
        }
    }
}

pub fn parse_anchor_line(rest: &[char]) -> (r: Result<AdvanceAnchor, String>)
    ensures
        match anchor_of(rest@) {
            Ok(a) => r is Ok && r->Ok_0@ == a,
            Err(m) => r is Err && r->Err_0@ == m,
        },
{
    let w = words(rest);
    let ghost ws = words_seq(rest@);
    assert(forall|i: int| 0 <= i < w@.len() ==> texts(w@)[i] == (#[trigger] w@[i])@);
    if w.len() == 0 {
        return Err("anchor needs an id".to_owned());
    }
    let id = string_of(w[0]);
    assert(id@ == ws[0]);
    match check_id("anchor", id.as_str()) {
        Ok(_) => {},
        Err(m) => {
            return Err(m);
        },
    }
    if w.len() == 1 {
        return Err(cat3("anchor '", id.as_str(), "' needs a side (left, right, top, bottom)"));
    }
    assert(w@[1]@ == ws[1]);
    let side = match parse_side(w[1]) {
        Some(s) => s,
        None => {
            return Err(
                cat5(
                    "unknown side '",
                    string_of(w[1]).as_str(),
                    "' for anchor '",
                    id.as_str(),
                    "'",
                ),
            );
        },
    };
    let mut offset = Num::of("0.5");
    if w.len() > 2 {
        assert(w@[2]@ == ws[2]);
        let n = parse_num(w[2]);
        let mut good = false;
        if let Some(v) = n {
            if v.is_in_unit() {
                good = true;
                offset = v;
            }
        }
        if !good {
            return Err(
                cat5(
                    "anchor '",
                    id.as_str(),
                    "' offset must be a number in 0..=1, got '",
                    string_of(w[2]).as_str(),
                    "'",
                ),
            );
        }
    }
    if w.len() > 3 {
        return Err(cat3("too many words after anchor '", id.as_str(), "'"));
    }
    Ok(AdvanceAnchor { id, side, offset })
}

} // verus!
