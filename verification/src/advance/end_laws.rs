//! Reference laws: what is written for an edge end reads as that end.

use vstd::prelude::*;

use crate::advance::ends::{
    cut_anchor, dotted, end_of, end_ref, has_empty, json_end_ref, law_side_name, side_of, trimmed,
};
use crate::advance::{side_name, AdvanceSide, AnchorRefView, EndView};
use crate::text::{
    first_index, has_char, is_white, last_index, lemma_index_from, lemma_last_index, split_seq,
    trim_seq,
};

verus! {

/// A name that can stand in a reference: not empty, no white space around
/// it, and none of the two separators in it.
pub open spec fn plain_name(name: Seq<char>) -> bool {
    &&& name.len() > 0
    &&& !is_white(name[0])
    &&& !is_white(name.last())
    &&& !has_char(name, '.')
    &&& !has_char(name, '@')
}

/// Whether all names of an end are plain.
pub open spec fn plain_names(e: EndView) -> bool {
    plain_name(e.node) && forall|i: int| 0 <= i < e.path.len() ==> plain_name(#[trigger] e.path[i])
}

/// An anchor name that can stand behind the `@` of a reference.
pub open spec fn plain_anchor(a: Seq<char>) -> bool {
    &&& a.len() > 0
    &&& !is_white(a.last())
    &&& !has_char(a, '.')
    &&& !has_char(a, ':')
    &&& !has_char(a, '@')
}

/// Whether the end of `s` reads as a side: a single colon and a side
/// keyword, with something in front.
pub open spec fn ends_in_side(s: Seq<char>) -> bool {
    exists|side: AdvanceSide| #[trigger] side_tail(s, side)
}

pub open spec fn side_tail(s: Seq<char>, side: AdvanceSide) -> bool {
    let k = s.len() - side_name(side).len() - 1;
    &&& k > 0
    &&& s[k] == ':'
    &&& s[k - 1] != ':'
    &&& s.skip(k + 1) == side_name(side)
}

/// An end whose JSON reference can be read back.
pub open spec fn clear_end(e: EndView) -> bool {
    &&& plain_names(e)
    &&& match e.at {
        Some(AnchorRefView::Named(a)) => plain_anchor(a),
        _ => !ends_in_side(dotted(e.node, e.path)),
    }
}

/// An end whose written reference can be read back.
pub open spec fn clear_ref(e: EndView) -> bool {
    &&& plain_names(e)
    &&& match e.at {
        Some(AnchorRefView::Named(a)) => plain_anchor(a),
        Some(AnchorRefView::Side(_)) => dotted(e.node, e.path).last() != ':',
        None => !ends_in_side(dotted(e.node, e.path)),
    }
}

/// An end without the side that JSON writes apart.
pub open spec fn bare(e: EndView) -> EndView {
    match e.at {
        Some(AnchorRefView::Named(_)) => e,
        _ => EndView { at: None, ..e },
    }
}

proof fn lemma_trim_clean(s: Seq<char>)
    requires
        s.len() > 0,
        !is_white(s[0]),
        !is_white(s.last()),
    ensures
        trim_seq(s) == s,
{
}

proof fn lemma_dotted(node: Seq<char>, path: Seq<Seq<char>>, c: char)
    requires
        plain_name(node),
        forall|i: int| 0 <= i < path.len() ==> plain_name(#[trigger] path[i]),
        c == '@',
    ensures
        dotted(node, path).len() > 0,
        !is_white(dotted(node, path)[0]),
        !is_white(dotted(node, path).last()),
        !has_char(dotted(node, path), c),
    decreases path.len(),
{
    reveal_strlit(".");
    let s = dotted(node, path);
    if path.len() > 0 {
        let h = dotted(node, path.drop_last());
        let last = path.last();
        assert forall|i: int| 0 <= i < path.drop_last().len() implies plain_name(
            #[trigger] path.drop_last()[i],
        ) by {
            assert(plain_name(path[i]));
        }
        lemma_dotted(node, path.drop_last(), c);
        assert(plain_name(path[path.len() - 1]));
        assert(s == h + "."@ + last);
        assert(s[0] == h[0]);
        assert(s.last() == last.last());
        assert forall|j: int| 0 <= j < s.len() implies s[j] != c by {
            if j < h.len() {
                assert(s[j] == h[j]);
            } else if j > h.len() {
                assert(s[j] == last[j - h.len() - 1]);
            }
        }
    }
}

/// Splitting at a separator that no part behind it holds takes the last
/// piece off.
proof fn lemma_split_last(a: Seq<char>, b: Seq<char>, c: char)
    requires
        !has_char(b, c),
    ensures
        split_seq(a + seq![c] + b, c) == split_seq(a, c).push(b),
    decreases a.len(),
{
    let s = a + seq![c] + b;
    lemma_index_from(s, c, 0);
    lemma_index_from(a, c, 0);
    assert(s[a.len() as int] == c);
    match first_index(a, c) {
        Some(k) => {
            assert(forall|j: int| 0 <= j < a.len() ==> s[j] == a[j]);
            assert(first_index(s, c) == Some(k)) by {
                let m = first_index(s, c)->Some_0;
                if m < k {
                    assert(a[m] == c);
                } else if k < m {
                    assert(s[k] == c);
                }
            }
            assert(s.take(k) =~= a.take(k));
            assert(s.skip(k + 1) =~= a.skip(k + 1) + seq![c] + b);
            lemma_split_last(a.skip(k + 1), b, c);
            assert(split_seq(s, c) =~= split_seq(a, c).push(b));
        },
        None => {
            assert(first_index(s, c) == Some(a.len() as int)) by {
                let m = first_index(s, c)->Some_0;
                if m < a.len() {
                    assert(a[m] == c);
                }
            }
            assert(s.take(a.len() as int) =~= a);
            assert(s.skip(a.len() as int + 1) =~= b);
            lemma_index_from(b, c, 0);
            assert(split_seq(b, c) == seq![b]);
            assert(split_seq(a, c) == seq![a]);
            assert(split_seq(s, c) =~= split_seq(a, c).push(b));
        },
    }
}

proof fn lemma_split_dotted(node: Seq<char>, path: Seq<Seq<char>>)
    requires
        plain_name(node),
        forall|i: int| 0 <= i < path.len() ==> plain_name(#[trigger] path[i]),
    ensures
        split_seq(dotted(node, path), '.') == seq![node] + path,
    decreases path.len(),
{
    reveal_strlit(".");
    if path.len() == 0 {
        lemma_index_from(node, '.', 0);
        assert(split_seq(node, '.') =~= seq![node] + path);
    } else {
        assert forall|i: int| 0 <= i < path.drop_last().len() implies plain_name(
            #[trigger] path.drop_last()[i],
        ) by {
            assert(plain_name(path[i]));
        }
        lemma_split_dotted(node, path.drop_last());
        assert(plain_name(path[path.len() - 1]));
        assert("."@ =~= seq!['.']);
        lemma_split_last(dotted(node, path.drop_last()), path.last(), '.');
        assert((seq![node] + path.drop_last()).push(path.last()) =~= seq![node] + path);
    }
}

/// Reading names that were joined by full stops.
proof fn lemma_names_read(e: EndView, s: Seq<char>, at: Option<AnchorRefView>)
    requires
        plain_names(e),
        s.len() > 0,
        !is_white(s[0]),
        !is_white(s.last()),
        cut_anchor(s) == Ok::<(Seq<char>, Option<AnchorRefView>), Seq<char>>(
            (dotted(e.node, e.path), at),
        ),
    ensures
        end_of(s) == Ok::<EndView, Seq<char>>(EndView { at, ..e }),
{
    lemma_trim_clean(s);
    lemma_split_dotted(e.node, e.path);
    let segs = seq![e.node] + e.path;
    let names = trimmed(segs);
    lemma_trim_clean(e.node);
    assert(names[0] == e.node);
    assert forall|i: int| 0 <= i < e.path.len() implies #[trigger] names[i + 1] == e.path[i] by {
        assert(plain_name(e.path[i]));
        assert(segs[i + 1] == e.path[i]);
        lemma_trim_clean(e.path[i]);
    }
    assert(names.skip(1) =~= e.path) by {
        assert forall|i: int| 0 <= i < e.path.len() implies names.skip(1)[i] == e.path[i] by {
            assert(names[i + 1] == e.path[i]);
        }
    }
    assert(!has_empty(e.path)) by {
        assert forall|i: int| 0 <= i < e.path.len() implies (#[trigger] e.path[i]).len() != 0 by {
            assert(plain_name(e.path[i]));
        }
    }
    assert((EndView { node: names[0], path: names.skip(1), at }) == (EndView { at, ..e }));
}

proof fn lemma_cut_bare(s: Seq<char>)
    requires
        !has_char(s, '@'),
        !ends_in_side(s),
    ensures
        cut_anchor(s) == Ok::<(Seq<char>, Option<AnchorRefView>), Seq<char>>((s, None)),
{
    lemma_last_index(s, '@');
    assert(last_index(s, '@') is None);
    lemma_last_index(s, ':');
    if let Some(k) = last_index(s, ':') {
        if let Some(side) = side_of(s.skip(k + 1)) {
            assert(s.skip(k + 1) == side_name(side));
            assert(s.skip(k + 1).len() == s.len() - k - 1);
            if k > 0 && s[k - 1] != ':' {
                assert(side_tail(s, side));
            }
        }
    }
}

proof fn lemma_cut_named(h: Seq<char>, a: Seq<char>, s: Seq<char>)
    requires
        plain_anchor(a),
        s == h + "@"@ + a,
    ensures
        cut_anchor(s) == Ok::<(Seq<char>, Option<AnchorRefView>), Seq<char>>(
            (h, Some(AnchorRefView::Named(a))),
        ),
{
    reveal_strlit("@");
    let k = h.len() as int;
    assert(s[k] == '@');
    lemma_last_index(s, '@');
    let m = last_index(s, '@')->Some_0;
    assert(m == k) by {
        if m > k {
            assert(s[m] == a[m - k - 1]);
        }
    }
    assert(s.skip(k + 1) =~= a);
    assert(s.take(k) =~= h);
}

proof fn lemma_cut_side(h: Seq<char>, side: AdvanceSide, s: Seq<char>)
    requires
        h.len() > 0,
        h.last() != ':',
        !has_char(h, '@'),
        s == h + ":"@ + side_name(side),
    ensures
        cut_anchor(s) == Ok::<(Seq<char>, Option<AnchorRefView>), Seq<char>>(
            (h, Some(AnchorRefView::Side(side))),
        ),
        !is_white(s.last()),
{
    reveal_strlit(":");
    reveal_strlit("left");
    reveal_strlit("right");
    reveal_strlit("top");
    reveal_strlit("bottom");
    let w = side_name(side);
    let k = h.len() as int;
    assert(forall|j: int| 0 <= j < w.len() ==> w[j] != '@' && w[j] != ':' && !is_white(w[j]));
    assert forall|j: int| 0 <= j < s.len() implies s[j] != '@' by {
        if j < k {
            assert(s[j] == h[j]);
        } else if j > k {
            assert(s[j] == w[j - k - 1]);
        }
    }
    lemma_last_index(s, '@');
    assert(last_index(s, '@') is None);
    lemma_last_index(s, ':');
    assert(s[k] == ':');
    let m = last_index(s, ':')->Some_0;
    assert(m == k) by {
        if m > k {
            assert(s[m] == w[m - k - 1]);
        }
    }
    assert(s.skip(k + 1) =~= w);
    assert(s.take(k) =~= h);
    assert(s[k - 1] == h.last());
    law_side_name(side);
    assert(s.last() == w.last());
}

/// The reference that JSON holds for an end reads as that end, but for a
/// plain side, which is written apart.
pub proof fn law_json_ref_reads_back(e: EndView)
    requires
        clear_end(e),
    ensures
        end_of(json_end_ref(e)) == Ok::<EndView, Seq<char>>(bare(e)),
{
    reveal_strlit("@");
    let h = dotted(e.node, e.path);
    let s = json_end_ref(e);
    lemma_dotted(e.node, e.path, '@');
    match e.at {
        Some(AnchorRefView::Named(a)) => {
            lemma_cut_named(h, a, s);
            assert(s[0] == h[0]);
            assert(s.last() == a.last());
            lemma_names_read(e, s, e.at);
        },
        _ => {
            lemma_cut_bare(s);
            lemma_names_read(e, s, None);
        },
    }
}

/// The reference written for an end reads as that end.
pub proof fn law_ref_reads_back(e: EndView)
    requires
        clear_ref(e),
    ensures
        end_of(end_ref(e)) == Ok::<EndView, Seq<char>>(e),
{
    reveal_strlit("@");
    let h = dotted(e.node, e.path);
    let s = end_ref(e);
    lemma_dotted(e.node, e.path, '@');
    match e.at {
        Some(AnchorRefView::Named(a)) => {
            lemma_cut_named(h, a, s);
            assert(s[0] == h[0]);
            assert(s.last() == a.last());
        },
        Some(AnchorRefView::Side(side)) => {
            lemma_cut_side(h, side, s);
            assert(s[0] == h[0]);
        },
        None => {
            lemma_cut_bare(s);
        },
    }
    lemma_names_read(e, s, e.at);
}

} // verus!
