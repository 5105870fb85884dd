//! What the styling tags of labels do.

use vstd::prelude::*;

use crate::layout::labels::{
    fence_at, fence_from, flushed, math_end, named, runs, runs_from, tag_at, tag_of, Tag,
};
use crate::text::{first_index, lemma_index_from, lower};

verus! {

/// Whether a text holds no sign that styles anything.
pub open spec fn unstyled(t: Seq<char>) -> bool {
    t.len() > 0 && !t.contains('<') && !t.contains('$')
}

/// A text between two tags.
pub open spec fn tagged(open: Seq<char>, t: Seq<char>, close: Seq<char>) -> Seq<char> {
    seq!['<'] + open + seq!['>'] + t + seq!['<'] + close + seq!['>']
}

proof fn lemma_folds(name: Seq<char>, known: Seq<char>, i: int)
    requires
        name.len() != known.len() || (0 <= i < name.len() && lower(name)[i] != lower(known)[i]),
    ensures
        !named(name, known),
{
    assert(lower(name).len() == name.len() && lower(known).len() == known.len());
}

proof fn lemma_tags()
    ensures
        tag_of("b"@) == Some(Tag::Bold(true)),
        tag_of("strong"@) == Some(Tag::Bold(true)),
        tag_of("/b"@) == Some(Tag::Bold(false)),
        tag_of("/strong"@) == Some(Tag::Bold(false)),
        tag_of("i"@) == Some(Tag::Italic(true)),
        tag_of("em"@) == Some(Tag::Italic(true)),
        tag_of("/i"@) == Some(Tag::Italic(false)),
        tag_of("/em"@) == Some(Tag::Italic(false)),
{
    reveal_strlit("b");
    reveal_strlit("strong");
    reveal_strlit("/b");
    reveal_strlit("/strong");
    reveal_strlit("i");
    reveal_strlit("em");
    reveal_strlit("/i");
    reveal_strlit("/em");
    lemma_folds("/b"@, "b"@, 0);
    lemma_folds("/b"@, "strong"@, 0);
    lemma_folds("/strong"@, "b"@, 0);
    lemma_folds("/strong"@, "strong"@, 0);
    lemma_folds("i"@, "b"@, 0);
    lemma_folds("i"@, "strong"@, 0);
    lemma_folds("i"@, "/b"@, 0);
    lemma_folds("i"@, "/strong"@, 0);
    lemma_folds("em"@, "b"@, 0);
    lemma_folds("em"@, "strong"@, 0);
    lemma_folds("em"@, "/b"@, 0);
    lemma_folds("em"@, "/strong"@, 0);
    lemma_folds("/i"@, "b"@, 0);
    lemma_folds("/i"@, "strong"@, 0);
    lemma_folds("/i"@, "/b"@, 1);
    lemma_folds("/i"@, "/strong"@, 0);
    lemma_folds("/i"@, "i"@, 0);
    lemma_folds("/i"@, "em"@, 0);
    lemma_folds("/em"@, "b"@, 0);
    lemma_folds("/em"@, "strong"@, 0);
    lemma_folds("/em"@, "/b"@, 0);
    lemma_folds("/em"@, "/strong"@, 0);
    lemma_folds("/em"@, "i"@, 0);
    lemma_folds("/em"@, "em"@, 0);
}

/// The unstyled text from `a` on is collected.
proof fn lemma_collect(s: Seq<char>, a: int, t: Seq<char>, i: int, bold: bool, italic: bool)
    requires
        0 <= a,
        a + t.len() <= s.len(),
        0 <= i <= t.len(),
        !t.contains('<'),
        !t.contains('$'),
        forall|j: int| 0 <= j < t.len() ==> s[a + j] == #[trigger] t[j],
    ensures
        runs_from(s, a + i, Seq::empty(), t.take(i), bold, italic) == runs_from(
            s,
            a + t.len() as int,
            Seq::empty(),
            t,
            bold,
            italic,
        ),
    decreases t.len() - i,
{
    if i < t.len() {
        assert(t.contains(t[i]));
        assert(s[a + i] == t[i]);
        lemma_collect(s, a, t, i + 1, bold, italic);
        assert(t.take(i).push(s[a + i]) =~= t.take(i + 1));
    } else {
        assert(t.take(i) =~= t);
    }
}

proof fn lemma_tag_at(s: Seq<char>, i: int, name: Seq<char>)
    requires
        0 <= i,
        i + name.len() + 1 < s.len(),
        s[i] == '<',
        s[i + name.len() + 1] == '>',
        !name.contains('>'),
        forall|j: int| 0 <= j < name.len() ==> s[i + 1 + j] == #[trigger] name[j],
    ensures
        tag_at(s, i) == (match tag_of(name) {
            Some(t) => Some((t, name.len() as int + 2)),
            None => None,
        }),
{
    let r = s.skip(i);
    lemma_index_from(r, '>', 0);
    let n = name.len() as int;
    assert(r[n + 1] == '>');
    let k = first_index(r, '>')->0;
    if k < n + 1 {
        if k > 0 {
            assert(r[k] == name[k - 1]);
            assert(name.contains(name[k - 1]));
        }
        assert(false);
    }
    assert(k == n + 1);
    assert(s.subrange(i + 1, i + k) =~= name);
}

/// A text between tags is one run, styled as the opening tag says.
proof fn lemma_tagged(open: Seq<char>, t: Seq<char>, close: Seq<char>, bold: bool)
    requires
        unstyled(t),
        !open.contains('>'),
        !close.contains('>'),
        tag_of(open) == Some(if bold {
            Tag::Bold(true)
        } else {
            Tag::Italic(true)
        }),
        tag_of(close) == Some(if bold {
            Tag::Bold(false)
        } else {
            Tag::Italic(false)
        }),
    ensures
        runs(tagged(open, t, close)) == seq![(t, bold, !bold)],
{
    let s = tagged(open, t, close);
    let a = open.len() as int + 2;
    let b = a + t.len() as int;
    lemma_tag_at(s, 0, open);
    lemma_tag_at(s, b, close);
    assert(math_end(s, 0) is None);
    assert(runs(s) == runs_from(s, a, Seq::empty(), Seq::empty(), bold, !bold));
    assert(t.take(0) =~= Seq::empty());
    lemma_collect(s, a, t, 0, bold, !bold);
    assert(math_end(s, b) is None);
    let out = flushed(Seq::empty(), t, bold, !bold);
    assert(out =~= seq![(t, bold, !bold)]);
    let end = b + close.len() as int + 2;
    assert(end == s.len());
    assert(runs_from(s, b, Seq::empty(), t, bold, !bold) == runs_from(
        s,
        end,
        out,
        Seq::empty(),
        false,
        false,
    ));
}

/// `<b>` and `<strong>` make the text between them and their closing tags
/// bold and nothing else, `<i>` and `<em>` make it italic.
pub proof fn law_tags_style_their_texts(t: Seq<char>)
    requires
        unstyled(t),
    ensures
        runs(tagged("b"@, t, "/b"@)) == seq![(t, true, false)],
        runs(tagged("strong"@, t, "/strong"@)) == seq![(t, true, false)],
        runs(tagged("i"@, t, "/i"@)) == seq![(t, false, true)],
        runs(tagged("em"@, t, "/em"@)) == seq![(t, false, true)],
{
    lemma_tags();
    reveal_strlit("b");
    reveal_strlit("strong");
    reveal_strlit("/b");
    reveal_strlit("/strong");
    reveal_strlit("i");
    reveal_strlit("em");
    reveal_strlit("/i");
    reveal_strlit("/em");
    lemma_tagged("b"@, t, "/b"@, true);
    lemma_tagged("strong"@, t, "/strong"@, true);
    lemma_tagged("i"@, t, "/i"@, false);
    lemma_tagged("em"@, t, "/em"@, false);
}

proof fn lemma_fence(s: Seq<char>, k: int, e: int)
    requires
        0 <= k <= e,
        e + 1 < s.len(),
        fence_at(s, e),
        forall|j: int| k <= j < e ==> s[j] != '$',
    ensures
        fence_from(s, k) == Some(e),
    decreases e - k,
{
    if k < e {
        lemma_fence(s, k + 1, e);
    }
}

/// Mathematics between `$$` and `$$` is one italic run.
pub proof fn law_mathematics_is_italic(t: Seq<char>)
    requires
        t.len() > 0,
        !t.contains('$'),
    ensures
        runs(seq!['$', '$'] + t + seq!['$', '$']) == seq![(t, false, true)],
{
    let s = seq!['$', '$'] + t + seq!['$', '$'];
    let e = t.len() as int + 2;
    assert forall|j: int| 3 <= j < e implies s[j] != '$' by {
        assert(s[j] == t[j - 2]);
        assert(t.contains(t[j - 2]));
    }
    lemma_fence(s, 3, e);
    assert(math_end(s, 0) == Some(e));
    assert(s.subrange(2, e) =~= t);
    let out = flushed(Seq::empty(), Seq::empty(), false, false).push((t, false, true));
    assert(out =~= seq![(t, false, true)]);
    assert(runs(s) == runs_from(s, e + 2, out, Seq::empty(), false, false));
}

} // verus!
