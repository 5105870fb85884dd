//! What holds of mermaid blocks, splices and pages.

use crate::md::html::{html_entity, html_escaped, numbered};
use crate::md::splice::{fence_lines, refilled, spliced, without_breaks};
use crate::md::{found, walked, walked_all, with_fence, BlockView, Tree};
use crate::text::{first_index, last_index, lemma_index_from, lemma_last_index};
use vstd::prelude::*;

verus! {

proof fn lemma_walked(t: Tree, before: Seq<BlockView>)
    requires
        numbered(before),
    ensures
        numbered(walked(t, before)),
    decreases t, 0nat,
{
    assert(numbered(with_fence(t.fence, before)));
    lemma_walked_all(t.children, t.children.len(), with_fence(t.fence, before));
}

proof fn lemma_walked_all(ts: Seq<Tree>, k: nat, before: Seq<BlockView>)
    requires
        numbered(before),
    ensures
        numbered(walked_all(ts, k, before)),
    decreases ts, k,
{
    if 0 < k <= ts.len() {
        lemma_walked_all(ts, (k - 1) as nat, before);
        lemma_walked(ts[k - 1], walked_all(ts, (k - 1) as nat, before));
    }
}

/// The blocks of a document are numbered from 0 in the order in which they
/// are listed.
pub proof fn law_blocks_are_numbered(md: Seq<char>)
    ensures
        numbered(found(md)),
{
    if let Some(t) = crate::md::outside::document(md) {
        lemma_walked(t, Seq::empty());
    }
}

/// A splice leaves what stands before and behind the block, and the fence
/// lines of the block, as they are.
pub proof fn law_splice_keeps_the_rest(md: Seq<char>, a: int, b: int, source: Seq<char>)
    requires
        0 <= a <= b <= md.len(),
    ensures
        spliced(md, a, b, source) matches Some(out) ==> {
            let (open, close) = fence_lines(md.subrange(a, b))->Some_0;
            &&& md.len() - b + close.len() <= out.len()
            &&& a + open.len() <= out.len()
            &&& out.take(a + open.len()) == md.take(a + open.len())
            &&& out.skip(out.len() - (md.len() - b) - close.len()) == md.skip(b - close.len())
        },
{
    if let Some(out) = spliced(md, a, b, source) {
        let block = md.subrange(a, b);
        let (open, close) = fence_lines(block)->Some_0;
        lemma_index_from(block, '\n', 0);
        lemma_last_index(block, '\n');
        let text = refilled(block, source)->Some_0;
        assert(out == md.take(a) + text + md.skip(b));
        assert(out.take(a + open.len()) =~= md.take(a + open.len()));
        assert(out.skip(out.len() - (md.len() - b) - close.len()) =~= md.skip(b - close.len()));
    }
}

/// Splicing twice into the same block leaves what the second splice alone
/// would have left.
pub proof fn law_second_splice_wins(
    md: Seq<char>,
    a: int,
    b: int,
    first: Seq<char>,
    second: Seq<char>,
)
    requires
        0 <= a <= b <= md.len(),
        spliced(md, a, b, first) is Some,
    ensures
        ({
            let once = spliced(md, a, b, first)->Some_0;
            spliced(once, a, once.len() - (md.len() - b), second) == spliced(md, a, b, second)
        }),
{
    let block = md.subrange(a, b);
    let (open, close) = fence_lines(block)->Some_0;
    let text = refilled(block, first)->Some_0;
    let once = spliced(md, a, b, first)->Some_0;
    lemma_index_from(block, '\n', 0);
    lemma_last_index(block, '\n');
    reveal_strlit("\n");
    let body = without_breaks(first);
    let end = once.len() - (md.len() - b);
    assert(once.subrange(a, end) =~= text);
    assert(once.take(a) =~= md.take(a));
    assert(once.skip(end) =~= md.skip(b));
    // The fence lines of the new block are those of the old one.
    let o = open.len() as int;
    let c = text.len() - close.len() - 1;
    assert(text[o] == '\n');
    assert(text[c] == '\n');
    lemma_index_from(text, '\n', 0);
    lemma_last_index(text, '\n');
    assert forall|i: int| 0 <= i < o implies text[i] != '\n' by {
        assert(text[i] == block[i]);
    }
    assert forall|i: int| c < i < text.len() implies text[i] != '\n' by {
        let j = i - c - 1;
        assert(text[i] == close[j]);
        assert(close[j] == block[block.len() - close.len() + j]);
    }
    assert(first_index(text, '\n') == Some(o));
    assert(last_index(text, '\n') == Some(c));
    assert(text.take(o) =~= open);
    assert(text.skip(c + 1) =~= close);
}

/// Escaped text holds no angle bracket, so a message cannot open or close a
/// tag.
pub proof fn law_escaped_message_is_inert(s: Seq<char>, i: int)
    requires
        0 <= i < html_escaped(s).len(),
    ensures
        html_escaped(s)[i] != '<',
        html_escaped(s)[i] != '>',
    decreases s.len(),
{
    reveal_strlit("&amp;");
    reveal_strlit("&lt;");
    reveal_strlit("&gt;");
    let head = html_escaped(s.drop_last());
    if i < head.len() {
        law_escaped_message_is_inert(s.drop_last(), i);
    } else {
        assert(html_escaped(s)[i] == html_entity(s.last())[i - head.len()]);
    }
}

} // verus!
