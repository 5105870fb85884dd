//! How rendered blocks get into a page.

use vstd::prelude::*;

use crate::emit::text_laws::{holds, lemma_holds_here, lemma_holds_last, lemma_holds_more};
use crate::md::html::{
    behind, html_escaped, in_order, marked, marked_to, marker_text, replaced, shown_block,
};
use crate::md::splice::place;
use crate::md::BlockView;
use crate::text::{decimal, find_seq, lemma_find_from, occurs_at};

verus! {

/// A marker gives way to what is put in its place, and everything around it
/// stays; a page without the marker stays as it is.
pub proof fn law_markers_give_way(
    a: Seq<char>,
    p: Seq<char>,
    b: Seq<char>,
    by: Seq<char>,
)
    requires
        p.len() > 0,
        forall|i: int| 0 <= i < a.len() ==> !#[trigger] occurs_at(a + p + b, p, i),
        !holds(b, p),
    ensures
        replaced(a + p + b, p, by) == a + by + b,
        replaced(b, p, by) == b,
{
    let s = a + p + b;
    let n = a.len() as int;
    lemma_find_from(s, p, 0);
    assert(s.subrange(n, n + p.len()) =~= p);
    assert(occurs_at(s, p, n));
    assert(find_seq(s, p) == Some(n));
    assert(s.take(n) =~= a);
    assert(s.skip(n + p.len()) =~= b);
    lemma_find_from(b, p, 0);
    if let Some(k) = find_seq(b, p) {
        assert(occurs_at(b, p, k));
        assert(false);
    }
    assert(replaced(b, p, by) == b);
    assert(replaced(s, p, by) == s.take(n) + by + replaced(s.skip(n + p.len()), p, by));
}

/// A block that was rendered becomes its picture, one that was not the
/// message that tells why, with the number of the block, counted from one.
pub proof fn law_blocks_show_their_results(index: int, result: Result<Seq<char>, Seq<char>>)
    requires
        0 <= index,
    ensures
        match result {
            Ok(svg) => holds(shown_block(index, result), svg),
            Err(e) => holds(shown_block(index, result), html_escaped(e)) && holds(
                shown_block(index, result),
                decimal((index + 1) as nat),
            ),
        },
{
    match result {
        Ok(svg) => {
            lemma_holds_here("<figure class=\"flowmaid-diagram\">"@, svg, "</figure>"@);
        },
        Err(e) => {
            let head = "<pre class=\"flowmaid-error\">mermaid block #"@;
            let number = decimal((index + 1) as nat);
            let text = html_escaped(e);
            lemma_holds_last(head, number);
            lemma_holds_more(head + number, ": "@, number);
            lemma_holds_more(head + number + ": "@, text, number);
            lemma_holds_more(head + number + ": "@ + text, "</pre>"@, number);
            lemma_holds_last(head + number + ": "@, text);
            lemma_holds_more(head + number + ": "@ + text, "</pre>"@, text);
        },
    }
}

proof fn lemma_marked_to(md: Seq<char>, blocks: Seq<BlockView>, k: int, i: int)
    requires
        0 <= i < k <= blocks.len(),
    ensures
        holds(marked_to(md, blocks, k), marker_text(blocks[i].index)),
        holds(
            marked_to(md, blocks, k),
            md.subrange(behind(md, blocks, i), place(md, blocks[i].start)->Some_0),
        ),
    decreases k,
{
    let before = marked_to(md, blocks, k - 1);
    let between = md.subrange(behind(md, blocks, k - 1), place(md, blocks[k - 1].start)->Some_0);
    let last = marker_text(blocks[k - 1].index);
    let own = marker_text(blocks[i].index);
    let text = md.subrange(behind(md, blocks, i), place(md, blocks[i].start)->Some_0);
    if i < k - 1 {
        lemma_marked_to(md, blocks, k - 1, i);
        lemma_holds_more(before, between, own);
        lemma_holds_more(before + between, last, own);
        lemma_holds_more(before, between, text);
        lemma_holds_more(before + between, last, text);
    } else {
        lemma_holds_last(before + between, last);
        lemma_holds_last(before, between);
        lemma_holds_more(before + between, last, between);
    }
}

/// A document with markers holds the marker of each block, and everything
/// that stands outside its blocks.
pub proof fn law_marked_document_keeps_the_rest(md: Seq<char>, blocks: Seq<BlockView>, i: int)
    requires
        in_order(md, blocks),
        0 <= i < blocks.len(),
    ensures
        holds(marked(md, blocks), marker_text(blocks[i].index)),
        holds(
            marked(md, blocks),
            md.subrange(behind(md, blocks, i), place(md, blocks[i].start)->Some_0),
        ),
        holds(marked(md, blocks), md.skip(behind(md, blocks, blocks.len() as int))),
{
    let n = blocks.len() as int;
    let rest = md.skip(behind(md, blocks, n));
    lemma_marked_to(md, blocks, n, i);
    let own = marker_text(blocks[i].index);
    let text = md.subrange(behind(md, blocks, i), place(md, blocks[i].start)->Some_0);
    lemma_holds_more(marked_to(md, blocks, n), rest, own);
    lemma_holds_more(marked_to(md, blocks, n), rest, text);
    lemma_holds_last(marked_to(md, blocks, n), rest);
}

} // verus!
