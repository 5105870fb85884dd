//! Whole documents as HTML, with the diagrams inlined.

use crate::md::outside::{compiled, to_page};
use crate::md::splice::{place, place_of, BadSpan};
use crate::md::{block_views, found, mermaid_blocks, BlockView, MermaidBlock};
use crate::text::{chars_of, decimal, decimal_string, find, find_seq, string_of};
use vstd::prelude::*;

verus! {

/// What stands for a character in HTML text.
pub open spec fn html_entity(c: char) -> Seq<char> {
    if c == '&' {
        "&amp;"@
    } else if c == '<' {
        "&lt;"@
    } else if c == '>' {
        "&gt;"@
    } else {
        seq![c]
    }
}

/// `s` as HTML text.
pub open spec fn html_escaped(s: Seq<char>) -> Seq<char>
    decreases s.len(),
{
    if s.len() == 0 {
        Seq::empty()
    } else {
        html_escaped(s.drop_last()) + html_entity(s.last())
    }
}

pub fn html_escape(s: &str) -> (r: String)
    ensures
        r@ == html_escaped(s@),
{
    let chars = chars_of(s);
    let mut out = String::new();
    let mut i: usize = 0;
    assert(out@ =~= html_escaped(s@.take(0)));
    while i < chars.len()
        invariant
            i <= chars@.len(),
            chars@ == s@,
            out@ == html_escaped(s@.take(i as int)),
        decreases chars@.len() - i,
    {
        let ghost before = out@;
        assert(s@.take(i + 1).drop_last() =~= s@.take(i as int));
        let c = chars[i];
        if c == '&' {
            out.append("&amp;");
        } else if c == '<' {
            out.append("&lt;");
        } else if c == '>' {
            out.append("&gt;");
        } else {
            out.push(c);
            assert(out@ =~= before + seq![c]);
        }
        i += 1;
    }
    assert(s@.take(s@.len() as int) =~= s@);
    out
}

/// The raw HTML that stands for block `index` while the document is
/// converted.
pub open spec fn marker_text(index: int) -> Seq<char> {
    "<!--flowmaid:block:"@ + decimal(index as nat) + "-->"@
}

pub fn marker(index: usize) -> (r: String)
    ensures
        r@ == marker_text(index as int),
{
    let mut r = "<!--flowmaid:block:".to_owned();
    r.append(decimal_string(index).as_str());
    r.append("-->");
    r
}

/// The position behind the first `k` blocks.
pub open spec fn behind(md: Seq<char>, blocks: Seq<BlockView>, k: int) -> int {
    if k <= 0 {
        0
    } else {
        place(md, blocks[k - 1].end)->Some_0
    }
}

/// Whether the blocks lie on the characters of the document, none before
/// the end of the one before it.
pub open spec fn in_order(md: Seq<char>, blocks: Seq<BlockView>) -> bool {
    forall|i: int|
        0 <= i < blocks.len() ==> place(md, (#[trigger] blocks[i]).start) is Some && place(
            md,
            blocks[i].end,
        ) is Some && behind(md, blocks, i) <= place(md, blocks[i].start)->Some_0
}

/// Whether each block has its position for its index.
pub open spec fn numbered(blocks: Seq<BlockView>) -> bool {
    forall|i: int| 0 <= i < blocks.len() ==> (#[trigger] blocks[i]).index == i
}

/// The document up to the end of its first `k` blocks, with markers for
/// them.
pub open spec fn marked_to(md: Seq<char>, blocks: Seq<BlockView>, k: int) -> Seq<char>
    decreases k,
{
    if k <= 0 {
        Seq::empty()
    } else {
        marked_to(md, blocks, k - 1) + md.subrange(
            behind(md, blocks, k - 1),
            place(md, blocks[k - 1].start)->Some_0,
        ) + marker_text(blocks[k - 1].index)
    }
}

/// The document with a marker for each block.
pub open spec fn marked(md: Seq<char>, blocks: Seq<BlockView>) -> Seq<char> {
    marked_to(md, blocks, blocks.len() as int) + md.skip(behind(md, blocks, blocks.len() as int))
}

/// `s` with `by` for each `pattern`, from left to right.
pub open spec fn replaced(s: Seq<char>, pattern: Seq<char>, by: Seq<char>) -> Seq<char>
    decreases s.len(),
{
    match find_seq(s, pattern) {
        Some(i) => {
            if 0 <= i && 0 < pattern.len() && i + pattern.len() <= s.len() {
                s.take(i) + by + replaced(s.skip(i + pattern.len()), pattern, by)
            } else {
                s
            }
        },
        None => s,
    }
}

fn replace(s: &str, pattern: &str, by: &str) -> (r: String)
    requires
        pattern@.len() > 0,
    ensures
        r@ == replaced(s@, pattern@, by@),
{
    let chars = chars_of(s);
    let n: usize = chars.len();
    let size: usize = chars_of(pattern).len();
    let mut out = String::new();
    let mut at: usize = 0;
    assert(out@ + replaced(s@.skip(0), pattern@, by@) =~= replaced(s@, pattern@, by@)) by {
        assert(s@.skip(0) =~= s@);
    }
    loop
        invariant
            chars@ == s@,
            n == s@.len(),
            size == pattern@.len(),
            size > 0,
            at <= n,
            out@ + replaced(s@.skip(at as int), pattern@, by@) == replaced(s@, pattern@, by@),
        decreases n - at,
    {
        let rest = &chars.as_slice()[at..n];
        assert(rest@ =~= s@.skip(at as int));
        match find(rest, pattern) {
            Some(i) => {
                proof {
                    crate::text::lemma_find_from(rest@, pattern@, 0);
                }
                let kept = &rest[0..i];
                assert(kept@ =~= rest@.take(i as int));
                let ghost before = out@;
                out.append(string_of(kept).as_str());
                out.append(by);
                at = at + i + size;
                assert(s@.skip(at as int) =~= rest@.skip(i + size));
                assert(out@ + replaced(s@.skip(at as int), pattern@, by@) =~= before + replaced(
                    rest@,
                    pattern@,
                    by@,
                ));
            },
            None => {
                out.append(string_of(rest).as_str());
                return out;
            },
        }
    }
}

/// What a rendered block becomes: a figure, or the message that tells why
/// there is none.
pub open spec fn shown_block(index: int, result: Result<Seq<char>, Seq<char>>) -> Seq<char> {
    match result {
        Ok(svg) => "<figure class=\"flowmaid-diagram\">"@ + svg + "</figure>"@,
        Err(e) => "<pre class=\"flowmaid-error\">mermaid block #"@ + decimal((index + 1) as nat)
            + ": "@ + html_escaped(e) + "</pre>"@,
    }
}

/// A rendering in mathematical terms.
pub open spec fn result_view(r: Result<String, String>) -> Result<Seq<char>, Seq<char>> {
    match r {
        Ok(s) => Ok(s@),
        Err(e) => Err(e@),
    }
}

/// Renderings in mathematical terms.
pub open spec fn result_views(v: Seq<Result<String, String>>) -> Seq<
    Result<Seq<char>, Seq<char>>,
> {
    v.map_values(|r: Result<String, String>| result_view(r))
}

/// `html` with the renderings of the first `k` blocks for their markers.
pub open spec fn inlined(
    html: Seq<char>,
    blocks: Seq<BlockView>,
    results: Seq<Result<Seq<char>, Seq<char>>>,
    k: int,
) -> Seq<char>
    decreases k,
{
    if k <= 0 {
        html
    } else {
        replaced(
            inlined(html, blocks, results, k - 1),
            marker_text(blocks[k - 1].index),
            shown_block(blocks[k - 1].index, results[k - 1]),
        )
    }
}

/// The page of a document whose blocks were rendered.
pub open spec fn page_text(
    md: Seq<char>,
    blocks: Seq<BlockView>,
    results: Seq<Result<Seq<char>, Seq<char>>>,
) -> Seq<char> {
    inlined(compiled(marked(md, blocks)), blocks, results, blocks.len() as int)
}

fn show_block(index: usize, result: &Result<String, String>) -> (r: String)
    requires
        index < usize::MAX,
    ensures
        r@ == shown_block(index as int, result_view(*result)),
{
    match result {
        Ok(svg) => {
            let mut r = "<figure class=\"flowmaid-diagram\">".to_owned();
            r.append(svg.as_str());
            r.append("</figure>");
            r
        },
        Err(e) => {
            let mut r = "<pre class=\"flowmaid-error\">mermaid block #".to_owned();
            r.append(decimal_string(index + 1).as_str());
            r.append(": ");
            r.append(html_escape(e.as_str()).as_str());
            r.append("</pre>");
            r
        },
    }
}

/// The document with a marker for each block.
pub fn mark_blocks(md: &str, blocks: &Vec<MermaidBlock>) -> (r: String)
    requires
        in_order(md@, block_views(blocks@)),
    ensures
        r@ == marked(md@, block_views(blocks@)),
{
    let ghost views = block_views(blocks@);
    let chars = chars_of(md);
    let s = chars.as_slice();
    let n: usize = s.len();
    let mut source = String::new();
    let mut last: usize = 0;
    let mut i: usize = 0;
    assert(source@ =~= marked_to(md@, views, 0));
    while i < blocks.len()
        invariant
            i <= blocks@.len(),
            views == block_views(blocks@),
            in_order(md@, views),
            s@ == md@,
            n == s@.len(),
            last <= n,
            last == behind(md@, views, i as int),
            source@ == marked_to(md@, views, i as int),
        decreases blocks@.len() - i,
    {
        let b = &blocks[i];
        assert(views[i as int] == b@);
        if let (Some(start), Some(end)) = (place_of(s, b.span.start), place_of(s, b.span.end)) {
            let kept = &s[last..start];
            assert(kept@ =~= md@.subrange(last as int, start as int));
            source.append(string_of(kept).as_str());
            source.append(marker(b.index).as_str());
            last = end;
        }
        i += 1;
    }
    let tail = &s[last..n];
    assert(tail@ =~= md@.skip(last as int));
    source.append(string_of(tail).as_str());
    source
}

/// Swap the markers in `html` for the renderings.
pub fn inline_blocks(
    html: String,
    blocks: &Vec<MermaidBlock>,
    results: &Vec<Result<String, String>>,
) -> (r: String)
    requires
        numbered(block_views(blocks@)),
        results@.len() == blocks@.len(),
    ensures
        r@ == inlined(
            html@,
            block_views(blocks@),
            result_views(results@),
            blocks@.len() as int,
        ),
{
    let ghost views = block_views(blocks@);
    let ghost shown = result_views(results@);
    let ghost whole = html@;
    let mut html = html;
    let mut i: usize = 0;
    while i < blocks.len()
        invariant
            i <= blocks@.len(),
            views == block_views(blocks@),
            numbered(views),
            shown == result_views(results@),
            results@.len() == blocks@.len(),
            html@ == inlined(whole, views, shown, i as int),
        decreases blocks@.len() - i,
    {
        let b = &blocks[i];
        assert(views[i as int] == b@);
        assert(shown[i as int] == result_view(results@[i as int]));
        let m = marker(b.index);
        proof {
            reveal_strlit("<!--flowmaid:block:");
            assert(m@.len() > 0);
        }
        html = replace(html.as_str(), m.as_str(), show_block(b.index, &results[i]).as_str());
        i += 1;
    }
    html
}

/// The page of a document whose blocks were rendered to `results`.
pub fn page(md: &str, blocks: &Vec<MermaidBlock>, results: &Vec<Result<String, String>>) -> (r:
    String)
    requires
        in_order(md@, block_views(blocks@)),
        numbered(block_views(blocks@)),
        results@.len() == blocks@.len(),
    ensures
        r@ == page_text(md@, block_views(blocks@), result_views(results@)),
{
    let source = mark_blocks(md, blocks);
    inline_blocks(to_page(source.as_str()), blocks, results)
}

/// Whether `render` takes every source.
pub open spec fn renders_all<E, F: Fn(&str) -> Result<String, E>>(render: F) -> bool {
    forall|s: &str| #[trigger] call_requires(render, (s,))
}

/// Whether `result` is what `render` may make of `source`.
pub open spec fn outcome<E, F: Fn(&str) -> Result<String, E>>(
    render: F,
    source: Seq<char>,
    result: Result<String, E>,
) -> bool {
    exists|s: &str| s@ == source && #[trigger] call_ensures(render, (s,), result)
}

/// Whether `results` are what `render` may make of the blocks, in order.
pub open spec fn outcomes<E, F: Fn(&str) -> Result<String, E>>(
    render: F,
    blocks: Seq<BlockView>,
    results: Seq<Result<String, E>>,
) -> bool {
    &&& results.len() == blocks.len()
    &&& forall|i: int|
        0 <= i < blocks.len() ==> outcome(render, blocks[i].source, #[trigger] results[i])
}

fn render_found<E, F: Fn(&str) -> Result<String, E>>(
    blocks: &Vec<MermaidBlock>,
    render: &F,
) -> (r: Vec<Result<String, E>>)
    requires
        renders_all(*render),
    ensures
        outcomes(*render, block_views(blocks@), r@),
{
    let ghost views = block_views(blocks@);
    let mut out: Vec<Result<String, E>> = Vec::new();
    let mut i: usize = 0;
    while i < blocks.len()
        invariant
            i <= blocks@.len(),
            views == block_views(blocks@),
            renders_all(*render),
            out@.len() == i,
            forall|j: int| 0 <= j < i ==> outcome(*render, views[j].source, #[trigger] out@[j]),
        decreases blocks@.len() - i,
    {
        let ghost before = out@;
        let source = blocks[i].source.as_str();
        assert(call_requires(*render, (source,)));
        let result = render(source);
        assert(outcome(*render, views[i as int].source, result)) by {
            assert(views[i as int] == blocks@[i as int]@);
            assert(source@ == views[i as int].source && call_ensures(*render, (source,), result));
        }
        out.push(result);
        i += 1;
        assert forall|j: int| 0 <= j < i implies outcome(
            *render,
            views[j].source,
            #[trigger] out@[j],
        ) by {
            if j < i - 1 {
                assert(out@[j] == before[j]);
            }
        }
    }
    out
}

/// Render every mermaid block of a document, in order.
pub fn render_blocks<E, F: Fn(&str) -> Result<String, E>>(md: &str, render: F) -> (r: Vec<
    Result<String, E>,
>)
    requires
        renders_all(render),
    ensures
        outcomes(render, found(md@), r@),
{
    let blocks = mermaid_blocks(md);
    render_found(&blocks, &render)
}

/// Whether `html` is the page of `md` for some outcomes of `render`.
pub open spec fn is_page<F: Fn(&str) -> Result<String, String>>(
    render: F,
    md: Seq<char>,
    html: Seq<char>,
) -> bool {
    exists|results: Seq<Result<String, String>>| #[trigger]
        outcomes(render, found(md), results) && html == page_text(
            md,
            found(md),
            result_views(results),
        )
}

/// Render a whole Markdown document to an HTML fragment with every mermaid
/// block replaced by what `render` makes of it, wrapped in a figure. A block
/// that fails becomes a preformatted message instead.
pub fn render_html<F: Fn(&str) -> Result<String, String>>(md: &str, render: F) -> (r: String)
    requires
        renders_all(render),
        in_order(md@, found(md@)),
    ensures
        is_page(render, md@, r@),
{
    let blocks = mermaid_blocks(md);
    proof {
        crate::md::laws::law_blocks_are_numbered(md@);
    }
    let results = render_found(&blocks, &render);
    let html = page(md, &blocks, &results);
    assert(outcomes(render, found(md@), results@));
    html
}

fn blocks_in_order(md: &str, blocks: &Vec<MermaidBlock>) -> (r: bool)
    ensures
        r == in_order(md@, block_views(blocks@)),
{
    let ghost views = block_views(blocks@);
    let chars = chars_of(md);
    let s = chars.as_slice();
    let mut last: usize = 0;
    let mut i: usize = 0;
    while i < blocks.len()
        invariant
            i <= blocks@.len(),
            views == block_views(blocks@),
            s@ == md@,
            last == behind(md@, views, i as int),
            forall|j: int|
                0 <= j < i ==> place(md@, (#[trigger] views[j]).start) is Some && place(
                    md@,
                    views[j].end,
                ) is Some && behind(md@, views, j) <= place(md@, views[j].start)->Some_0,
        decreases blocks@.len() - i,
    {
        let b = &blocks[i];
        assert(views[i as int] == b@);
        match (place_of(s, b.span.start), place_of(s, b.span.end)) {
            (Some(start), Some(end)) => {
                if start < last {
                    return false;
                }
                last = end;
            },
            _ => return false,
        }
        i += 1;
    }
    true
}

/// [`render_html`], with an error where the blocks do not lie on the
/// characters of the document one behind the other.
pub fn try_render_html<F: Fn(&str) -> Result<String, String>>(md: &str, render: F) -> (r: Result<
    String,
    BadSpan,
>)
    requires
        renders_all(render),
    ensures
        match r {
            Ok(html) => in_order(md@, found(md@)) && is_page(render, md@, html@),
            Err(_) => !in_order(md@, found(md@)),
        },
{
    let blocks = mermaid_blocks(md);
    if blocks_in_order(md, &blocks) {
        Ok(render_html(md, render))
    } else {
        Err(BadSpan)
    }
}

} // verus!
