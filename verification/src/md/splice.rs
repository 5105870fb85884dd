//! Writing an edited diagram source back into its fence.

use crate::md::{block_views, found, mermaid_blocks, BlockView, MermaidBlock};
use crate::text::{
    chars_of, find_char, first_index, has_prefix, last_index, rfind_char, starts_with, string_of,
};
use vstd::prelude::*;

verus! {

/// A block whose byte range does not lie on the characters of its document.
#[derive(Debug, Clone, Copy, PartialEq, Eq, Structural)]
pub struct BadSpan;

/// How many bytes a character takes in UTF-8.
pub open spec fn byte_width(c: char) -> int {
    let u = c as u32;
    if u < 0x80 {
        1
    } else if u < 0x800 {
        2
    } else if u < 0x10000 {
        3
    } else {
        4
    }
}

fn width(c: char) -> (r: usize)
    ensures
        r == byte_width(c),
{
    let u: u32 = c as u32;
    if u < 0x80 {
        1
    } else if u < 0x800 {
        2
    } else if u < 0x10000 {
        3
    } else {
        4
    }
}

/// The position from `k` on of the character that starts `bytes` bytes after
/// position `k`, or of the end of the text.
pub open spec fn place_from(s: Seq<char>, k: int, bytes: int) -> Option<int>
    decreases s.len() - k,
{
    if bytes == 0 {
        Some(k)
    } else if k < 0 || k >= s.len() || bytes < byte_width(s[k]) {
        None
    } else {
        place_from(s, k + 1, bytes - byte_width(s[k]))
    }
}

/// The position of the character that starts at byte `offset`.
pub open spec fn place(s: Seq<char>, offset: int) -> Option<int> {
    place_from(s, 0, offset)
}

pub proof fn lemma_place_from(s: Seq<char>, k: int, bytes: int)
    requires
        0 <= k <= s.len(),
    ensures
        place_from(s, k, bytes) matches Some(p) ==> k <= p <= s.len(),
    decreases s.len() - k,
{
    if bytes != 0 && k < s.len() && bytes >= byte_width(s[k]) {
        lemma_place_from(s, k + 1, bytes - byte_width(s[k]));
    }
}

pub fn place_of(s: &[char], offset: usize) -> (r: Option<usize>)
    ensures
        match r {
            Some(p) => place(s@, offset as int) == Some(p as int) && p <= s@.len(),
            None => place(s@, offset as int) is None,
        },
{
    let mut left: usize = offset;
    let mut k: usize = 0;
    let n: usize = s.len();
    while left > 0
        invariant
            n == s@.len(),
            k <= n,
            place(s@, offset as int) == place_from(s@, k as int, left as int),
        decreases left,
    {
        if k >= n {
            return None;
        }
        let w: usize = width(s[k]);
        if left < w {
            return None;
        }
        left -= w;
        k += 1;
    }
    Some(k)
}

/// Whether a byte range lies on the characters of a text.
pub open spec fn on_characters(s: Seq<char>, start: int, end: int) -> bool {
    match (place(s, start), place(s, end)) {
        (Some(a), Some(b)) => a <= b,
        _ => false,
    }
}

/// Whether a line opens or closes a fence that is not indented.
pub open spec fn is_fence_line(s: Seq<char>) -> bool {
    has_prefix(s, "```"@) || has_prefix(s, "~~~"@)
}

/// `s` without its line breaks at the end.
pub open spec fn without_breaks(s: Seq<char>) -> Seq<char>
    decreases s.len(),
{
    if s.len() > 0 && s.last() == '\n' {
        without_breaks(s.drop_last())
    } else {
        s
    }
}

/// The first and the last line of a block of at least two lines.
pub open spec fn fence_lines(block: Seq<char>) -> Option<(Seq<char>, Seq<char>)> {
    match (first_index(block, '\n'), last_index(block, '\n')) {
        (Some(open), Some(close)) => Some((block.take(open), block.skip(close + 1))),
        _ => None,
    }
}

/// The block `block` with another content between its fence lines, where
/// both are genuine fences.
pub open spec fn refilled(block: Seq<char>, source: Seq<char>) -> Option<Seq<char>> {
    match fence_lines(block) {
        Some((open, close)) => {
            if is_fence_line(open) && is_fence_line(close) {
                Some(open + "\n"@ + without_breaks(source) + "\n"@ + close)
            } else {
                None
            }
        },
        None => None,
    }
}

/// `md` with another content in the block between the positions `a` and `b`.
pub open spec fn spliced(md: Seq<char>, a: int, b: int, source: Seq<char>) -> Option<Seq<char>> {
    match refilled(md.subrange(a, b), source) {
        Some(block) => Some(md.take(a) + block + md.skip(b)),
        None => None,
    }
}

fn fence_line(s: &[char]) -> (r: bool)
    ensures
        r == is_fence_line(s@),
{
    starts_with(s, "```") || starts_with(s, "~~~")
}

fn drop_breaks<'a>(s: &'a [char]) -> (r: &'a [char])
    ensures
        r@ == without_breaks(s@),
{
    let mut n: usize = s.len();
    assert(s@.take(n as int) =~= s@);
    while n > 0 && s[n - 1] == '\n'
        invariant
            n <= s@.len(),
            without_breaks(s@) == without_breaks(s@.take(n as int)),
        decreases n,
    {
        assert(s@.take(n as int).drop_last() =~= s@.take(n - 1));
        n -= 1;
    }
    let r = &s[0..n];
    assert(r@ =~= s@.take(n as int));
    r
}

fn refill(block: &[char], source: &[char]) -> (r: Option<String>)
    ensures
        crate::model::opt_text(r) == refilled(block@, source@),
{
    let n: usize = block.len();
    let open_len: usize = match find_char(block, '\n') {
        Some(i) => i,
        None => return None,
    };
    let close_start: usize = match rfind_char(block, '\n') {
        Some(i) => i,
        None => return None,
    };
    proof {
        crate::text::lemma_index_from(block@, '\n', 0);
        crate::text::lemma_last_index(block@, '\n');
    }
    let open = &block[0..open_len];
    let close = &block[close_start + 1..n];
    assert(open@ =~= block@.take(open_len as int));
    assert(close@ =~= block@.skip(close_start + 1));
    if !fence_line(open) || !fence_line(close) {
        return None;
    }
    let mut out = string_of(open);
    out.append("\n");
    out.append(string_of(drop_breaks(source)).as_str());
    out.append("\n");
    out.append(string_of(close).as_str());
    Some(out)
}

/// Replace the content of the block that spans the bytes `start` to `end`,
/// keeping its fence lines. Nothing is returned where the block has fewer
/// than two lines, or where its first or last line is not a fence.
pub fn splice_at(md: &str, start: usize, end: usize, source: &str) -> (r: Option<String>)
    requires
        on_characters(md@, start as int, end as int),
    ensures
        crate::model::opt_text(r) == spliced(
            md@,
            place(md@, start as int)->Some_0,
            place(md@, end as int)->Some_0,
            source@,
        ),
{
    let chars = chars_of(md);
    let s = chars.as_slice();
    let a: usize = match place_of(s, start) {
        Some(a) => a,
        None => return None,
    };
    let b: usize = match place_of(s, end) {
        Some(b) => b,
        None => return None,
    };
    let n: usize = s.len();
    let body = chars_of(source);
    let block = &s[a..b];
    match refill(block, body.as_slice()) {
        Some(text) => {
            let head = &s[0..a];
            let tail = &s[b..n];
            assert(head@ =~= md@.take(a as int));
            assert(tail@ =~= md@.skip(b as int));
            let mut out = string_of(head);
            out.append(text.as_str());
            out.append(string_of(tail).as_str());
            Some(out)
        },
        None => None,
    }
}

/// Whether block `index`, if the document has one, lies on its characters.
pub open spec fn block_fits(md: Seq<char>, blocks: Seq<BlockView>, index: int) -> bool {
    0 <= index < blocks.len() ==> on_characters(md, blocks[index].start, blocks[index].end)
}

/// A document with another content in its block `index`.
pub open spec fn with_block(
    md: Seq<char>,
    blocks: Seq<BlockView>,
    index: int,
    source: Seq<char>,
) -> Option<Seq<char>> {
    if 0 <= index < blocks.len() {
        spliced(
            md,
            place(md, blocks[index].start)->Some_0,
            place(md, blocks[index].end)->Some_0,
            source,
        )
    } else {
        None
    }
}

/// [`splice_block`] over blocks that were found already.
pub fn splice_found(md: &str, blocks: &Vec<MermaidBlock>, index: usize, source: &str) -> (r: Option<
    String,
>)
    requires
        block_fits(md@, block_views(blocks@), index as int),
    ensures
        crate::model::opt_text(r) == with_block(
            md@,
            block_views(blocks@),
            index as int,
            source@,
        ),
{
    if index >= blocks.len() {
        return None;
    }
    let b = &blocks[index];
    assert(block_views(blocks@)[index as int] == b@);
    splice_at(md, b.span.start, b.span.end, source)
}

fn block_lies_on_characters(md: &str, blocks: &Vec<MermaidBlock>, index: usize) -> (r: bool)
    ensures
        r == block_fits(md@, block_views(blocks@), index as int),
{
    if index >= blocks.len() {
        return true;
    }
    let b = &blocks[index];
    assert(block_views(blocks@)[index as int] == b@);
    let chars = chars_of(md);
    match (place_of(chars.as_slice(), b.span.start), place_of(chars.as_slice(), b.span.end)) {
        (Some(a), Some(z)) => a <= z,
        _ => false,
    }
}

/// Replace the content of mermaid block `index` with `source`, keeping the
/// opening and closing fence lines verbatim. Returns `None` when the block
/// does not exist or its fences are indented.
pub fn splice_block(md: &str, index: usize, source: &str) -> (r: Option<String>)
    requires
        block_fits(md@, found(md@), index as int),
    ensures
        crate::model::opt_text(r) == with_block(md@, found(md@), index as int, source@),
{
    let blocks = mermaid_blocks(md);
    splice_found(md, &blocks, index, source)
}

/// [`splice_block`], with an error where the span of the block does not lie
/// on the characters of the document.
pub fn try_splice_block(md: &str, index: usize, source: &str) -> (r: Result<
    Option<String>,
    BadSpan,
>)
    ensures
        match r {
            Ok(text) => block_fits(md@, found(md@), index as int) && crate::model::opt_text(text)
                == with_block(md@, found(md@), index as int, source@),
            Err(_) => !block_fits(md@, found(md@), index as int),
        },
{
    let blocks = mermaid_blocks(md);
    if block_lies_on_characters(md, &blocks, index) {
        Ok(splice_block(md, index, source))
    } else {
        Err(BadSpan)
    }
}

} // verus!
