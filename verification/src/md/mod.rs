//! Mermaid blocks in Markdown documents: find the fences, write edited
//! diagram sources back into them, and render whole documents to HTML with
//! the diagrams inlined as SVG.
//!
//! Blocks are located through the Markdown syntax tree, so tilde fences,
//! info strings and fences inside block quotes are all detected.

pub mod html;
pub mod laws;
pub mod outside;
pub mod page_laws;
pub mod splice;

pub use crate::md::html::{render_blocks, render_html, try_render_html};
pub use crate::md::splice::{splice_block, try_splice_block};

use crate::md::outside::{document, read_document};
use crate::model::opt_text;
use crate::text::{chars_of, eq_ignore_case, lower};
use std::ops::Range;
use vstd::prelude::*;

verus! {

/// A code block of a Markdown document.
#[derive(Debug)]
pub struct Fence {
    /// The language of the info string.
    pub lang: Option<String>,
    /// What stands between the fence lines.
    pub source: String,
    /// Where the whole block stands, as byte offsets.
    pub span: Option<(usize, usize)>,
}

/// A [`Fence`] in mathematical terms.
#[verifier::ext_equal]
pub struct FenceView {
    pub lang: Option<Seq<char>>,
    pub source: Seq<char>,
    pub span: Option<(usize, usize)>,
}

impl View for Fence {
    type V = FenceView;

    open spec fn view(&self) -> FenceView {
        FenceView { lang: opt_text(self.lang), source: self.source@, span: self.span }
    }
}

/// The fence of a node that is a code block.
pub open spec fn fence_view(f: Option<Fence>) -> Option<FenceView> {
    match f {
        Some(f) => Some(f@),
        None => None,
    }
}

/// A node of a Markdown syntax tree, as far as code blocks go.
#[derive(Debug)]
pub struct MdNode {
    pub fence: Option<Fence>,
    pub children: Vec<MdNode>,
}

/// An [`MdNode`] in mathematical terms.
#[verifier::ext_equal]
pub struct Tree {
    pub fence: Option<FenceView>,
    pub children: Seq<Tree>,
}

pub open spec fn tree_views(v: Seq<MdNode>) -> Seq<Tree>
    decreases v,
{
    Seq::new(
        v.len(),
        |i: int|
            if 0 <= i < v.len() {
                tree_view(v[i])
            } else {
                arbitrary()
            },
    )
}

pub open spec fn tree_view(n: MdNode) -> Tree
    decreases n,
{
    Tree { fence: fence_view(n.fence), children: tree_views(n.children@) }
}

impl View for MdNode {
    type V = Tree;

    open spec fn view(&self) -> Tree {
        tree_view(*self)
    }
}

/// One mermaid (or mmd) fence found in a Markdown document.
#[derive(Debug)]
pub struct MermaidBlock {
    /// Diagram source between the fences.
    pub source: String,
    /// Byte range of the whole fence, opening through closing line, in the
    /// document.
    pub span: Range<usize>,
    /// Position among the document's mermaid blocks, from 0.
    pub index: usize,
}

/// A [`MermaidBlock`] in mathematical terms.
#[verifier::ext_equal]
pub struct BlockView {
    pub source: Seq<char>,
    pub start: int,
    pub end: int,
    pub index: int,
}

impl View for MermaidBlock {
    type V = BlockView;

    open spec fn view(&self) -> BlockView {
        BlockView {
            source: self.source@,
            start: self.span.start as int,
            end: self.span.end as int,
            index: self.index as int,
        }
    }
}

impl Clone for MermaidBlock {
    fn clone(&self) -> (r: Self)
        ensures
            r@ == self@,
    {
        MermaidBlock {
            source: self.source.clone(),
            span: self.span.start..self.span.end,
            index: self.index,
        }
    }
}

/// Mermaid blocks in mathematical terms.
pub open spec fn block_views(v: Seq<MermaidBlock>) -> Seq<BlockView> {
    v.map_values(|b: MermaidBlock| b@)
}

/// Whether an info string names a diagram: `mermaid` or `mmd`, letter case
/// aside.
pub open spec fn is_diagram(lang: Option<Seq<char>>) -> bool {
    match lang {
        Some(l) => lower(l) == lower("mermaid"@) || lower(l) == lower("mmd"@),
        None => false,
    }
}

/// The blocks `found` so far with that of a node, if it is one.
pub open spec fn with_fence(fence: Option<FenceView>, found: Seq<BlockView>) -> Seq<BlockView> {
    match fence {
        Some(f) => match f.span {
            Some((start, end)) => {
                if is_diagram(f.lang) {
                    found.push(
                        BlockView {
                            source: f.source,
                            start: start as int,
                            end: end as int,
                            index: found.len() as int,
                        },
                    )
                } else {
                    found
                }
            },
            None => found,
        },
        None => found,
    }
}

/// The blocks `found` so far with those of a tree: its own, then those of
/// its children in order.
pub open spec fn walked(t: Tree, found: Seq<BlockView>) -> Seq<BlockView>
    decreases t, 0nat,
{
    walked_all(t.children, t.children.len(), with_fence(t.fence, found))
}

/// The blocks `found` so far with those of the first `k` trees.
pub open spec fn walked_all(ts: Seq<Tree>, k: nat, found: Seq<BlockView>) -> Seq<BlockView>
    decreases ts, k,
{
    if k == 0 || k > ts.len() {
        found
    } else {
        walked(ts[k - 1], walked_all(ts, (k - 1) as nat, found))
    }
}

/// The mermaid blocks of a syntax tree, if there is one.
pub open spec fn blocks_in(t: Option<Tree>) -> Seq<BlockView> {
    match t {
        Some(t) => walked(t, Seq::empty()),
        None => Seq::empty(),
    }
}

/// The mermaid blocks of a document.
pub open spec fn found(md: Seq<char>) -> Seq<BlockView> {
    blocks_in(document(md))
}

fn diagram_lang(lang: &Option<String>) -> (r: bool)
    ensures
        r == is_diagram(opt_text(*lang)),
{
    match lang {
        Some(l) => {
            let c = chars_of(l.as_str());
            eq_ignore_case(c.as_slice(), "mermaid") || eq_ignore_case(c.as_slice(), "mmd")
        },
        None => false,
    }
}

fn walk(node: &MdNode, out: &mut Vec<MermaidBlock>)
    ensures
        block_views(final(out)@) == walked(node@, block_views(old(out)@)),
    decreases node,
{
    let ghost before = block_views(out@);
    if let Some(f) = &node.fence {
        if diagram_lang(&f.lang) {
            if let Some((start, end)) = f.span {
                let index: usize = out.len();
                out.push(MermaidBlock { source: f.source.clone(), span: start..end, index });
            }
        }
    }
    assert(block_views(out@) =~= with_fence(node@.fence, before));
    walk_all(&node.children, out);
}

fn walk_all(nodes: &Vec<MdNode>, out: &mut Vec<MermaidBlock>)
    ensures
        block_views(final(out)@) == walked_all(
            tree_views(nodes@),
            nodes@.len(),
            block_views(old(out)@),
        ),
    decreases nodes,
{
    let ghost before = block_views(out@);
    let ghost trees = tree_views(nodes@);
    let mut i: usize = 0;
    while i < nodes.len()
        invariant
            i <= nodes@.len(),
            trees == tree_views(nodes@),
            block_views(out@) == walked_all(trees, i as nat, before),
        decreases nodes@.len() - i,
    {
        assert(trees[i as int] == nodes@[i as int]@);
        walk(&nodes[i], out);
        i += 1;
    }
}

/// All mermaid blocks of a syntax tree, in the order of the tree.
pub fn tree_blocks(tree: &MdNode) -> (r: Vec<MermaidBlock>)
    ensures
        block_views(r@) == blocks_in(Some(tree@)),
{
    let mut out: Vec<MermaidBlock> = Vec::new();
    assert(block_views(out@) =~= Seq::empty());
    walk(tree, &mut out);
    out
}

/// All mermaid blocks of a document, in source order.
pub fn mermaid_blocks(md: &str) -> (r: Vec<MermaidBlock>)
    ensures
        block_views(r@) == found(md@),
{
    match read_document(md) {
        Some(tree) => tree_blocks(&tree),
        None => {
            let out: Vec<MermaidBlock> = Vec::new();
            assert(block_views(out@) =~= Seq::empty());
            out
        },
    }
}

} // verus!
