//! What the `markdown` crate computes.

use crate::md::{fence_view, tree_views, Fence, MdNode, Tree};
use crate::model::opt_text;
use vstd::prelude::*;

verus! {

/// A node of the syntax tree that `markdown` builds: a
/// `markdown::mdast::Node` with all nodes below it.
#[verifier::external_body]
pub struct SyntaxNode {
    node: markdown::mdast::Node,
}

/// What a syntax tree node holds: the code block that it is, if it is one,
/// and the nodes below it in order.
pub uninterp spec fn contents(n: SyntaxNode) -> Tree;

/// The syntax tree of a Markdown document, where `markdown` builds one.
pub uninterp spec fn document(md: Seq<char>) -> Option<Tree>;

/// `markdown::to_mdast` with default options builds the syntax tree of a
/// document. It depends on the document alone; what the tree is for a given
/// document is not stated.
#[verifier::external_body]
fn syntax_tree(md: &str) -> (r: Option<SyntaxNode>)
    ensures
        match r {
            Some(n) => document(md@) == Some(contents(n)),
            None => document(md@) is None,
        },
{
    match markdown::to_mdast(md, &markdown::ParseOptions::default()) {
        Ok(node) => Some(SyntaxNode { node }),
        Err(_) => None,
    }
}

/// The language, the text and the byte offsets of a `markdown::mdast::Node`
/// that is a code block, and nothing for any other node.
#[verifier::external_body]
fn code_of(n: &SyntaxNode) -> (r: Option<Fence>)
    ensures
        fence_view(r) == contents(*n).fence,
{
    match &n.node {
        markdown::mdast::Node::Code(c) => Some(Fence {
            lang: c.lang.clone(),
            source: c.value.clone(),
            span: c.position.as_ref().map(|p| (p.start.offset, p.end.offset)),
        }),
        _ => None,
    }
}

/// `markdown::mdast::Node::children` gives the nodes below a node in order;
/// a node that cannot have any has none.
#[verifier::external_body]
fn children_of(n: &SyntaxNode) -> (r: Vec<SyntaxNode>)
    ensures
        r@.map_values(|c: SyntaxNode| contents(c)) == contents(*n).children,
{
    match n.node.children() {
        Some(below) => below.iter().map(|c| SyntaxNode { node: c.clone() }).collect(),
        None => Vec::new(),
    }
}

fn convert(n: &SyntaxNode) -> (r: MdNode)
    ensures
        r@ == contents(*n),
    decreases contents(*n),
{
    let fence = code_of(n);
    let below = children_of(n);
    let ghost whole = contents(*n);
    let ghost kids = whole.children;
    let mut children: Vec<MdNode> = Vec::new();
    let mut i: usize = 0;
    assert(tree_views(children@) =~= kids.take(0));
    while i < below.len()
        invariant
            i <= below@.len(),
            children@.len() == i,
            whole == contents(*n),
            kids == whole.children,
            kids == below@.map_values(|c: SyntaxNode| contents(c)),
            tree_views(children@) == kids.take(i as int),
        decreases below@.len() - i,
    {
        assert(kids[i as int] == contents(below@[i as int]));
        assert(decreases_to!(whole => whole.children));
        assert(decreases_to!(kids => kids[i as int]));
        let ghost before = children@;
        let child = convert(&below[i]);
        children.push(child);
        i += 1;
        assert(tree_views(children@) =~= kids.take(i as int)) by {
            assert forall|j: int| 0 <= j < i implies tree_views(children@)[j] == kids.take(
                i as int,
            )[j] by {
                if j < i - 1 {
                    assert(tree_views(before)[j] == kids.take(i - 1)[j]);
                    assert(children@[j] == before[j]);
                }
            }
        }
    }
    assert(kids.take(kids.len() as int) =~= kids);
    MdNode { fence, children }
}

/// The syntax tree of a document as far as code blocks go.
pub fn read_document(md: &str) -> (r: Option<MdNode>)
    ensures
        match r {
            Some(n) => document(md@) == Some(n@),
            None => document(md@) is None,
        },
{
    match syntax_tree(md) {
        Some(n) => Some(convert(&n)),
        None => None,
    }
}

/// A Markdown document as HTML with its raw HTML kept, where `markdown`
/// can convert it.
pub uninterp spec fn html_with_raw(source: Seq<char>) -> Option<Seq<char>>;

/// A Markdown document as HTML with its raw HTML escaped.
pub uninterp spec fn html_without_raw(source: Seq<char>) -> Seq<char>;

/// `markdown::to_html_with_options`, with default options but for raw HTML,
/// which is allowed. It depends on the document alone; what the HTML is for
/// a given document is not stated.
#[verifier::external_body]
fn convert_with_raw(source: &str) -> (r: Option<String>)
    ensures
        opt_text(r) == html_with_raw(source@),
{
    let options = markdown::Options {
        compile: markdown::CompileOptions {
            allow_dangerous_html: true,
            ..markdown::CompileOptions::default()
        },
        ..markdown::Options::default()
    };
    markdown::to_html_with_options(source, &options).ok()
}

/// `markdown::to_html` depends on the document alone; what the HTML is for a
/// given document is not stated. It does not fail: only documents with
/// JavaScript syntax can, and those are not enabled by default.
pub assume_specification[ markdown::to_html ](value: &str) -> (r: String)
    ensures
        r@ == html_without_raw(value@),
;

/// A Markdown document as HTML.
pub open spec fn compiled(source: Seq<char>) -> Seq<char> {
    match html_with_raw(source) {
        Some(h) => h,
        None => html_without_raw(source),
    }
}

/// A Markdown document as HTML, its raw HTML kept.
pub fn to_page(source: &str) -> (r: String)
    ensures
        r@ == compiled(source@),
{
    match convert_with_raw(source) {
        Some(h) => h,
        None => markdown::to_html(source),
    }
}

} // verus!
