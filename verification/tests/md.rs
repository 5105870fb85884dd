//! Diagrams inside documents.

use flowmaid::md::html::{html_escape, render_blocks, try_render_html};
use flowmaid::md::mermaid_blocks;
use flowmaid::md::splice::{place_of, splice_at, try_splice_block};

const DOC: &str = "# Title\n\nintro text\n\n```mermaid\nflowchart TD\nA-->B\n```\n\n\
                   between\n\n```js\nconsole.log(1)\n```\n\n\
                   ~~~mermaid\npie\n\"x\" : 1\n~~~\n\ntail\n";

fn draw(source: &str) -> Result<String, String> {
    if source.starts_with("gantt") {
        Err("gantt is not supported yet <sorry>".to_string())
    } else {
        Ok("<svg></svg>".to_string())
    }
}

fn splice_block(md: &str, index: usize, source: &str) -> Option<String> {
    try_splice_block(md, index, source).unwrap()
}

fn render_html(md: &str) -> String {
    try_render_html(md, draw).unwrap()
}

#[test]
fn blocks_are_found_in_order_with_spans() {
    let blocks = mermaid_blocks(DOC);
    assert_eq!(blocks.len(), 2, "the js fence is not a mermaid block");
    assert!(blocks[0].source.starts_with("flowchart TD"));
    assert!(blocks[1].source.starts_with("pie"));
    assert!(DOC[blocks[0].span.clone()].starts_with("```mermaid"));
    assert!(DOC[blocks[1].span.clone()].starts_with("~~~mermaid"));
    assert_eq!((blocks[0].index, blocks[1].index), (0, 1));
}

#[test]
fn splice_replaces_only_the_target_block() {
    let out = splice_block(DOC, 1, "pie\n\"y\" : 9").unwrap();
    assert!(out.contains("~~~mermaid\npie\n\"y\" : 9\n~~~"));
    assert!(out.contains("A-->B"), "block #1 untouched");
    assert!(out.contains("console.log(1)") && out.contains("tail"));
    assert!(splice_block(DOC, 5, "x").is_none());
    assert!(splice_block("- item\n\n    ```mermaid\n    A-->B\n    ```\n", 0, "x").is_none());
}

#[test]
fn render_html_inlines_svg_and_reports_bad_blocks() {
    let html = render_html(DOC);
    assert!(html.contains("<h1>Title</h1>"));
    assert_eq!(html.matches("<figure class=\"flowmaid-diagram\">").count(), 2);
    assert!(html.contains("<svg"), "diagrams inlined as SVG");
    assert!(html.contains("console.log"), "js fence stays a code block");
    assert!(!html.contains("flowmaid:block:"), "no markers leak");

    let bad = "text\n\n```mermaid\ngantt\nnope\n```\n";
    let html = render_html(bad);
    assert!(html.contains("flowmaid-error"));
    assert!(html.contains("not supported yet"));
}

#[test]
fn render_blocks_matches_block_order() {
    let out = render_blocks(DOC, draw);
    assert_eq!(out.len(), 2);
    assert!(out.iter().all(|r| r.is_ok()));
}

#[test]
fn messages_cannot_open_tags() {
    let html = render_html("```mermaid\ngantt\n```\n");
    assert!(html.contains("mermaid block #1: gantt is not supported yet &lt;sorry&gt;"), "{html}");
    assert_eq!(html_escape("a & <b>"), "a &amp; &lt;b&gt;");
}

#[test]
fn splicing_counts_bytes() {
    let doc = "é\n\n```mermaid\nA\n```\n";
    let out = splice_block(doc, 0, "B").unwrap();
    assert_eq!(out, "é\n\n```mermaid\nB\n```\n");
    assert_eq!(splice_block(&out, 0, "A").unwrap(), doc);
    let chars: Vec<char> = doc.chars().collect();
    assert_eq!(place_of(&chars, 0), Some(0));
    assert_eq!(place_of(&chars, 1), None);
    assert_eq!(place_of(&chars, 2), Some(1));
    assert!(splice_at(doc, 4, 20, "B").is_some());
}

#[test]
fn the_last_splice_wins() {
    let once = splice_block(DOC, 0, "x").unwrap();
    let twice = splice_block(&once, 0, "y").unwrap();
    assert_eq!(twice, splice_block(DOC, 0, "y").unwrap());
}

#[test]
fn documents_without_blocks_are_plain_pages() {
    assert!(mermaid_blocks("# Hi\n").is_empty());
    assert_eq!(render_html("# Hi\n"), "<h1>Hi</h1>\n");
}
