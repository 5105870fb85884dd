//! Labels: styled runs, lines and widths.

use flowmaid::layout::labels::{line_count, spans};
use flowmaid::layout::width;

fn text_width(s: &str) -> f64 {
    width::text_width(s) as f64 / 1000.0
}

#[test]
fn spans_interpret_bold_italic_and_keep_unknown_tags() {
    assert_eq!(spans("plain"), vec![("plain".into(), false, false)]);
    assert_eq!(
        spans("<b>Go</b> · MongoDB"),
        vec![("Go".into(), true, false), (" · MongoDB".into(), false, false)]
    );
    assert_eq!(
        spans("a <i>b</i> <strong>c</strong>"),
        vec![
            ("a ".into(), false, false),
            ("b".into(), false, true),
            (" ".into(), false, false),
            ("c".into(), true, false),
        ]
    );
    assert_eq!(spans("<x>y"), vec![("<x>y".into(), false, false)]);
    assert_eq!(spans("<b>y"), vec![("y".into(), true, false)]);
    assert_eq!(spans("a < b"), vec![("a < b".into(), false, false)]);
}

#[test]
fn math_spans_render_as_italic_tex_with_fences_stripped() {
    assert_eq!(spans("$$x^2$$"), vec![("x^2".into(), false, true)]);
    assert_eq!(
        spans("area $$\\frac{1}{2}$$ done"),
        vec![
            ("area ".into(), false, false),
            ("\\frac{1}{2}".into(), false, true),
            (" done".into(), false, false),
        ]
    );
    assert_eq!(
        spans("<b>E = $$mc^2$$</b>"),
        vec![("E = ".into(), true, false), ("mc^2".into(), true, true)]
    );
    assert_eq!(spans("$$ 100"), vec![("$$ 100".into(), false, false)]);
    assert_eq!(spans("$$$$"), vec![("$$$$".into(), false, false)]);
    assert_eq!(spans("a $5 b $7"), vec![("a $5 b $7".into(), false, false)]);
    assert!(text_width("$$xy$$") < text_width("$$xy$$ ") + 1.0);
    assert_eq!(text_width("$$xy$$"), text_width("<i>xy</i>"));
}

#[test]
fn styling_tags_do_not_inflate_text_width() {
    let tagged = text_width("<b>Rust</b> · Tonic gRPC");
    let plain = text_width("Rust · Tonic gRPC");
    assert!(tagged >= plain, "bold run measures slightly wider");
    assert!(
        tagged < plain * 1.1,
        "tags themselves must not count: {tagged} vs {plain}"
    );
}

#[test]
fn widths_are_exact_to_the_thousandth() {
    assert_eq!(width::text_width("il"), 6800);
    assert_eq!(width::text_width("Wm\nA"), 24900);
    assert_eq!(width::text_width("<b>A</b>"), 10282);
    assert_eq!(width::text_width("漢"), 14000);
    assert_eq!(width::text_width(""), 0);
}

#[test]
fn lines_are_counted() {
    assert_eq!(line_count(""), 1);
    assert_eq!(line_count("a\nb\n"), 3);
}
