//! Values, names and text that everything else is built on.

use flowmaid::json::{as_array, as_number, as_object, as_str, escape_json_str, obj_get, parse_json};
use flowmaid::markup::{attr, escape, style_attr};
use flowmaid::model::{ClassDiagram, ErDiagram, SequenceDiagram, Visibility};
use flowmaid::advance::scene::{show, QUARTERS};
use flowmaid::num::{parse_num, write_tenths};
use flowmaid::peel::peel_all;

fn chars(s: &str) -> Vec<char> {
    s.chars().collect()
}

#[test]
fn names_are_looked_up_before_they_are_made() {
    let mut c = ClassDiagram::default();
    assert_eq!(c.ensure_class("A"), 0);
    assert_eq!(c.ensure_class("B"), 1);
    assert_eq!(c.ensure_class("A"), 0);
    assert_eq!(c.classes.len(), 2);
    let mut e = ErDiagram::default();
    assert_eq!(e.ensure_entity("users"), 0);
    assert_eq!(e.ensure_entity("posts"), 1);
    assert_eq!(e.ensure_entity("posts"), 1);
    assert!(e.entities[1].attrs.is_empty());
    let mut s = SequenceDiagram::default();
    assert_eq!(s.ensure_participant("x"), 0);
    assert_eq!(s.ensure_participant("x"), 0);
    assert_eq!(s.participants[0].label, "x");
    assert!(!s.participants[0].actor);
}

#[test]
fn visibilities_have_glyphs() {
    assert_eq!(Visibility::Public.glyph(), "+");
    assert_eq!(Visibility::Private.glyph(), "-");
    assert_eq!(Visibility::Protected.glyph(), "#");
    assert_eq!(Visibility::Package.glyph(), "~");
    assert_eq!(Visibility::Unmarked.glyph(), "");
}

#[test]
fn json_values_are_read() {
    let v = parse_json("{\"a\": [1, -2.5, \"x\\n\\u0041\"], \"b\": null}").unwrap();
    let obj = as_object(&v).unwrap();
    let a = as_array(obj_get(obj, "a").unwrap()).unwrap();
    assert_eq!(a.len(), 3);
    assert!(as_number(&a[0]).unwrap().is_positive());
    assert!(!as_number(&a[1]).unwrap().is_non_negative());
    assert_eq!(as_str(&a[2]), Some("x\nA"));
    assert!(obj_get(obj, "c").is_none());
    assert!(parse_json("{\"a\": }").is_err());
    assert!(parse_json("[1] 2").is_err());
    assert!(parse_json("\"open").is_err());
}

#[test]
fn json_strings_read_back() {
    let text = "tab\t quote\" back\\ bell\u{7} umlaut\u{e4}";
    let written = escape_json_str(text);
    assert_ne!(written, text);
    let back = parse_json(&written).unwrap();
    assert_eq!(as_str(&back), Some(text));
}

#[test]
fn numbers_are_written_in_tenths() {
    let n = parse_num(&chars("12.34")).unwrap();
    assert_eq!(write_tenths(&n), parse_num(&chars("12.3")).unwrap());
    assert!(parse_num(&chars("1.2.3")).is_none());
    assert!(parse_num(&chars("")).is_none());
    assert!(parse_num(&chars("0.5")).unwrap().is_in_unit());
    assert!(!parse_num(&chars("1.5")).unwrap().is_in_unit());
}

#[test]
fn markup_is_inert() {
    assert_eq!(escape("a<b & \"c\">"), "a&lt;b &amp; &quot;c&quot;&gt;");
    assert_eq!(escape("plain"), "plain");
    assert_eq!(attr("x", "1"), " x=\"1\"");
    assert_eq!(style_attr(&None, "#fff"), "#fff");
}

#[test]
fn peeling_takes_sources_first() {
    let p = peel_all(&vec![(1, 2), (0, 1)], 3);
    assert_eq!(p.done, vec![0, 1, 2]);
    let looped = peel_all(&vec![(0, 1), (1, 0)], 3);
    assert_eq!(looped.done, vec![2]);
    assert_eq!(looped.is_done, vec![false, false, true]);
}

#[test]
fn json_errors_say_what_is_wrong() {
    let message = |s: &str| parse_json(s).unwrap_err().message;
    assert!(message("\"open").contains("unterminated string"));
    assert!(message("\"\\q\"").contains("invalid escape sequence Some('q')"));
    assert!(message("\"\\u12\"").contains("invalid unicode escape"));
    assert!(message("\"\\ud800\"").contains("invalid unicode codepoint"));
    assert!(message("{1: 2}").contains("expected string"));
    assert!(message("-").contains("invalid number -"));
    assert!(message("tru").contains("expected 'true'"));
    assert!(message("").contains("expected JSON value, got None"));
    assert!(message("[1 2]").contains("expected ',' or ']' in array, got Some('2')"));
    assert!(message("{\"a\" 1}").contains("expected ':' after object key"));
    assert!(message("{\"a\": 1 2}").contains("expected ',' or '}' in object, got Some('2')"));
    assert!(message("[1] 2").contains("trailing data after JSON value"));
}

fn shown_as_a_double(text: &str) {
    let v: f64 = text.parse().unwrap();
    let n = parse_num(&chars(text)).unwrap();
    assert_eq!(n.text, format!("{v}"), "{text}");
    assert_eq!(write_tenths(&n).text, format!("{v:.1}"), "{text}");
}

#[test]
fn long_numbers_are_rounded_to_doubles() {
    for text in [
        "0.1000000000000000055511151231257827",
        "0.1234567890123456789",
        "123456789012345678",
        "9007199254740993",
        "9007199254740992.5",
        "1e23",
        "-1e23",
        "1e300",
        "1234567890123456789e200",
        "0.99999999999999999",
        "1.00000000000000005",
        "179769313486231570000e288",
        "5e-324",
        "2.2250738585072014e-308",
        "123.450000000000001",
        "99999999999999999.95",
        "0.05",
        "0.15",
        "0.25",
        "0.35",
        "2.25",
        "1234.45",
        "99999.95",
        "7",
        "-0.04",
    ] {
        shown_as_a_double(text);
    }
}

#[test]
fn the_ends_of_the_range_are_rounded() {
    let text = |s: &str| parse_num(&chars(s)).unwrap().text;
    assert_eq!(text("1.7976931348623158e308"), format!("{}", f64::MAX));
    assert_eq!(text("1.7976931348623159e308"), "inf");
    assert_eq!(text("-1e999999999999"), "-inf");
    assert_eq!(text("2.4703282292062327e-324"), "0");
    assert_eq!(text("2.4703282292062328e-324"), format!("{}", f64::from_bits(1)));
    assert_eq!(text("-1e-999999999999"), "-0");
}

#[test]
fn decimals_between_two_shortest_ones_go_up() {
    shown_as_a_double("0.50000762939453125");
    shown_as_a_double("1125899906842624.25");
}

#[test]
fn every_double_is_written_shortest() {
    let mut seed: u64 = 0x1234_5678_9abc_def1;
    for _ in 0..40 {
        seed = seed.wrapping_mul(6364136223846793005).wrapping_add(1442695040888963407);
        let v = f64::from_bits(seed & 0x7fef_ffff_ffff_ffff);
        shown_as_a_double(&format!("{v:.17e}"));
    }
}

#[test]
fn middles_between_tenths_are_shown_as_doubles_are() {
    let mut seed: u64 = 0x0fed_cba9_8765_4321;
    for i in 0..2000 {
        seed = seed.wrapping_mul(6364136223846793005).wrapping_add(1442695040888963407);
        let whole = (seed >> 16) % 10u64.pow(1 + i % 12);
        shown_as_a_double(&format!("{}.{}5", whole, (seed >> 60) % 10));
        shown_as_a_double(&format!("{}.{:03}", whole, (seed >> 50) % 1000));
    }
}

#[test]
fn lengths_between_tenths_are_shown_as_doubles_are() {
    for t in 0..5000i128 {
        let v = (2 * t + 1) as f64 / 20.0;
        let q = (2 * t + 1) * QUARTERS / 20;
        assert_eq!(show(q), format!("{v:.1}"));
        assert_eq!(show(-q), format!("{:.1}", -v));
        assert_eq!(show(q + 1), format!("{:.1}", v + 0.001));
        assert_eq!(show(q - 1), format!("{:.1}", v - 0.001));
    }
}
