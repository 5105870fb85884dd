//! User journeys: columns, faces, legend and SVG.

use flowmaid::journey::scene::{scene, FACE_R};
use flowmaid::journey::svg::to_svg;
use flowmaid::journey::{score_color, Journey, JourneySection, JourneyTask};
use flowmaid::layout::width::text_width;

fn accents() -> Vec<String> {
    vec!["#123456".to_string(), "#654321".to_string()]
}

fn task(name: &str, score: u8, actors: &[usize]) -> JourneyTask {
    JourneyTask { name: name.to_string(), score, actors: actors.to_vec() }
}

fn section(name: &str, tasks: Vec<JourneyTask>) -> JourneySection {
    JourneySection { name: name.to_string(), tasks }
}

fn journey(title: Option<&str>, actors: &[&str], sections: Vec<JourneySection>) -> Journey {
    Journey {
        title: title.map(|t| t.to_string()),
        actors: actors.iter().map(|a| a.to_string()).collect(),
        sections,
    }
}

#[test]
fn scene_places_everything_inside_the_canvas() {
    let js = scene(
        &journey(
            Some("T"),
            &["Me", "You"],
            vec![
                section("A", vec![task("One", 1, &[0]), task("Two", 5, &[0, 1])]),
                section("B", vec![task("Three", 3, &[1])]),
            ],
        ),
        &accents(),
    );
    assert!(js.width > 0 && js.height > 0);
    assert_eq!(js.tasks.len(), 3);
    assert_eq!(js.sections.len(), 2);
    assert_eq!(js.legend.len(), 2, "Me + You");
    for t in &js.tasks {
        assert!(t.cx - FACE_R >= 0 && t.cx + FACE_R <= js.width);
        assert!(t.cy + FACE_R <= js.height);
    }
    for b in &js.sections {
        assert!(b.x >= 0 && b.x + b.w <= js.width);
    }
}

#[test]
fn wide_legend_or_title_widens_the_canvas() {
    let js = scene(
        &journey(
            None,
            &["Alexander", "Bartholomew", "Christopher", "Wolfeschlegelstein"],
            vec![section("", vec![task("A", 3, &[0, 1, 2, 3])])],
        ),
        &accents(),
    );
    for it in &js.legend {
        assert!(it.x >= 0, "legend item x {} went negative", it.x);
        assert!(it.x <= js.width, "legend item x {} past width", it.x);
    }
    let title = "A very very very long journey title goes here";
    let js2 = scene(
        &journey(Some(title), &["Me"], vec![section("S", vec![task("T", 3, &[0])])]),
        &accents(),
    );
    assert!(js2.width as f64 / 64000.0 >= text_width(title) as f64 / 1000.0);
}

#[test]
fn to_svg_draws_faces_sections_and_legend() {
    let svg = to_svg(&scene(
        &journey(Some("Trip"), &["Me"], vec![section("Go", vec![task("Pack", 4, &[0])])]),
        &accents(),
    ));
    assert!(svg.starts_with("<svg"));
    assert!(svg.trim_end().ends_with("</svg>"));
    assert!(svg.contains(">Trip<"), "title");
    assert!(svg.contains(">Go<"), "section name");
    assert!(svg.contains(">Pack<"), "task label");
    assert!(svg.contains("<path"), "mouth curve");
    assert!(svg.contains(score_color(4)), "score-4 face color");
}

#[test]
fn scores_have_five_colours() {
    let all: Vec<&str> = (1..=5).map(score_color).collect();
    for i in 0..5 {
        for j in 0..i {
            assert_ne!(all[i], all[j]);
        }
    }
}

#[test]
fn names_are_escaped() {
    let svg = to_svg(&scene(
        &journey(None, &[], vec![section("<s>", vec![task("a & b", 2, &[])])]),
        &accents(),
    ));
    assert!(svg.contains("&lt;s&gt;"));
    assert!(svg.contains("a &amp; b"));
    assert!(!svg.contains("<s>"));
}
