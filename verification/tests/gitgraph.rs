//! Git graphs: lanes, edges, labels and SVG.

use flowmaid::gitgraph::scene::{commit_color, scene, GitScene};
use flowmaid::gitgraph::svg::{to_svg, to_svg_with};
use flowmaid::gitgraph::{
    check_parents, CommitKind, GitBranch, GitCommit, GitGraph, GitOrientation,
};
use flowmaid::advance::svg::SvgOptions;

fn accents() -> Vec<String> {
    vec!["#aa0000".to_string(), "#00aa00".to_string()]
}

fn commit(id: &str, seq: usize, branch: usize) -> GitCommit {
    GitCommit {
        id: id.to_string(),
        seq,
        branch,
        tag: None,
        kind: CommitKind::Normal,
        second_parent: None,
    }
}

fn branch(name: &str, order: usize, parent_commit: Option<usize>) -> GitBranch {
    GitBranch { name: name.to_string(), order, parent_commit }
}

fn line(orientation: GitOrientation, ids: &[&str]) -> GitGraph {
    GitGraph {
        orientation,
        branches: vec![branch("main", 0, None)],
        commits: ids.iter().enumerate().map(|(i, id)| commit(id, i, 0)).collect(),
    }
}

fn merged() -> GitGraph {
    let mut m = commit("m", 3, 0);
    m.second_parent = Some(1);
    m.tag = Some("v1".to_string());
    GitGraph {
        orientation: GitOrientation::LR,
        branches: vec![branch("main", 0, None), branch("feat", 1, Some(0))],
        commits: vec![commit("init", 0, 0), commit("a", 1, 1), commit("b", 2, 0), m],
    }
}

fn drawn(g: &GitGraph) -> GitScene {
    assert!(check_parents(g));
    scene(g, &accents())
}

#[test]
fn linear_commits_on_main() {
    let g = line(GitOrientation::LR, &["c1", "c2", "c3"]);
    assert_eq!(g.branches.len(), 1);
    assert_eq!(g.branches[0].name, "main");
    assert_eq!(g.commits.len(), 3);
    let sc = drawn(&g);
    assert_eq!(sc.nodes.len(), 3);
    assert_eq!(sc.edges.len(), 2);
}

#[test]
fn branch_checkout_merge() {
    let g = merged();
    assert_eq!(g.branches.len(), 2);
    assert_eq!(g.commits.len(), 4);
    let merge = g.commits.last().unwrap();
    assert_eq!(merge.id, "m");
    assert!(merge.second_parent.is_some());
    assert_eq!(merge.tag.as_deref(), Some("v1"));
    let sc = drawn(&g);
    assert_eq!(sc.edges.len(), 4);
    let svg = to_svg(&sc);
    assert!(svg.contains(">m</text>"));
    assert!(svg.contains(">v1</text>"));
    assert!(svg.contains(">feat</text>"));
}

#[test]
fn default_orientation_is_lr() {
    let g = line(GitOrientation::LR, &["c"]);
    let sc = drawn(&g);
    assert!(sc.width > sc.height);
}

#[test]
fn tb_orientation_swaps_axes() {
    let g = line(GitOrientation::TB, &["c1", "c2"]);
    assert_eq!(g.orientation, GitOrientation::TB);
    let sc = drawn(&g);
    assert!(sc.height > sc.width);
    let main_label = sc.branch_labels.iter().find(|l| l.text == "main").unwrap();
    assert_eq!(main_label.anchor, "middle");
    assert!(main_label.y < sc.nodes[0].y);
}

#[test]
fn bt_orientation_flows_upward() {
    let g = line(GitOrientation::BT, &["first", "second"]);
    assert_eq!(g.orientation, GitOrientation::BT);
    let sc = drawn(&g);
    let first = sc.nodes.iter().find(|n| n.id == "first").unwrap();
    let second = sc.nodes.iter().find(|n| n.id == "second").unwrap();
    assert!(second.y < first.y);
    let main_label = sc.branch_labels.iter().find(|l| l.text == "main").unwrap();
    assert!(main_label.y > first.y);
}

#[test]
fn commit_kinds_have_their_colours() {
    let mut c = commit("x", 0, 1);
    let own = "#00aa00".to_string();
    assert_eq!(commit_color(&c, &accents()), (own.clone(), own.clone()));
    c.kind = CommitKind::Reverse;
    assert_eq!(commit_color(&c, &accents()), ("#ffffff".to_string(), own.clone()));
    c.kind = CommitKind::Highlight;
    assert_eq!(commit_color(&c, &accents()).0, own);
}

#[test]
fn a_merge_of_nothing_is_refused() {
    let mut g = merged();
    g.commits[3].second_parent = Some(9);
    assert!(!check_parents(&g));
    let mut h = merged();
    h.branches[1].parent_commit = Some(4);
    assert!(!check_parents(&h));
}

#[test]
fn responsive_graphs_fill_their_room() {
    let sc = drawn(&line(GitOrientation::LR, &["c"]));
    let opts = SvgOptions { responsive: true, preserve_aspect_ratio: None };
    let svg = to_svg_with(&sc, &opts);
    assert!(svg.starts_with("<svg"));
    assert!(svg.contains("width=\"100%\""));
    assert!(svg.contains("<title>Git graph diagram</title>"));
    assert!(!to_svg(&sc).contains("width=\"100%\""));
}
