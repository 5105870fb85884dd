//! Folding of long chains.

use flowmaid::fold::plan::{labelled_gaps, place_edges, EdgePlace};
use flowmaid::fold::{chain_run, fold_points, plan_fold, CompactOptions, FoldSkip};
use flowmaid::model::{Direction, EdgeKind, Graph, Subgraph};

const PX: u64 = 64000;

fn graph(edges: &[(usize, usize)], n: usize) -> Graph {
    let mut g = Graph {
        direction: Direction::TD,
        nodes: Vec::new(),
        edges: Vec::new(),
        subgraphs: Vec::new(),
        sub_edges: Vec::new(),
    };
    for i in 0..n {
        g.ensure_node(&format!("N{i}"), None, None);
    }
    for (a, b) in edges {
        g.add_edge(*a, *b, None, EdgeKind::Arrow);
    }
    g
}

fn chain(n: usize) -> Graph {
    let edges: Vec<(usize, usize)> = (0..n - 1).map(|i| (i, i + 1)).collect();
    graph(&edges, n)
}

#[test]
fn a_chain_is_read_from_its_source() {
    assert_eq!(chain_run(&chain(4)), Ok(vec![0, 1, 2, 3]));
    assert_eq!(chain_run(&graph(&[(2, 0), (0, 1)], 3)), Ok(vec![2, 0, 1]));
}

#[test]
fn graphs_that_are_no_chain_are_refused() {
    assert_eq!(chain_run(&graph(&[(0, 1), (0, 2)], 3)), Err(FoldSkip::NotLinear));
    assert_eq!(chain_run(&graph(&[(0, 1), (1, 2), (2, 0)], 3)), Err(FoldSkip::NotLinear));
    assert_eq!(
        chain_run(&graph(&[(0, 1), (1, 2), (3, 4)], 5)),
        Err(FoldSkip::MultipleComponents)
    );
    let mut g = chain(6);
    g.subgraphs.push(Subgraph {
        id: "s".to_string(),
        title: "s".to_string(),
        nodes: vec![0],
        parent: None,
        direction: None,
    });
    assert_eq!(chain_run(&g), Err(FoldSkip::HasSubgraphs));
}

#[test]
fn every_reason_to_keep_the_layout() {
    let opts = CompactOptions::for_extent(100 * PX);
    let flow = |n: usize| vec![40 * PX; n];
    assert_eq!(plan_fold(&chain(12), &flow(12), 90 * PX, &opts).err(), Some(FoldSkip::AlreadyFits));
    assert_eq!(plan_fold(&chain(3), &flow(3), 900 * PX, &opts).err(), Some(FoldSkip::TooShort));
    let mut long = flow(12);
    long[4] = 500 * PX;
    assert_eq!(plan_fold(&chain(12), &long, 900 * PX, &opts).err(), Some(FoldSkip::NodeTooLong));
}

#[test]
fn a_long_chain_folds_within_its_budget() {
    let opts = CompactOptions::for_extent(420 * PX);
    let f = plan_fold(&chain(12), &vec![38 * PX; 12], 2000 * PX, &opts).ok().unwrap();
    assert!(f.bands.len() >= 2);
    assert_eq!(f.bands[0].0, 0);
    let last = f.bands.len() - 1;
    for k in 0..last {
        assert!(f.bands[k].0 <= f.bands[k].1);
        assert_eq!(f.bands[k].1 + 1, f.bands[k + 1].0);
    }
    let places = place_edges(&chain(12), &f);
    assert_eq!(places.len(), 11);
    assert_eq!(places.iter().filter(|p| matches!(p, EdgePlace::Turn { .. })).count(), last);
}

#[test]
fn bands_split_evenly() {
    let ext = vec![10 * PX; 4];
    let gaps = vec![false; 3];
    let bands = fold_points(&ext, &gaps, 120 * PX).unwrap();
    assert_eq!(bands, vec![(0, 1), (2, 3)]);
}

#[test]
fn a_node_that_is_too_long_is_refused() {
    assert_eq!(fold_points(&vec![50 * PX, 10 * PX], &vec![false], 20 * PX), Err(FoldSkip::NodeTooLong));
}

#[test]
fn labels_are_told_per_gap() {
    let mut g = chain(3);
    g.edges[1].label = Some("hop".to_string());
    assert_eq!(labelled_gaps(&g, &vec![0, 1, 2]), vec![false, true]);
}

#[test]
fn options_follow_the_flow() {
    assert_eq!(CompactOptions::fit(10, 20, Direction::TD).max_extent, 20);
    assert_eq!(CompactOptions::fit(10, 20, Direction::RL).max_extent, 10);
    assert_eq!(CompactOptions::for_extent(7).min_run, 5);
}
