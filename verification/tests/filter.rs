use copurchase::clustering::Ratio;
use copurchase::filter::{FilterError, RankedComponent};
use copurchase::graph::{CoPurchaseGraph, Product};

fn product(id: usize) -> Product {
    Product {
        id: id.to_string(),
        category: "cat".to_string(),
        price: "10".to_string(),
        name: format!("product {}", id),
    }
}

fn graph_with(nodes: usize, edges: &[(usize, usize)]) -> CoPurchaseGraph {
    let mut graph = CoPurchaseGraph::new();
    for id in 0..nodes {
        assert_eq!(graph.add_node(product(id)), Ok(id));
    }
    for &(from, to) in edges {
        graph.add_edge(from, to, 1).unwrap();
    }
    graph
}

/// Two triangles and a square; the first triangle is fully joined both ways.
fn clusters() -> CoPurchaseGraph {
    graph_with(
        10,
        &[
            (0, 1), (1, 0), (1, 2), (2, 1), (0, 2), (2, 0),
            (3, 4), (4, 5), (5, 3),
            (6, 7), (7, 8), (8, 9), (9, 6), (6, 8),
        ],
    )
}

fn key_of(profile: &[Ratio]) -> u64 {
    let mut total = 0.0;
    for ratio in profile {
        if ratio.possible > 0 {
            total += ratio.linked as f64 / ratio.possible as f64;
        }
    }
    (total / profile.len() as f64).to_bits()
}

fn scores(graph: &CoPurchaseGraph) -> Vec<u64> {
    graph.component_profiles().iter().map(|profile| key_of(profile)).collect()
}

#[test]
fn profiles_follow_the_components() {
    let graph = clusters();
    let parts = graph.strongly_connected_components();
    let profiles = graph.component_profiles();
    assert_eq!(profiles.len(), parts.len());
    for (part, profile) in parts.iter().zip(profiles.iter()) {
        assert_eq!(profile, &graph.component_ratios(part));
        for (key, ratio) in part.iter().zip(profile.iter()) {
            assert_eq!(*ratio, graph.clustering_coefficient(*key));
            assert!(ratio.linked <= ratio.possible);
        }
    }
}

#[test]
fn filter_removes_exactly_the_components_below_the_threshold() {
    let mut graph = clusters();
    let parts = graph.strongly_connected_components();
    let keys = scores(&graph);
    let threshold = 0.3f64.to_bits();
    let mut doomed: Vec<usize> = Vec::new();
    for (part, key) in parts.iter().zip(keys.iter()) {
        if *key < threshold {
            doomed.extend(part);
        }
    }
    doomed.sort();
    assert_eq!(doomed, vec![3, 4, 5, 6, 7, 8, 9]);
    assert_eq!(graph.remove_low_components(&keys, threshold), Ok(7));
    let mut nodes = graph.nodes();
    nodes.sort();
    assert_eq!(nodes, vec![0, 1, 2]);
    assert_eq!(graph.edge_count(), 6);
}

#[test]
fn raising_the_threshold_never_keeps_more_nodes() {
    let mut last = usize::MAX;
    for step in 0..=10 {
        let mut graph = clusters();
        let keys = scores(&graph);
        let threshold = (step as f64 / 10.0).to_bits();
        graph.remove_low_components(&keys, threshold).unwrap();
        assert!(graph.node_count() <= last);
        last = graph.node_count();
    }
    assert_eq!(last, 3);
}

#[test]
fn filter_with_threshold_zero_keeps_everything() {
    let mut graph = clusters();
    let keys = scores(&graph);
    assert_eq!(graph.remove_low_components(&keys, 0), Ok(0));
    assert_eq!(graph.node_count(), 10);
    assert_eq!(graph.edge_count(), 14);
}

#[test]
fn filter_refuses_a_wrong_number_of_scores() {
    let mut graph = clusters();
    assert_eq!(graph.remove_low_components(&vec![1, 2], 5), Err(FilterError::ScoreCount));
    assert_eq!(graph.node_count(), 10);
    assert_eq!(graph.rank_components(&vec![], 0), Err(FilterError::ScoreCount));
}

#[test]
fn ranking_is_by_descending_score_then_by_position() {
    let graph = clusters();
    let parts = graph.strongly_connected_components();
    assert_eq!(parts.len(), 3);
    let ranked = graph.rank_components(&vec![7, 9, 7], 0).unwrap();
    assert_eq!(
        ranked,
        vec![
            RankedComponent { component: 1, size: parts[1].len(), score: 9 },
            RankedComponent { component: 0, size: parts[0].len(), score: 7 },
            RankedComponent { component: 2, size: parts[2].len(), score: 7 },
        ]
    );
}

#[test]
fn ranking_skips_components_below_the_minimum_size() {
    let graph = clusters();
    let parts = graph.strongly_connected_components();
    let keys = scores(&graph);
    let ranked = graph.rank_components(&keys, 4).unwrap();
    assert_eq!(ranked.len(), 1);
    assert_eq!(ranked[0].size, 4);
    assert_eq!(parts[ranked[0].component].len(), 4);
    assert_eq!(ranked[0].score, keys[ranked[0].component]);
    assert_eq!(graph.rank_components(&keys, 5).unwrap(), vec![]);
}

#[test]
fn components_that_stay_are_the_components_that_were() {
    let mut graph = clusters();
    let mut before = graph.strongly_connected_components();
    let keys = scores(&graph);
    graph.remove_low_components(&keys, 0.3f64.to_bits()).unwrap();
    let mut after = graph.strongly_connected_components();
    for part in before.iter_mut().chain(after.iter_mut()) {
        part.sort();
    }
    assert_eq!(after.len(), 1);
    assert!(before.contains(&after[0]));
}
