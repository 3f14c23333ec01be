use copurchase::graph::{CoPurchaseGraph, Product};
use copurchase::pruning::{
    size_range, PruneEnd, PruneReport, DEFAULT_MIN_COMPONENT_SIZE, MAX_PRUNE_ROUNDS,
    SMALL_COMPONENT_FLOOR,
};

fn product(id: usize) -> Product {
    Product {
        id: id.to_string(),
        category: "cat".to_string(),
        price: "10".to_string(),
        name: format!("product {}", id),
    }
}

fn graph_with(nodes: usize, edges: &[(usize, usize)]) -> CoPurchaseGraph {
    let mut graph = CoPurchaseGraph::new();
    for id in 0..nodes {
        assert_eq!(graph.add_node(product(id)), Ok(id));
    }
    for &(from, to) in edges {
        graph.add_edge(from, to, 1).unwrap();
    }
    graph
}

fn cycle(from: usize, len: usize) -> Vec<(usize, usize)> {
    (0..len).map(|i| (from + i, from + (i + 1) % len)).collect()
}

#[test]
fn constants_are_the_documented_ones() {
    assert_eq!(SMALL_COMPONENT_FLOOR, 3);
    assert_eq!(MAX_PRUNE_ROUNDS, 100);
    assert_eq!(DEFAULT_MIN_COMPONENT_SIZE, 5);
}

#[test]
fn pruner_stops_at_once_on_the_empty_graph() {
    let mut graph = CoPurchaseGraph::new();
    let report = graph.prune_small_components(DEFAULT_MIN_COMPONENT_SIZE);
    assert_eq!(
        report,
        PruneReport { end: PruneEnd::NoComponents, rounds: 1, components: 0, smallest: 0, largest: 0 }
    );
    assert_eq!(graph.node_count(), 0);
}

#[test]
fn pruner_removes_everything_when_all_components_are_small() {
    let mut graph = graph_with(4, &[(0, 1), (1, 0), (2, 3)]);
    let report = graph.prune_small_components(DEFAULT_MIN_COMPONENT_SIZE);
    assert_eq!(report.end, PruneEnd::NoComponents);
    assert_eq!(report.rounds, 1);
    assert_eq!(graph.node_count(), 0);
    assert_eq!(graph.edge_count(), 0);
    assert_eq!(graph.product_count(), 4);
    assert!(graph.product(0).is_none());
}

#[test]
fn pruner_converges_on_large_components() {
    let mut edges = cycle(0, 5);
    edges.extend(cycle(5, 6));
    edges.push((0, 5));
    edges.push((11, 0));
    edges.push((12, 13));
    edges.push((13, 12));
    let mut graph = graph_with(14, &edges);
    let report = graph.prune_small_components(5);
    assert_eq!(
        report,
        PruneReport { end: PruneEnd::Converged, rounds: 1, components: 2, smallest: 5, largest: 6 }
    );
    let mut nodes = graph.nodes();
    nodes.sort();
    assert_eq!(nodes, (0..11).collect::<Vec<usize>>());
    assert_eq!(graph.edge_count(), 12);
    assert!(graph.has_edge(0, 5));
    assert!(!graph.contains_node(11));
}

#[test]
fn pruner_is_idempotent_at_convergence() {
    let mut edges = cycle(0, 5);
    edges.push((5, 0));
    let mut graph = graph_with(6, &edges);
    let first = graph.prune_small_components(5);
    assert_eq!(first.end, PruneEnd::Converged);
    let nodes = graph.nodes();
    let edges_left = graph.edge_count();
    let second = graph.prune_small_components(5);
    assert_eq!(second, first);
    assert_eq!(graph.nodes(), nodes);
    assert_eq!(graph.edge_count(), edges_left);
}

#[test]
fn pruner_gives_up_at_the_round_limit() {
    let mut graph = graph_with(7, &[(0, 1), (1, 2), (2, 0), (3, 4), (4, 5), (5, 3), (6, 0)]);
    let report = graph.prune_small_components(5);
    assert_eq!(
        report,
        PruneReport {
            end: PruneEnd::RoundLimit,
            rounds: MAX_PRUNE_ROUNDS,
            components: 2,
            smallest: 3,
            largest: 3,
        }
    );
    let mut nodes = graph.nodes();
    nodes.sort();
    assert_eq!(nodes, vec![0, 1, 2, 3, 4, 5]);
}

#[test]
fn size_range_of_components() {
    assert_eq!(size_range(&vec![]), (0, 0));
    assert_eq!(size_range(&vec![vec![4, 5, 6]]), (3, 3));
    assert_eq!(size_range(&vec![vec![1, 2], vec![3], vec![4, 5, 6, 7]]), (1, 4));
}

#[test]
fn remove_marked_removes_exactly_the_flagged_nodes() {
    let mut graph = graph_with(5, &[(0, 1), (1, 2), (2, 3), (3, 4), (4, 0), (0, 2)]);
    let removed = graph.remove_marked(&vec![false, true, false, true]);
    assert_eq!(removed, 2);
    let mut nodes = graph.nodes();
    nodes.sort();
    assert_eq!(nodes, vec![0, 2, 4]);
    assert_eq!(graph.links(0), vec![(2, 1)]);
    assert_eq!(graph.links(4), vec![(0, 1)]);
    assert_eq!(graph.links(2), vec![]);
    assert_eq!(graph.edge_count(), 2);
}

#[test]
fn removal_keeps_the_weights_between_the_other_nodes() {
    let mut graph = graph_with(5, &[]);
    for (from, to, weight) in [(4, 0, 7), (0, 4, 2), (4, 2, 3), (2, 4, 9), (1, 4, 5), (3, 0, 6)] {
        graph.add_edge(from, to, weight).unwrap();
    }
    assert_eq!(graph.remove_marked(&vec![false, true, false, true, false]), 2);
    assert_eq!(graph.edge_weight(4, 0), Some(7));
    assert_eq!(graph.edge_weight(0, 4), Some(2));
    assert_eq!(graph.edge_weight(4, 2), Some(3));
    assert_eq!(graph.edge_weight(2, 4), Some(9));
    assert_eq!(graph.edge_weight(1, 4), None);
    assert_eq!(graph.links(4), vec![(2, 3), (0, 7)]);
    assert_eq!(graph.edge_count(), 4);
}
