use copurchase::clustering::Ratio;
use copurchase::graph::{CoPurchaseGraph, Product};

fn product(id: &str, name: &str) -> Product {
    Product {
        id: id.to_string(),
        category: "cat1".to_string(),
        price: "1.0".to_string(),
        name: name.to_string(),
    }
}

fn value(ratio: &Ratio) -> f64 {
    if ratio.possible == 0 {
        0.0
    } else {
        ratio.linked as f64 / ratio.possible as f64
    }
}

fn average(ratios: &[Ratio]) -> f64 {
    let mut total = 0.0;
    for ratio in ratios {
        total += value(ratio);
    }
    total / ratios.len() as f64
}

fn triangle() -> (CoPurchaseGraph, usize, usize, usize) {
    let mut graph = CoPurchaseGraph::new();
    let node1 = graph.add_node(product("1", "prod1")).unwrap();
    let node2 = graph.add_node(product("2", "prod2")).unwrap();
    let node3 = graph.add_node(product("3", "prod3")).unwrap();
    graph.add_edge(node1, node2, 1).unwrap();
    graph.add_edge(node1, node2, 1).unwrap();
    graph.add_edge(node1, node3, 1).unwrap();
    graph.add_edge(node2, node1, 1).unwrap();
    graph.add_edge(node2, node3, 1).unwrap();
    graph.add_edge(node3, node2, 1).unwrap();
    (graph, node1, node2, node3)
}

#[test]
fn test_component_clustering_coefficient() {
    let (graph, _, _, _) = triangle();
    let scc = graph.strongly_connected_components();
    let coeff = average(&graph.component_ratios(&scc[0]));
    assert_eq!(coeff, 0.6666666666666666);
}

#[test]
fn coefficient_counts_each_neighbor_once() {
    let (graph, node1, node2, node3) = triangle();
    assert_eq!(graph.neighbors(node1), vec![node3, node2, node2]);
    assert_eq!(graph.clustering_coefficient(node1), Ratio { linked: 1, possible: 1 });
    assert_eq!(graph.neighbors(node2), vec![node3, node1]);
    assert_eq!(graph.clustering_coefficient(node2), Ratio { linked: 1, possible: 1 });
    assert_eq!(graph.clustering_coefficient(node3), Ratio { linked: 0, possible: 0 });
}

#[test]
fn coefficient_joins_a_pair_in_either_direction() {
    let mut graph = CoPurchaseGraph::new();
    let n1 = graph.add_node(product("1", "prod1")).unwrap();
    let n2 = graph.add_node(product("2", "prod2")).unwrap();
    let n3 = graph.add_node(product("3", "prod3")).unwrap();
    graph.add_edge(n1, n2, 1).unwrap();
    graph.add_edge(n1, n3, 1).unwrap();
    graph.add_edge(n2, n1, 1).unwrap();
    graph.add_edge(n2, n3, 1).unwrap();
    graph.add_edge(n3, n2, 1).unwrap();
    assert_eq!(graph.clustering_coefficient(n2), Ratio { linked: 1, possible: 1 });
    assert_eq!(graph.clustering_coefficient(n1), Ratio { linked: 1, possible: 1 });
    assert_eq!(graph.clustering_coefficient(n3), Ratio { linked: 0, possible: 0 });
    let scc = graph.strongly_connected_components();
    assert_eq!(average(&graph.component_ratios(&scc[0])), 0.6666666666666666);
}

#[test]
fn joining_two_neighbors_raises_the_coefficient() {
    let mut graph = CoPurchaseGraph::new();
    let n = graph.add_node(product("n", "n")).unwrap();
    let i = graph.add_node(product("i", "i")).unwrap();
    let j = graph.add_node(product("j", "j")).unwrap();
    let k = graph.add_node(product("k", "k")).unwrap();
    graph.add_edge(n, i, 1).unwrap();
    graph.add_edge(n, j, 1).unwrap();
    graph.add_edge(n, k, 1).unwrap();
    assert_eq!(graph.clustering_coefficient(n), Ratio { linked: 0, possible: 3 });
    graph.add_edge(i, j, 1).unwrap();
    assert_eq!(graph.clustering_coefficient(n), Ratio { linked: 1, possible: 3 });
    graph.add_edge(j, i, 5).unwrap();
    assert_eq!(graph.clustering_coefficient(n), Ratio { linked: 1, possible: 3 });
    graph.add_edge(k, j, 1).unwrap();
    assert_eq!(graph.clustering_coefficient(n), Ratio { linked: 2, possible: 3 });
}

#[test]
fn coefficient_is_zero_below_two_neighbors() {
    let mut graph = CoPurchaseGraph::new();
    let a = graph.add_node(product("a", "a")).unwrap();
    let b = graph.add_node(product("b", "b")).unwrap();
    assert_eq!(graph.clustering_coefficient(a), Ratio { linked: 0, possible: 0 });
    graph.add_edge(a, b, 1).unwrap();
    graph.add_edge(a, b, 1).unwrap();
    assert_eq!(graph.clustering_coefficient(a), Ratio { linked: 0, possible: 0 });
}

#[test]
fn coefficient_of_fully_joined_neighbors_is_one() {
    let mut graph = CoPurchaseGraph::new();
    let a = graph.add_node(product("a", "a")).unwrap();
    let b = graph.add_node(product("b", "b")).unwrap();
    let c = graph.add_node(product("c", "c")).unwrap();
    let d = graph.add_node(product("d", "d")).unwrap();
    for &(from, to) in &[(a, b), (a, c), (a, d), (d, c), (d, b), (c, b)] {
        graph.add_edge(from, to, 1).unwrap();
    }
    assert_eq!(graph.neighbors(a), vec![d, c, b]);
    assert_eq!(graph.clustering_coefficient(a), Ratio { linked: 3, possible: 3 });
}

#[test]
fn components_split_the_nodes() {
    let mut graph = CoPurchaseGraph::new();
    let mut keys = Vec::new();
    for i in 0..7 {
        keys.push(graph.add_node(product(&i.to_string(), "p")).unwrap());
    }
    for &(from, to) in &[(0, 1), (1, 2), (2, 0), (2, 3), (3, 4), (4, 3), (5, 0)] {
        graph.add_edge(keys[from], keys[to], 1).unwrap();
    }
    let parts = graph.strongly_connected_components();
    let mut seen: Vec<usize> = parts.iter().flatten().copied().collect();
    seen.sort();
    assert_eq!(seen, keys);
    assert!(parts.iter().all(|part| !part.is_empty()));
    let mut sizes: Vec<usize> = parts.iter().map(|part| part.len()).collect();
    sizes.sort();
    assert_eq!(sizes, vec![1, 1, 2, 3]);
    let big = parts.iter().find(|part| part.len() == 3).unwrap();
    let mut big = big.clone();
    big.sort();
    assert_eq!(big, vec![keys[0], keys[1], keys[2]]);
    assert_eq!(parts.iter().map(|part| part.len()).sum::<usize>(), graph.node_count());
    assert_eq!(parts, graph.strongly_connected_components());
}
