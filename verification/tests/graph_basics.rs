use copurchase::graph::{CoPurchaseGraph, GraphError, Product};

fn product(id: &str) -> Product {
    Product {
        id: id.to_string(),
        category: "cat1".to_string(),
        price: "1.0".to_string(),
        name: format!("prod{}", id),
    }
}

#[test]
fn new_graph_is_empty() {
    let g = CoPurchaseGraph::new();
    assert_eq!(g.node_count(), 0);
    assert_eq!(g.edge_count(), 0);
    assert_eq!(g.nodes(), Vec::<usize>::new());
}

#[test]
fn add_edge_keeps_parallel_edges_and_skips_self_loops() {
    let mut g = CoPurchaseGraph::new();
    let a = g.add_node(product("1")).unwrap();
    let b = g.add_node(product("2")).unwrap();
    assert_eq!(g.add_edge(a, b, 1), Ok(()));
    assert_eq!(g.add_edge(a, b, 4), Ok(()));
    assert_eq!(g.add_edge(a, a, 1), Ok(()));
    assert_eq!(g.edge_count(), 2);
    assert_eq!(g.links(a), vec![(b, 4), (b, 1)]);
    assert_eq!(g.add_edge(a, 7, 1), Err(GraphError::UnknownNode));
    assert_eq!(g.add_edge(a, b, 0), Err(GraphError::ZeroWeight));
}

#[test]
fn remove_node_drops_incident_edges_and_keeps_keys() {
    let mut g = CoPurchaseGraph::new();
    let a = g.add_node(product("1")).unwrap();
    let b = g.add_node(product("2")).unwrap();
    let c = g.add_node(product("3")).unwrap();
    g.record_co_purchase(a, b).unwrap();
    g.record_co_purchase(c, a).unwrap();
    g.record_co_purchase(c, b).unwrap();
    g.record_co_purchase(c, b).unwrap();
    assert!(g.remove_node(a));
    assert!(!g.remove_node(a));
    assert_eq!(g.node_count(), 2);
    assert_eq!(g.edge_count(), 1);
    assert!(g.contains_node(b) && g.contains_node(c) && !g.contains_node(a));
    assert_eq!(g.links(c), vec![(b, 2)]);
    assert_eq!(g.edge_weight(c, b), Some(2));
    assert_eq!(g.edge_weight(b, c), None);
    assert!(g.product(a).is_none());
    assert_eq!(g.product(b).unwrap().id, "2");
    assert_eq!(g.product_count(), 3);
}

#[test]
fn add_node_refuses_a_known_product() {
    let mut g = CoPurchaseGraph::new();
    let a = g.add_node(product("1")).unwrap();
    assert_eq!(g.add_node(product("1")), Err(GraphError::DuplicateProduct));
    assert_eq!(g.node_count(), 1);
    assert_eq!(g.find_product(&"1".to_string()), Some(a));
    assert_eq!(g.find_product(&"2".to_string()), None);
    assert!(g.remove_node(a));
    assert_eq!(g.find_product(&"1".to_string()), None);
    assert_eq!(g.add_node(product("1")), Ok(1));
}

#[test]
fn co_purchase_counts_up_and_stops_at_the_largest_weight() {
    let mut g = CoPurchaseGraph::new();
    let a = g.add_node(product("1")).unwrap();
    let b = g.add_node(product("2")).unwrap();
    assert_eq!(g.record_co_purchase(a, b), Ok(()));
    assert_eq!(g.record_co_purchase(a, b), Ok(()));
    assert_eq!(g.record_co_purchase(a, a), Ok(()));
    assert_eq!(g.record_co_purchase(b, a), Ok(()));
    assert_eq!(g.edge_weight(a, b), Some(3));
    assert_eq!(g.edge_weight(b, a), None);
    assert_eq!(g.edge_count(), 1);
    assert_eq!(g.record_co_purchase(a, 5), Err(GraphError::UnknownNode));
    assert_eq!(g.add_edge(b, a, u64::MAX), Ok(()));
    assert_eq!(g.record_co_purchase(b, a), Err(GraphError::WeightLimit));
    assert_eq!(g.edge_weight(b, a), Some(u64::MAX));
}

#[test]
fn co_purchase_raises_the_first_of_parallel_edges() {
    let mut g = CoPurchaseGraph::new();
    let a = g.add_node(product("1")).unwrap();
    let b = g.add_node(product("2")).unwrap();
    g.add_edge(a, b, 3).unwrap();
    g.add_edge(a, b, 7).unwrap();
    g.record_co_purchase(a, b).unwrap();
    assert_eq!(g.links(a), vec![(b, 8), (b, 3)]);
    assert_eq!(g.edge_weight(a, b), Some(8));
    assert_eq!(g.neighbors(a), vec![b, b]);
    assert!(g.has_edge(a, b));
    assert!(!g.has_edge(b, a));
}

#[test]
fn duplicate_shares_nothing_with_its_source() {
    let mut g = CoPurchaseGraph::new();
    let a = g.add_node(product("1")).unwrap();
    let b = g.add_node(product("2")).unwrap();
    g.add_edge(a, b, 2).unwrap();
    let mut copy = g.duplicate();
    assert!(copy.remove_node(b));
    assert_eq!(copy.node_count(), 1);
    assert_eq!(g.node_count(), 2);
    assert_eq!(g.links(a), vec![(b, 2)]);
    assert!(copy.product(b).is_none());
    assert_eq!(g.product(b).unwrap().id, "2");
    assert_eq!(g.product(a).unwrap().duplicate().name, "prod1");
}
