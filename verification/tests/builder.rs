use copurchase::builder::{build_graph, read_data, ReadError};
use copurchase::graph::CoPurchaseGraph;
use copurchase::records::{
    fields_of, is_number_text, parse_record, parse_records, LineFault, Record, RecordError,
};
use copurchase::User;

fn purchase(user: &str, product: &str) -> Record {
    Record {
        product_id: product.to_string(),
        user_id: user.to_string(),
        category: format!("category of {}", product),
        price: "12.5".to_string(),
        name: format!("name of {}", product),
    }
}

fn key_of(graph: &CoPurchaseGraph, id: &str) -> usize {
    (0..graph.product_count()).find(|&key| graph.product(key).unwrap().id == id).unwrap()
}

#[test]
fn user_is_known_by_its_id() {
    let user = User { id: "u1".to_string() };
    assert_eq!(user.id, "u1");
}

#[test]
fn one_user_with_three_products_links_every_pair_once() {
    let records = vec![purchase("u", "A"), purchase("u", "B"), purchase("u", "C")];
    let graph = build_graph(&records).unwrap();
    let (a, b, c) = (key_of(&graph, "A"), key_of(&graph, "B"), key_of(&graph, "C"));
    assert_eq!((a, b, c), (0, 1, 2));
    assert_eq!(graph.node_count(), 3);
    assert_eq!(graph.edge_count(), 3);
    assert_eq!(graph.edge_weight(a, b), Some(1));
    assert_eq!(graph.edge_weight(a, c), Some(1));
    assert_eq!(graph.edge_weight(b, c), Some(1));
    assert_eq!(graph.links(a), vec![(c, 1), (b, 1)]);
}

#[test]
fn a_product_bought_twice_makes_no_self_loop() {
    let records = vec![purchase("u", "A"), purchase("u", "B"), purchase("u", "A")];
    let graph = build_graph(&records).unwrap();
    let (a, b) = (key_of(&graph, "A"), key_of(&graph, "B"));
    assert_eq!(graph.node_count(), 2);
    assert!(!graph.has_edge(a, a));
    assert!(!graph.has_edge(b, b));
    assert_eq!(graph.edge_weight(a, b), Some(1));
    assert_eq!(graph.edge_weight(b, a), None);
    assert_eq!(graph.edge_count(), 1);
}

#[test]
fn a_repeated_row_counts_once_for_its_user() {
    let records = vec![purchase("u1", "A"), purchase("u1", "A"), purchase("u1", "B")];
    let graph = build_graph(&records).unwrap();
    let (a, b) = (key_of(&graph, "A"), key_of(&graph, "B"));
    assert_eq!(graph.node_count(), 2);
    assert_eq!(graph.edge_count(), 1);
    assert_eq!(graph.edge_weight(a, b), Some(1));
}

#[test]
fn two_products_share_one_edge_whatever_the_order() {
    let records = vec![
        purchase("u1", "A"),
        purchase("u1", "B"),
        purchase("u2", "B"),
        purchase("u2", "A"),
    ];
    let graph = build_graph(&records).unwrap();
    let (a, b) = (key_of(&graph, "A"), key_of(&graph, "B"));
    assert_eq!(graph.node_count(), 2);
    assert_eq!(graph.edge_count(), 1);
    assert_eq!(graph.edge_weight(a, b), Some(2));
    assert_eq!(graph.edge_weight(b, a), None);
}

#[test]
fn weight_is_the_number_of_users_who_bought_both() {
    let mut records = Vec::new();
    for (user, products) in [("u1", "ABC"), ("u2", "CA"), ("u3", "BAB"), ("u4", "D"), ("u5", "CCA")] {
        for product in products.chars() {
            records.push(purchase(user, &product.to_string()));
        }
    }
    let graph = build_graph(&records).unwrap();
    let key = |id: &str| key_of(&graph, id);
    let between = |x: usize, y: usize| {
        graph.edge_weight(x, y).unwrap_or(0) + graph.edge_weight(y, x).unwrap_or(0)
    };
    assert_eq!(graph.node_count(), 4);
    assert_eq!(between(key("A"), key("B")), 2);
    assert_eq!(between(key("A"), key("C")), 3);
    assert_eq!(between(key("B"), key("C")), 1);
    assert_eq!(between(key("A"), key("D")), 0);
    assert_eq!(graph.edge_count(), 3);
}

#[test]
fn three_users_end_to_end() {
    let records = vec![
        purchase("u1", "A"),
        purchase("u1", "B"),
        purchase("u2", "A"),
        purchase("u2", "B"),
        purchase("u3", "A"),
        purchase("u3", "C"),
    ];
    let graph = build_graph(&records).unwrap();
    let (a, b, c) = (key_of(&graph, "A"), key_of(&graph, "B"), key_of(&graph, "C"));
    assert_eq!(graph.node_count(), 3);
    assert_eq!(graph.edge_count(), 2);
    assert_eq!(graph.edge_weight(a, b), Some(2));
    assert_eq!(graph.edge_weight(a, c), Some(1));
    assert_eq!(graph.edge_weight(b, a), None);
}

#[test]
fn users_are_linked_in_order_of_first_appearance() {
    let records = vec![
        purchase("u1", "A"),
        purchase("u2", "A"),
        purchase("u2", "C"),
        purchase("u1", "B"),
    ];
    let graph = build_graph(&records).unwrap();
    let (a, b, c) = (key_of(&graph, "A"), key_of(&graph, "B"), key_of(&graph, "C"));
    assert_eq!((a, c, b), (0, 1, 2));
    assert_eq!(graph.links(a), vec![(c, 1), (b, 1)]);
}

#[test]
fn first_record_of_a_product_gives_its_attributes() {
    let mut later = purchase("u2", "A");
    later.category = "other".to_string();
    later.price = "99".to_string();
    later.name = "renamed".to_string();
    let graph = build_graph(&vec![purchase("u1", "A"), later]).unwrap();
    assert_eq!(graph.node_count(), 1);
    let product = graph.product(0).unwrap();
    assert_eq!(product.id, "A");
    assert_eq!(product.category, "category of A");
    assert_eq!(product.price, "12.5");
    assert_eq!(product.name, "name of A");
    assert!(graph.product(1).is_none());
}

#[test]
fn no_record_gives_the_empty_graph() {
    let graph = build_graph(&vec![]).unwrap();
    assert_eq!(graph.node_count(), 0);
    assert_eq!(graph.edge_count(), 0);
}

#[test]
fn fields_are_split_at_commas() {
    assert_eq!(fields_of(""), vec![""]);
    assert_eq!(fields_of("abc"), vec!["abc"]);
    assert_eq!(fields_of("a,b"), vec!["a", "b"]);
    assert_eq!(fields_of(",a,,b,"), vec!["", "a", "", "b", ""]);
    assert_eq!(fields_of("prix,€ 5"), vec!["prix", "€ 5"]);
}

#[test]
fn record_takes_the_first_five_fields() {
    let record = parse_record("B001,U7,Computers,45.5,Cable, 2 m,extra").unwrap();
    assert_eq!(record.product_id, "B001");
    assert_eq!(record.user_id, "U7");
    assert_eq!(record.category, "Computers");
    assert_eq!(record.price, "45.5");
    assert_eq!(record.name, "Cable");
    assert_eq!(parse_record("B001,U7,Computers,45.5").err(), Some(LineFault::MissingField));
    assert_eq!(parse_record("").err(), Some(LineFault::MissingField));
    assert_eq!(parse_record("A,u1,c,abc,a").err(), Some(LineFault::BadPrice));
    assert_eq!(parse_record("A,u1,c,,a").err(), Some(LineFault::BadPrice));
}

#[test]
fn records_skip_the_header_and_report_the_first_bad_line() {
    let lines: Vec<String> = vec![
        "product_id,user_id".to_string(),
        "B001,U1,c,1,n".to_string(),
        "B002,U1,c,2,m".to_string(),
    ];
    let records = parse_records(&lines).unwrap();
    assert_eq!(records.len(), 2);
    assert_eq!(records[1].product_id, "B002");
    assert_eq!(parse_records(&vec![]).unwrap().len(), 0);
    assert_eq!(parse_records(&vec!["only,a,header".to_string()]).unwrap().len(), 0);
    let bad: Vec<String> = vec![
        "header".to_string(),
        "B001,U1,c,1,n".to_string(),
        "B002,U1".to_string(),
        "".to_string(),
    ];
    assert_eq!(parse_records(&bad).err(), Some(RecordError::MissingField(2)));
}

#[test]
fn read_data_builds_the_graph_of_a_table() {
    let lines: Vec<String> = [
        "product_id,user_id,category,price,name",
        "A,u1,Cables,10.0,Cable",
        "B,u1,Cables,20.0,Plug",
        "A,u2,Cables,10.0,Cable",
        "B,u2,Cables,20.0,Plug",
        "A,u3,Cables,10.0,Cable",
        "C,u3,Audio,30.0,Speaker",
    ]
    .iter()
    .map(|line| line.to_string())
    .collect();
    let graph = read_data(&lines).ok().unwrap();
    assert_eq!(graph.node_count(), 3);
    assert_eq!(graph.edge_count(), 2);
    assert_eq!(graph.edge_weight(0, 1), Some(2));
    assert_eq!(graph.edge_weight(0, 2), Some(1));
    assert_eq!(graph.product(2).unwrap().category, "Audio");
    assert_eq!(graph.product(2).unwrap().price, "30.0");
}

#[test]
fn read_data_reports_a_line_without_record() {
    let lines: Vec<String> =
        vec!["header".to_string(), "A,u1,Cables,10.0,Cable".to_string(), "B,u1".to_string()];
    assert_eq!(
        read_data(&lines).err(),
        Some(ReadError::Record(RecordError::MissingField(2)))
    );
}

#[test]
fn records_report_a_price_that_is_no_number() {
    let lines: Vec<String> = vec![
        "header".to_string(),
        "A,u1,c,1.5,a".to_string(),
        "B,u1,c,1.5.2,b".to_string(),
        "C,u1".to_string(),
    ];
    assert_eq!(parse_records(&lines).err(), Some(RecordError::BadPrice(2)));
    assert_eq!(read_data(&lines).err(), Some(ReadError::Record(RecordError::BadPrice(2))));
}

#[test]
fn numbers_are_what_the_float_parser_takes() {
    let samples = [
        "", "0", "7", "007", "12.5", "12.", ".5", ".", "+", "-", "+1", "-1.25", "--1", "1e5", "1E5",
        "1e+5", "1e-5", "1e", "1e+", "e5", ".e5", "1.e5", ".5e5", "1.5e5x", "1.5.2", "1,5", " 1",
        "1 ", "abc", "inf", "INF", "Infinity", "infinit", "-inf", "+infinity", "nan", "NaN", "-nan",
        "nanx", "in", "0x10", "1_000", "١", "1e5.5", "99.999", "100", "1e400", "+.5", "-.", "1.0e",
    ];
    for sample in samples {
        assert_eq!(is_number_text(sample), sample.parse::<f32>().is_ok(), "{:?}", sample);
    }
}
