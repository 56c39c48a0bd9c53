use transitive_trust::{Graph, Node, TrustError, SCALE};

fn s(x: &str) -> String {
    x.to_string()
}

#[test]
fn edge_insertion_creates_both_endpoints_in_order() {
    let mut g = Graph::new();
    g.add_positive_edge(s("B"), s("A"), 100).unwrap();
    g.add_negative_edge(s("C"), s("B"), 200).unwrap();
    assert_eq!(g.for_each_node(), vec![s("B"), s("A"), s("C")]);
}

#[test]
fn weights_default_to_zero_and_are_overwritten() {
    let mut g = Graph::new();
    g.add_positive_edge(s("A"), s("B"), 600_000).unwrap();
    assert_eq!(g.get_positive_weight(s("A"), s("B")), Ok(600_000));
    assert_eq!(g.get_negative_weight(s("A"), s("B")), Ok(0));
    assert_eq!(g.get_positive_weight(s("B"), s("A")), Ok(0));
    g.add_positive_edge(s("A"), s("B"), 200_000).unwrap();
    assert_eq!(g.get_positive_weight(s("A"), s("B")), Ok(200_000));
    g.add_negative_edge(s("A"), s("B"), 700_000).unwrap();
    assert_eq!(g.get_positive_weight(s("A"), s("B")), Ok(200_000));
    assert_eq!(g.get_negative_weight(s("A"), s("B")), Ok(700_000));
}

#[test]
fn weight_queries_on_missing_source_fail() {
    let mut g = Graph::new();
    g.add_positive_edge(s("A"), s("B"), 1).unwrap();
    assert_eq!(
        g.get_positive_weight(s("X"), s("A")),
        Err(TrustError::NodeNotFound(s("X")))
    );
    assert_eq!(
        g.get_negative_weight(s("Y"), s("A")),
        Err(TrustError::NodeNotFound(s("Y")))
    );
}

#[test]
fn neighbours_are_the_union_of_both_channels() {
    let mut g = Graph::new();
    g.add_positive_edge(s("A"), s("B"), 1).unwrap();
    g.add_negative_edge(s("A"), s("B"), 2).unwrap();
    g.add_negative_edge(s("A"), s("C"), 3).unwrap();
    assert_eq!(g.for_each_neighbour(s("A")), Ok(vec![s("B"), s("C")]));
    assert_eq!(g.for_each_neighbour(s("C")), Ok(vec![]));
    assert_eq!(
        g.for_each_neighbour(s("Q")),
        Err(TrustError::NodeNotFound(s("Q")))
    );
}

#[test]
fn weight_above_one_is_refused() {
    let mut g = Graph::new();
    assert_eq!(
        g.add_positive_edge(s("A"), s("B"), SCALE + 1),
        Err(TrustError::InvalidWeight)
    );
    assert_eq!(
        g.add_negative_edge(s("A"), s("B"), SCALE + 1),
        Err(TrustError::InvalidWeight)
    );
    assert!(g.for_each_node().is_empty());
    assert_eq!(g.add_positive_edge(s("A"), s("B"), SCALE), Ok(()));
}

#[test]
fn node_edges_and_weights() {
    let mut node = Node::new();
    assert!(node.out_neighbours().is_empty());
    node.add_positive_edge(s("X"), 400_000).unwrap();
    node.add_negative_edge(s("Y"), 100_000).unwrap();
    node.add_negative_edge(s("X"), 50_000).unwrap();
    assert_eq!(node.get_positive_weight(s("X")), 400_000);
    assert_eq!(node.get_negative_weight(s("X")), 50_000);
    assert_eq!(node.get_positive_weight(s("Y")), 0);
    assert_eq!(node.get_negative_weight(s("Z")), 0);
    assert_eq!(node.out_neighbours(), vec![s("X"), s("Y")]);
    assert_eq!(
        node.add_positive_edge(s("X"), SCALE + 5),
        Err(TrustError::InvalidWeight)
    );
    assert_eq!(node.get_positive_weight(s("X")), 400_000);
}

#[test]
fn result_net_score() {
    let r = transitive_trust::Result::new(s("N"), 250_000, 750_000);
    assert_eq!(r.net_score(), -500_000);
    assert_eq!(r.node, "N");
}
