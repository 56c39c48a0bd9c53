use transitive_trust::{compute_scores, Graph, TrustError, SCALE};

fn s(x: &str) -> String {
    x.to_string()
}

fn example_a() -> Graph {
    let mut g = Graph::new();
    g.add_positive_edge(s("A"), s("B"), 600_000).unwrap();
    g.add_positive_edge(s("A"), s("C"), 500_000).unwrap();
    g.add_positive_edge(s("B"), s("C"), 400_000).unwrap();
    g.add_positive_edge(s("C"), s("D"), 500_000).unwrap();
    g
}

fn scores_of(results: &[transitive_trust::Result]) -> Vec<(String, u64, u64)> {
    results
        .iter()
        .map(|r| (r.node.clone(), r.p_score, r.n_score))
        .collect()
}

#[test]
fn example_a_chain_and_shortcut() {
    let results = compute_scores(example_a(), s("A")).unwrap();
    // B (key 6) is visited before C (key 5), so C is pulled from 0.5 towards
    // B's 0.6 by 0.4 of the gap, and D gets half of C's 0.54.
    assert_eq!(
        scores_of(&results),
        vec![
            (s("B"), 600_000, 0),
            (s("C"), 540_000, 0),
            (s("D"), 270_000, 0),
        ]
    );
}

#[test]
fn example_a_scores_do_not_fall() {
    let results = compute_scores(example_a(), s("A")).unwrap();
    // C first received 0.5 straight from A; its final trust is no lower.
    let c = results.iter().find(|r| r.node == "C").unwrap();
    assert!(c.p_score >= 500_000);
}

#[test]
fn unreachable_node_stays_at_zero() {
    let mut g = Graph::new();
    g.add_positive_edge(s("A"), s("B"), 500_000).unwrap();
    g.add_positive_edge(s("E"), s("F"), 900_000).unwrap();
    let results = compute_scores(g, s("A")).unwrap();
    assert_eq!(
        scores_of(&results),
        vec![(s("B"), 500_000, 0), (s("E"), 0, 0), (s("F"), 0, 0)]
    );
}

#[test]
fn single_negative_edge() {
    let mut g = Graph::new();
    g.add_negative_edge(s("A"), s("B"), SCALE).unwrap();
    let results = compute_scores(g, s("A")).unwrap();
    assert_eq!(scores_of(&results), vec![(s("B"), 0, SCALE)]);
    assert_eq!(results[0].net_score(), -(SCALE as i128));
}

#[test]
fn self_loop_leaves_source_unchanged() {
    let mut g = Graph::new();
    g.add_positive_edge(s("A"), s("A"), 500_000).unwrap();
    let alone = compute_scores(g, s("A")).unwrap();
    assert!(alone.is_empty());

    // The source is visited before it relaxes its targets, so the loop does
    // not touch it and B receives half of an unchanged 1.
    let mut g = Graph::new();
    g.add_positive_edge(s("A"), s("A"), 500_000).unwrap();
    g.add_positive_edge(s("A"), s("B"), 500_000).unwrap();
    let results = compute_scores(g, s("A")).unwrap();
    assert_eq!(scores_of(&results), vec![(s("B"), 500_000, 0)]);
}

#[test]
fn source_is_not_reported() {
    let results = compute_scores(example_a(), s("B")).unwrap();
    assert!(results.iter().all(|r| r.node != "B"));
    assert_eq!(results.len(), 3);
    // Against the edges' direction nothing reaches A.
    assert_eq!(
        scores_of(&results),
        vec![(s("A"), 0, 0), (s("C"), 400_000, 0), (s("D"), 200_000, 0)]
    );
}

#[test]
fn computing_twice_gives_the_same_scores() {
    let first = compute_scores(example_a(), s("A")).unwrap();
    let second = compute_scores(example_a(), s("A")).unwrap();
    assert_eq!(scores_of(&first), scores_of(&second));
}

#[test]
fn zero_weight_edge_transfers_nothing() {
    let mut g = Graph::new();
    g.add_positive_edge(s("A"), s("B"), 0).unwrap();
    g.add_negative_edge(s("A"), s("C"), 0).unwrap();
    let results = compute_scores(g, s("A")).unwrap();
    assert_eq!(
        scores_of(&results),
        vec![(s("B"), 0, 0), (s("C"), 0, 0)]
    );
}

#[test]
fn both_channels_on_one_edge() {
    let mut g = Graph::new();
    g.add_positive_edge(s("A"), s("B"), 800_000).unwrap();
    g.add_negative_edge(s("A"), s("B"), 300_000).unwrap();
    g.add_positive_edge(s("B"), s("C"), 1_000_000).unwrap();
    let results = compute_scores(g, s("A")).unwrap();
    // B: trust 0.8, distrust 0.3, net 0.5; C is pulled fully to 0.5.
    assert_eq!(
        scores_of(&results),
        vec![(s("B"), 800_000, 300_000), (s("C"), 500_000, 0)]
    );
    assert_eq!(results[0].net_score(), 500_000);
}

#[test]
fn guard_skips_a_neighbour_already_above() {
    // B (net 0.5) and D (net 0.55) share a priority band; B was pushed first
    // and leaves first. D's net already exceeds B's 0.5, so B's distrust
    // edge does not reach D.
    let mut g = Graph::new();
    g.add_positive_edge(s("A"), s("B"), 500_000).unwrap();
    g.add_positive_edge(s("A"), s("C"), 900_000).unwrap();
    g.add_positive_edge(s("C"), s("D"), 611_112).unwrap();
    g.add_negative_edge(s("B"), s("D"), 1_000_000).unwrap();
    let results = compute_scores(g, s("A")).unwrap();
    assert_eq!(
        scores_of(&results),
        vec![(s("B"), 500_000, 0), (s("C"), 900_000, 0), (s("D"), 550_000, 0)]
    );
}

#[test]
fn rounding_is_downwards() {
    let mut g = Graph::new();
    g.add_positive_edge(s("A"), s("B"), 333_333).unwrap();
    g.add_positive_edge(s("B"), s("C"), 333_333).unwrap();
    let results = compute_scores(g, s("A")).unwrap();
    // 0.333333 × 0.333333 = 0.111110888889, kept to six places downwards.
    assert_eq!(
        scores_of(&results),
        vec![(s("B"), 333_333, 0), (s("C"), 111_110, 0)]
    );
}

#[test]
fn unknown_source_is_refused() {
    let r = compute_scores(example_a(), s("Z"));
    assert_eq!(r.err(), Some(TrustError::NodeNotFound(s("Z"))));
}

#[test]
fn empty_graph_has_no_source() {
    let r = compute_scores(Graph::new(), s("A"));
    assert_eq!(r.err(), Some(TrustError::NodeNotFound(s("A"))));
}
