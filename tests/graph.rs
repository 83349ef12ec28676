use crash_graph::{
    build_crashgraph, compute_degree_distribution, degree_frequencies, edge_count,
    within_distance, AnalysisError, IntersectionNode, FIXED_POINT_SCALE,
};

fn fixed(v: f64) -> i64 {
    (v * FIXED_POINT_SCALE as f64).round() as i64
}

fn node(id: usize, x: f64, y: f64) -> IntersectionNode {
    IntersectionNode { id, x: fixed(x), y: fixed(y), crashes: Vec::new() }
}

#[test]
fn three_nodes_on_a_line() {
    let nodes = vec![node(0, 0.0, 0.0), node(1, 5.0, 0.0), node(2, 20.0, 0.0)];
    let graph = build_crashgraph(nodes, fixed(10.0)).unwrap();
    assert_eq!(graph.adjacency.get(&0), Some(&vec![1]));
    assert_eq!(graph.adjacency.get(&1), Some(&vec![0]));
    assert_eq!(graph.adjacency.get(&2), None);
    let degrees = compute_degree_distribution(&graph);
    assert_eq!(degrees.len(), 3);
    assert_eq!(degrees[&0], 1);
    assert_eq!(degrees[&1], 1);
    assert_eq!(degrees[&2], 0);
    assert_eq!(edge_count(&graph), 1);
}

#[test]
fn negative_distance_is_rejected() {
    let nodes = vec![node(0, 0.0, 0.0)];
    assert_eq!(build_crashgraph(nodes, -1).unwrap_err(), AnalysisError::InvalidParameter);
}

#[test]
fn zero_distance_connects_only_coincident_nodes() {
    let nodes = vec![node(0, 1.0, 1.0), node(1, 1.0, 1.0), node(2, 1.0, 1.0001)];
    let graph = build_crashgraph(nodes, 0).unwrap();
    assert_eq!(graph.adjacency.get(&0), Some(&vec![1]));
    assert_eq!(graph.adjacency.get(&1), Some(&vec![0]));
    assert_eq!(graph.adjacency.get(&2), None);
}

#[test]
fn distance_boundary_is_inclusive() {
    assert!(within_distance(0, 0, 30_000, 40_000, 50_000));
    assert!(!within_distance(0, 0, 30_000, 40_000, 49_999));
    assert!(within_distance(i64::MIN, 0, i64::MAX, 0, i64::MAX) == false);
    assert!(within_distance(-7, 3, -7, 3, 0));
}

fn sample_graph() -> crash_graph::CrashGraph {
    let nodes = vec![
        node(10, 0.0, 0.0),
        node(11, 3.0, 4.0),
        node(12, 6.0, 0.0),
        node(13, 100.0, 100.0),
        node(14, 3.0, 0.0),
    ];
    build_crashgraph(nodes, fixed(5.0)).unwrap()
}

#[test]
fn degree_sum_is_twice_the_pairs() {
    let graph = sample_graph();
    let degrees = compute_degree_distribution(&graph);
    let total: usize = degrees.values().sum();
    // pairs within 5: 10-11, 10-14, 11-12, 11-14, 12-14
    assert_eq!(total, 10);
    assert_eq!(edge_count(&graph), 5);
}

#[test]
fn adjacency_is_symmetric_without_self_loops() {
    let graph = sample_graph();
    for (a, list) in &graph.adjacency {
        assert!(!list.contains(a));
        for b in list {
            assert!(graph.adjacency[b].contains(a));
        }
    }
    assert_eq!(graph.adjacency[&10], vec![11, 14]);
    assert_eq!(graph.adjacency[&14], vec![10, 11, 12]);
    assert!(!graph.adjacency.contains_key(&13));
}

#[test]
fn degree_histogram_bars() {
    let bars = degree_frequencies(&[2, 0, 3, 2, 2, 0]);
    assert_eq!(bars, vec![(0, 2), (2, 3), (3, 1)]);
    assert!(degree_frequencies(&[]).is_empty());
}
