use crash_graph::{
    build_crashgraph, is_severe, most_common_name, top_n_high_degree_nodes,
    top_severe_intersections, CivilDate, ClockTime, CrashGraph, IntersectionNode,
    ProcessedCrashRecord, UNNAMED_INTERSECTION,
};
use std::collections::HashMap;

fn crash(label: &str, fatal: Option<i64>, nonfatal: Option<i64>) -> ProcessedCrashRecord {
    ProcessedCrashRecord {
        crash_number: "n".to_string(),
        crash_date: CivilDate { year: 2020, month: 6, day: 30 },
        crash_time: ClockTime { hour: 12, minute: 30, second: 0 },
        total_nonfatal_injuries: nonfatal,
        total_fatal_injuries: fatal,
        at_roadway_intersection: label.to_string(),
        x_coordinate: 0,
        y_coordinate: 0,
    }
}

fn labelled(labels: &[&str]) -> Vec<ProcessedCrashRecord> {
    labels.iter().map(|l| crash(l, None, None)).collect()
}

#[test]
fn representative_label_of_nothing() {
    assert_eq!(most_common_name(&[]), "Unnamed intersection");
    assert_eq!(UNNAMED_INTERSECTION, "Unnamed intersection");
}

#[test]
fn representative_label_normalizes_and_skips_unknown() {
    let crashes = labelled(&["  Main St / Elm St ", "unknown", "", "MAIN ST / ELM ST", "Oak Ave", "Unknown", "UNKNOWN"]);
    assert_eq!(most_common_name(&crashes), "main st / elm st");
    let only_unusable = labelled(&["unknown", "   ", " Unknown "]);
    assert_eq!(most_common_name(&only_unusable), "Unnamed intersection");
}

#[test]
fn representative_label_tie_goes_to_first_seen() {
    let crashes = labelled(&["Beta", "alpha", "ALPHA", "beta"]);
    assert_eq!(most_common_name(&crashes), "beta");
}

#[test]
fn severity_rule() {
    assert!(!is_severe(&crash("a", None, None)));
    assert!(is_severe(&crash("a", Some(5_000), None)));
    assert!(!is_severe(&crash("a", Some(0), Some(0))));
    assert!(is_severe(&crash("a", None, Some(10_000))));
    assert!(!is_severe(&crash("a", Some(-10_000), None)));
}

#[test]
fn top_by_degree_of_empty_graph() {
    let graph = CrashGraph { nodes: Vec::new(), adjacency: HashMap::new() };
    assert!(top_n_high_degree_nodes(&graph, 0).is_empty());
    assert!(top_n_high_degree_nodes(&graph, 5).is_empty());
}

fn at(id: usize, x: i64, labels: &[&str]) -> IntersectionNode {
    IntersectionNode { id, x, y: -x, crashes: labelled(labels) }
}

#[test]
fn top_by_degree_orders_by_degree_then_node_order() {
    // a path 0 - 2 - 1 - 3 plus an isolated node 4
    let nodes = vec![
        at(0, 0, &["West"]),
        at(1, 20, &["Hub", "East"]),
        at(2, 10, &["Hub", "hub"]),
        at(3, 30, &[]),
        at(4, 1000, &["Far"]),
    ];
    let graph = build_crashgraph(nodes, 15).unwrap();
    let top = top_n_high_degree_nodes(&graph, 3);
    assert_eq!(top.len(), 3);
    assert_eq!(top[0], (2, "hub".to_string(), 20, -20));
    assert_eq!(top[1], (2, "hub".to_string(), 10, -10));
    assert_eq!(top[2].0, 1);
    assert_eq!(top[2].1, "west");
    let all = top_n_high_degree_nodes(&graph, 10);
    assert_eq!(all.len(), 5);
    assert_eq!(all[3], (1, "Unnamed intersection".to_string(), 30, -30));
    assert_eq!(all[4], (0, "far".to_string(), 1000, -1000));
}

#[test]
fn top_by_severity_drops_nodes_without_severe_crashes() {
    let nodes = vec![
        IntersectionNode { id: 0, x: 1, y: 2, crashes: vec![crash("Quiet Rd", None, Some(0))] },
        IntersectionNode {
            id: 1,
            x: 3,
            y: 4,
            crashes: vec![crash("First Ave", Some(10_000), None), crash("x", None, Some(20_000))],
        },
        IntersectionNode { id: 2, x: 5, y: 6, crashes: vec![crash("Second Ave", None, Some(10_000))] },
        IntersectionNode {
            id: 3,
            x: 7,
            y: 8,
            crashes: vec![crash("Third Ave", None, None), crash("y", Some(10_000), None)],
        },
    ];
    let top = top_severe_intersections(&nodes, 5);
    assert_eq!(
        top,
        vec![
            ("First Ave".to_string(), 2, 3, 4),
            ("Second Ave".to_string(), 1, 5, 6),
            ("Third Ave".to_string(), 1, 7, 8),
        ]
    );
    let top_one = top_severe_intersections(&nodes, 1);
    assert_eq!(top_one, vec![("First Ave".to_string(), 2, 3, 4)]);
    assert!(top_severe_intersections(&nodes, 0).is_empty());
    assert!(top_severe_intersections(&nodes[..1], 5).is_empty());
}
