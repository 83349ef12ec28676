use crash_graph::{
    build_crashgraph, group_by_intersections, AnalysisError, CivilDate, ClockTime, CrashRecord,
    ProcessedCrashRecord, FIXED_POINT_SCALE,
};

fn fixed(v: f64) -> i64 {
    (v * FIXED_POINT_SCALE as f64).round() as i64
}

fn record(number: &str, label: &str, x: f64, y: f64) -> ProcessedCrashRecord {
    ProcessedCrashRecord {
        crash_number: number.to_string(),
        crash_date: CivilDate { year: 2021, month: 1, day: 1 },
        crash_time: ClockTime { hour: 8, minute: 0, second: 0 },
        total_nonfatal_injuries: None,
        total_fatal_injuries: None,
        at_roadway_intersection: label.to_string(),
        x_coordinate: fixed(x),
        y_coordinate: fixed(y),
    }
}

#[test]
fn test_struct_population() {
    let raw = CrashRecord {
        crash_number: "4923964".to_string(),
        crash_date: "01-Jan-2021".to_string(),
        crash_time: "2:13 AM".to_string(),
        total_nonfatal_injuries: Some(fixed(0.0)),
        total_fatal_injuries: Some(fixed(0.0)),
        at_roadway_intersection: "HUNTINGTON AVENUE / WAIT STREET".to_string(),
        x_coordinate: Some(fixed(232459.5312)),
        y_coordinate: Some(fixed(898185.625)),
    };

    let processed = ProcessedCrashRecord::from_raw(raw);
    assert!(processed.is_some());
    let crash = processed.unwrap();
    assert_eq!(crash.x_coordinate, fixed(232459.5312));
    assert_eq!(crash.crash_date, CivilDate { year: 2021, month: 1, day: 1 });
}

#[test]
fn test_grouping() {
    let fakecrashes = vec![
        record("1", "HUNTINGTON AVENUE / WAIT STREET", 2000.0, 8000.0),
        record("2", "WAIT STREET / HUNTINGTON AVENUE", 2004.0, 8004.0),
    ];

    let intersections = group_by_intersections(&fakecrashes, fixed(10.0)).unwrap();
    assert_eq!(intersections.len(), 1);

    let graph = build_crashgraph(intersections, fixed(10.0)).unwrap();
    assert_eq!(graph.nodes.len(), 1);
    assert_eq!(graph.adjacency.len(), 0);
}

#[test]
fn from_raw_reads_time_and_lowercases_label() {
    let raw = CrashRecord {
        crash_number: "7".to_string(),
        crash_date: " 15-March-2022 ".to_string(),
        crash_time: "11:05 PM".to_string(),
        total_nonfatal_injuries: None,
        total_fatal_injuries: Some(fixed(1.0)),
        at_roadway_intersection: "Main St / Elm St".to_string(),
        x_coordinate: Some(fixed(1.5)),
        y_coordinate: Some(fixed(-2.25)),
    };
    let crash = ProcessedCrashRecord::from_raw(raw).unwrap();
    assert_eq!(crash.crash_date, CivilDate { year: 2022, month: 3, day: 15 });
    assert_eq!(crash.crash_time, ClockTime { hour: 23, minute: 5, second: 0 });
    assert_eq!(crash.at_roadway_intersection, "main st / elm st");
    assert_eq!(crash.crash_number, "7");
    assert_eq!(crash.total_fatal_injuries, Some(10_000));
    assert_eq!(crash.total_nonfatal_injuries, None);
    assert_eq!((crash.x_coordinate, crash.y_coordinate), (15_000, -22_500));
}

fn raw_with(date: &str, time: &str, x: Option<i64>, y: Option<i64>) -> CrashRecord {
    CrashRecord {
        crash_number: "1".to_string(),
        crash_date: date.to_string(),
        crash_time: time.to_string(),
        total_nonfatal_injuries: None,
        total_fatal_injuries: None,
        at_roadway_intersection: "A".to_string(),
        x_coordinate: x,
        y_coordinate: y,
    }
}

#[test]
fn from_raw_rejects_incomplete_records() {
    assert!(ProcessedCrashRecord::from_raw(raw_with("01-Jan-2021", "2:13 AM", None, Some(1))).is_none());
    assert!(ProcessedCrashRecord::from_raw(raw_with("01-Jan-2021", "2:13 AM", Some(1), None)).is_none());
    assert!(ProcessedCrashRecord::from_raw(raw_with("2021-01-01", "2:13 AM", Some(1), Some(1))).is_none());
    assert!(ProcessedCrashRecord::from_raw(raw_with("01-Jan-2021", "14:13", Some(1), Some(1))).is_none());
    assert!(ProcessedCrashRecord::from_raw(raw_with("01-Jan-2021", "2:13 AM", Some(1), Some(1))).is_some());
}

#[test]
fn grouping_rejects_non_positive_bin_size() {
    let data = vec![record("1", "a", 0.0, 0.0)];
    assert_eq!(group_by_intersections(&data, 0).unwrap_err(), AnalysisError::InvalidParameter);
    assert_eq!(group_by_intersections(&data, -5).unwrap_err(), AnalysisError::InvalidParameter);
}

#[test]
fn grouping_of_nothing_is_empty() {
    let nodes = group_by_intersections(&[], 10).unwrap();
    assert!(nodes.is_empty());
}

#[test]
fn grouping_single_record_gives_singleton_node() {
    let data = vec![record("1", "a", 12.0, 7.0)];
    let nodes = group_by_intersections(&data, fixed(10.0)).unwrap();
    assert_eq!(nodes.len(), 1);
    assert_eq!(nodes[0].id, 0);
    assert_eq!((nodes[0].x, nodes[0].y), (fixed(10.0), fixed(10.0)));
    assert_eq!(nodes[0].crashes.len(), 1);
}

#[test]
fn grouping_rounds_halves_away_from_zero() {
    let data = vec![
        record("1", "a", 15.0, -15.0),
        record("2", "b", 14.0, -14.0),
        record("3", "c", 24.9, -25.0),
    ];
    let nodes = group_by_intersections(&data, fixed(10.0)).unwrap();
    assert_eq!(nodes.len(), 3);
    assert_eq!((nodes[0].x, nodes[0].y), (fixed(20.0), fixed(-20.0)));
    assert_eq!((nodes[1].x, nodes[1].y), (fixed(10.0), fixed(-10.0)));
    assert_eq!((nodes[2].x, nodes[2].y), (fixed(20.0), fixed(-30.0)));
}

#[test]
fn grouping_numbers_nodes_in_order_of_discovery() {
    let data = vec![
        record("1", "a", 100.0, 0.0),
        record("2", "b", 0.0, 0.0),
        record("3", "c", 101.0, 1.0),
        record("4", "d", 1.0, -1.0),
    ];
    let nodes = group_by_intersections(&data, fixed(10.0)).unwrap();
    assert_eq!(nodes.len(), 2);
    assert_eq!((nodes[0].id, nodes[0].x), (0, fixed(100.0)));
    assert_eq!((nodes[1].id, nodes[1].x), (1, 0));
    let numbers: Vec<&str> = nodes[0].crashes.iter().map(|c| c.crash_number.as_str()).collect();
    assert_eq!(numbers, vec!["1", "3"]);
    let numbers: Vec<&str> = nodes[1].crashes.iter().map(|c| c.crash_number.as_str()).collect();
    assert_eq!(numbers, vec!["2", "4"]);
}

#[test]
fn regrouping_centers_keeps_node_count() {
    let data = vec![
        record("1", "a", 3.0, 4.0),
        record("2", "b", 38.0, 4.0),
        record("3", "c", -44.0, 91.0),
        record("4", "d", 36.0, 1.0),
        record("5", "e", 5.0, 5.0),
    ];
    let bin = fixed(10.0);
    let nodes = group_by_intersections(&data, bin).unwrap();
    let centers: Vec<ProcessedCrashRecord> = nodes
        .iter()
        .map(|n| {
            let mut r = record("c", "", 0.0, 0.0);
            r.x_coordinate = n.x;
            r.y_coordinate = n.y;
            r
        })
        .collect();
    let regrouped = group_by_intersections(&centers, bin).unwrap();
    assert_eq!(nodes.len(), 4);
    assert_eq!(regrouped.len(), nodes.len());
}

#[test]
fn identical_coordinates_share_a_node() {
    let data = vec![
        record("1", "a", 17.3, 22.9),
        record("2", "b", 50.0, 50.0),
        record("3", "c", 17.3, 22.9),
    ];
    for bin in [1, 7, fixed(0.5), fixed(3.0), fixed(1000.0)] {
        let nodes = group_by_intersections(&data, bin).unwrap();
        let holder = nodes
            .iter()
            .find(|n| n.crashes.iter().any(|c| c.crash_number == "1"))
            .unwrap();
        assert!(holder.crashes.iter().any(|c| c.crash_number == "3"));
    }
}

#[test]
fn end_to_end_two_close_records() {
    let data = vec![record("1", "a", 2000.0, 8000.0), record("2", "b", 2004.0, 8004.0)];
    let nodes = group_by_intersections(&data, fixed(10.0)).unwrap();
    assert_eq!(nodes.len(), 1);
    assert_eq!((nodes[0].x, nodes[0].y), (fixed(2000.0), fixed(8000.0)));
    assert_eq!(nodes[0].crashes.len(), 2);
    let graph = build_crashgraph(nodes, fixed(10.0)).unwrap();
    assert!(graph.adjacency.is_empty());
}
