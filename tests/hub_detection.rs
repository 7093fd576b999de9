use codenav_core::hub_detection::{compute_graph_stats, detect_hubs, HubDetector};

#[test]
fn test_find_hubs() {
    // Node 3 is imported by 0, 1, 2 (in-degree = 3)
    let edges = vec![(0, 3), (1, 3), (2, 3), (0, 1)];
    let detector = HubDetector::new(4, &edges);

    let hubs = detector.find_hubs(3);
    assert_eq!(hubs.len(), 1);
    assert_eq!(hubs[0], (3, 3));
}

#[test]
fn test_classify_hub() {
    assert_eq!(HubDetector::classify_hub(10), "critical");
    assert_eq!(HubDetector::classify_hub(8), "critical");
    assert_eq!(HubDetector::classify_hub(6), "high");
    assert_eq!(HubDetector::classify_hub(3), "medium");
    assert_eq!(HubDetector::classify_hub(2), "low");
    assert_eq!(HubDetector::classify_hub(1), "none");
}

#[test]
fn classify_hub_remaining_levels() {
    assert_eq!(HubDetector::classify_hub(5), "high");
    assert_eq!(HubDetector::classify_hub(7), "high");
    assert_eq!(HubDetector::classify_hub(4), "medium");
    assert_eq!(HubDetector::classify_hub(0), "none");
    assert_eq!(HubDetector::classify_hub(usize::MAX), "critical");
}

#[test]
fn test_in_out_degrees() {
    let edges = vec![(0, 1), (0, 2), (1, 2)];
    let detector = HubDetector::new(3, &edges);

    let in_deg = detector.get_in_degrees();
    let out_deg = detector.get_out_degrees();

    assert_eq!(out_deg.get(0), Some(2)); // 0 imports 1 and 2
    assert_eq!(in_deg.get(2), Some(2)); // 2 is imported by 0 and 1
}

#[test]
fn degree_tables_hold_only_nonzero_counts() {
    let edges = vec![(0, 1), (0, 2), (1, 2)];
    let detector = HubDetector::new(3, &edges);
    let in_deg = detector.get_in_degrees();
    let out_deg = detector.get_out_degrees();
    assert_eq!(in_deg.get(0), None);
    assert_eq!(out_deg.get(2), None);
    assert_eq!(in_deg.get(1), Some(1));
    assert_eq!(detector.in_degree(0), 0);
    assert_eq!(detector.out_degree(0), 2);
}

#[test]
fn out_of_range_edges_are_dropped() {
    let edges = vec![(0, 1), (0, 7), (9, 1), (1, 1), (1, 1)];
    let detector = HubDetector::new(2, &edges);
    assert_eq!(detector.in_degree(1), 3);
    assert_eq!(detector.out_degree(0), 1);
    assert_eq!(detector.out_degree(1), 2);
    let stats = detector.get_hub_stats();
    assert_eq!(stats.total_in_degree, 3);
    assert_eq!(stats.nodes_with_imports, 1);
}

#[test]
fn test_hub_stats() {
    let edges = vec![
        (0, 5), (1, 5), (2, 5), (3, 5), (4, 5), // 5 is critical hub (5 imports)
        (0, 6), (1, 6), (2, 6),                 // 6 is medium hub (3 imports)
    ];
    let detector = HubDetector::new(7, &edges);
    let stats = detector.get_hub_stats();

    assert_eq!(stats.total_nodes, 7);
    assert_eq!(stats.total_hubs, 2); // nodes 5 and 6
    assert_eq!(stats.max_in_degree, 5);
}

#[test]
fn hub_stats_other_fields() {
    let edges = vec![
        (0, 5), (1, 5), (2, 5), (3, 5), (4, 5),
        (0, 6), (1, 6), (2, 6),
    ];
    let stats = HubDetector::new(7, &edges).get_hub_stats();
    assert_eq!(stats.nodes_with_imports, 2);
    assert_eq!(stats.critical_hubs, 0);
    assert_eq!(stats.total_in_degree, 8);
    // mean in-degree over the nodes with imports
    assert!((stats.total_in_degree as f64 / stats.nodes_with_imports as f64 - 4.0).abs() < 1e-12);
}

#[test]
fn hub_stats_empty_graph() {
    let stats = HubDetector::new(0, &[]).get_hub_stats();
    assert_eq!(stats.total_nodes, 0);
    assert_eq!(stats.nodes_with_imports, 0);
    assert_eq!(stats.max_in_degree, 0);
    assert_eq!(stats.total_in_degree, 0);
}

#[test]
fn critical_hubs_counted() {
    let edges: Vec<(usize, usize)> = (0..8).map(|i| (i, 8)).collect();
    let stats = HubDetector::new(9, &edges).get_hub_stats();
    assert_eq!(stats.critical_hubs, 1);
    assert_eq!(stats.total_hubs, 1);
}

#[test]
fn test_hub_scores() {
    let edges = vec![(0, 2), (1, 2), (2, 3)];
    let detector = HubDetector::new(4, &edges);
    let mut scores: Vec<(usize, f64)> = detector
        .hub_score_inputs()
        .into_iter()
        .map(|(i, in_deg, out_deg)| (i, in_deg as f64 * (1.0 + (1.0 + out_deg as f64).ln())))
        .collect();
    scores.sort_by(|a, b| b.1.partial_cmp(&a.1).unwrap());

    // Node 2 has in_degree=2 and out_degree=1, should have highest score
    assert!(!scores.is_empty());
    assert_eq!(scores[0].0, 2);
}

#[test]
fn hub_score_inputs_exact() {
    let edges = vec![(0, 2), (1, 2), (2, 3)];
    let inputs = HubDetector::new(4, &edges).hub_score_inputs();
    assert_eq!(inputs, vec![(2, 2, 1), (3, 1, 0)]);
}

#[test]
fn find_hubs_orders_by_degree_then_id() {
    let edges = vec![(0, 4), (1, 4), (0, 2), (1, 2), (2, 4), (3, 1)];
    let detector = HubDetector::new(5, &edges);
    assert_eq!(detector.find_hubs(1), vec![(4, 3), (2, 2), (1, 1)]);
    assert_eq!(detector.find_hubs(0), vec![(4, 3), (2, 2), (1, 1), (0, 0), (3, 0)]);
    assert_eq!(detector.find_hubs(4), vec![]);
}

#[test]
fn find_hubs_equal_degrees_ascending_ids() {
    let edges = vec![(0, 3), (1, 3), (0, 1), (2, 1), (3, 2), (0, 2)];
    let detector = HubDetector::new(4, &edges);
    assert_eq!(detector.find_hubs(2), vec![(1, 2), (2, 2), (3, 2)]);
}

#[test]
fn detect_hubs_matches_detector() {
    let edges = vec![(0, 3), (1, 3), (2, 3), (0, 1)];
    assert_eq!(detect_hubs(4, &edges, 3), vec![(3, 3)]);
    assert_eq!(detect_hubs(4, &edges, 1), vec![(3, 3), (1, 1)]);
    assert_eq!(detect_hubs(0, &edges, 1), vec![]);
}

#[test]
fn graph_stats_counts() {
    let edges = vec![(0, 1), (0, 2), (1, 2), (5, 0)];
    let stats = compute_graph_stats(4, &edges);
    assert_eq!(stats.total_edges, 4);
    assert_eq!(stats.total_in_degree, 3);
    assert_eq!(stats.total_out_degree, 3);
    assert_eq!(stats.max_in_degree, 2);
    assert_eq!(stats.max_out_degree, 2);
    assert_eq!(stats.isolated_nodes, 1);
    // means over all nodes
    assert!((stats.total_in_degree as f64 / 4.0 - 0.75).abs() < 1e-12);
}

#[test]
fn threshold_zero_lists_every_node() {
    assert_eq!(HubDetector::new(1, &[]).find_hubs(0), vec![(0, 0)]);
    assert_eq!(detect_hubs(3, &[(0, 2)], 0), vec![(2, 1), (0, 0), (1, 0)]);
    assert_eq!(detect_hubs(0, &[], 0), vec![]);
}

#[test]
fn hub_list_length_matches_total_hubs() {
    let edges = vec![
        (0, 5), (1, 5), (2, 5), (3, 5), (4, 5),
        (0, 6), (1, 6), (2, 6),
    ];
    let detector = HubDetector::new(7, &edges);
    assert_eq!(detector.find_hubs(3).len(), detector.get_hub_stats().total_hubs);
}
