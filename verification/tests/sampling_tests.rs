use graph_distance::error::EstimateError;
use graph_distance::estimate::{estimate, explore, summarize_pairs, total_distance};
use graph_distance::graph::Graph;
use graph_distance::sampling::{offer_pair, ordered_pair, sample_pairs, MAX_ATTEMPTS, SAMPLE_SIZE};
use graph_distance::traversal::bfs_traverse;

#[test]
fn ordered_pair_puts_the_smaller_first() {
    assert_eq!(ordered_pair(3, 8), (3, 8));
    assert_eq!(ordered_pair(8, 3), (3, 8));
    assert_eq!(ordered_pair(5, 5), (5, 5));
}

#[test]
fn offer_pair_adds_a_new_pair() {
    let vertices = vec![10, 4, 7];
    let mut pairs = Vec::new();
    assert!(offer_pair(&vertices, &mut pairs, 0, 1));
    assert_eq!(pairs, vec![(4, 10)]);
    assert!(offer_pair(&vertices, &mut pairs, 2, 1));
    assert_eq!(pairs, vec![(4, 10), (4, 7)]);
}

#[test]
fn offer_pair_passes_over_equal_positions() {
    let vertices = vec![10, 4, 7];
    let mut pairs = vec![(4, 10)];
    assert!(!offer_pair(&vertices, &mut pairs, 2, 2));
    assert_eq!(pairs, vec![(4, 10)]);
}

#[test]
fn offer_pair_passes_over_a_pair_seen_before() {
    let vertices = vec![10, 4, 7];
    let mut pairs = vec![(4, 10)];
    assert!(!offer_pair(&vertices, &mut pairs, 1, 0));
    assert!(!offer_pair(&vertices, &mut pairs, 0, 1));
    assert_eq!(pairs, vec![(4, 10)]);
}

#[test]
fn sample_pairs_gives_distinct_ordered_pairs_of_the_vertices() {
    let vertices: Vec<usize> = (0..40).map(|v| v * 3).collect();
    let mut rng = rand::thread_rng();
    let pairs = sample_pairs(&vertices, 100, 10_000, &mut rng);
    assert!(pairs.len() <= 100);
    for (k, &(a, b)) in pairs.iter().enumerate() {
        assert!(a < b);
        assert!(vertices.contains(&a));
        assert!(vertices.contains(&b));
        assert!(!pairs[..k].contains(&(a, b)));
    }
}

#[test]
fn sample_pairs_finds_every_pair_of_a_small_set() {
    let vertices = vec![5, 1, 9];
    let mut rng = rand::thread_rng();
    let pairs = sample_pairs(&vertices, SAMPLE_SIZE, MAX_ATTEMPTS, &mut rng);
    assert!(pairs.len() <= 3);
    let mut sorted = pairs.clone();
    sorted.sort();
    assert_eq!(sorted, vec![(1, 5), (1, 9), (5, 9)]);
}

#[test]
fn sample_pairs_stops_when_attempts_run_out() {
    let vertices: Vec<usize> = (0..50).collect();
    let mut rng = rand::thread_rng();
    assert!(sample_pairs(&vertices, 1000, 1, &mut rng).len() <= 1);
    assert!(sample_pairs(&vertices, 1000, 0, &mut rng).is_empty());
    assert!(sample_pairs(&vertices, 0, 1000, &mut rng).is_empty());
}

#[test]
fn sample_pairs_of_a_single_vertex_is_empty() {
    let mut rng = rand::thread_rng();
    assert!(sample_pairs(&vec![7], 10, 100, &mut rng).is_empty());
}

#[test]
fn constants_allow_a_hundred_attempts_for_each_pair() {
    assert_eq!(SAMPLE_SIZE, 1000);
    assert_eq!(MAX_ATTEMPTS, 100 * SAMPLE_SIZE);
}

#[test]
fn total_distance_leaves_unreachable_pairs_out() {
    let graph = Graph::from_edges(&vec![(0, 1), (1, 2), (3, 4)]).unwrap();
    let pairs = vec![(0, 2), (0, 3), (3, 4), (1, 4), (0, 1), (2, 9)];
    let summary = total_distance(&graph, &pairs);
    assert_eq!(summary.counted_pairs, 3);
    assert_eq!(summary.total_distance, 4);
}

#[test]
fn total_distance_of_small_graph() {
    let graph = Graph::from_edges(&vec![(0, 1), (1, 2), (0, 3), (1, 4)]).unwrap();
    let pairs = vec![(0, 2), (3, 4), (2, 4), (0, 1)];
    let summary = total_distance(&graph, &pairs);
    assert_eq!(summary.counted_pairs, 4);
    assert_eq!(summary.total_distance, 8);
    let nothing = total_distance(&graph, &Vec::new());
    assert_eq!(nothing.counted_pairs, 0);
    assert_eq!(nothing.total_distance, 0);
}

#[test]
fn summarize_pairs_without_pairs_is_no_pairs_formed() {
    let graph = Graph::from_edges(&vec![(0, 1)]).unwrap();
    match summarize_pairs(&graph, &Vec::new()) {
        Err(e) => assert_eq!(e, EstimateError::NoPairsFormed),
        Ok(_) => panic!("a summary of no pairs"),
    }
}

#[test]
fn summarize_pairs_across_components_is_all_pairs_unreachable() {
    let graph = Graph::from_edges(&vec![(0, 1), (2, 3)]).unwrap();
    match summarize_pairs(&graph, &vec![(0, 2), (1, 3), (0, 3)]) {
        Err(e) => assert_eq!(e, EstimateError::AllPairsUnreachable),
        Ok(_) => panic!("a summary of pairs that no path joins"),
    }
}

#[test]
fn summarize_pairs_counts_the_joined_pairs() {
    let graph = Graph::from_edges(&vec![(0, 1), (2, 3)]).unwrap();
    let summary = summarize_pairs(&graph, &vec![(0, 2), (0, 1), (2, 3)]).ok().unwrap();
    assert_eq!(summary.counted_pairs, 2);
    assert_eq!(summary.total_distance, 2);
}

#[test]
fn explore_starts_from_the_first_endpoint_of_the_first_edge() {
    let found = explore(&vec![(3, 4), (0, 1), (4, 5)]).ok().unwrap();
    assert_eq!(found.start_vertex, 3);
    assert_eq!(found.graph.vertex_count(), 6);
    assert_eq!(found.reachable, vec![3, 4, 5]);
    assert_eq!(found.reachable, bfs_traverse(&found.graph, 3));
}

#[test]
fn explore_refuses_empty_input() {
    match explore(&Vec::new()) {
        Err(e) => assert_eq!(e, EstimateError::EmptyInput),
        Ok(_) => panic!("an empty edge list was explored"),
    }
}

#[test]
fn estimate_needs_two_vertices() {
    // a self-loop: the start vertex reaches nothing but itself
    let found = explore(&vec![(0, 0), (1, 2)]).ok().unwrap();
    assert_eq!(found.reachable, vec![0]);
    let mut rng = rand::thread_rng();
    match estimate(&found.graph, &found.reachable, SAMPLE_SIZE, MAX_ATTEMPTS, &mut rng) {
        Err(e) => assert_eq!(e, EstimateError::InsufficientReachableVertices),
        Ok(_) => panic!("an estimate from one vertex"),
    }
    match estimate(&found.graph, &Vec::new(), SAMPLE_SIZE, MAX_ATTEMPTS, &mut rng) {
        Err(e) => assert_eq!(e, EstimateError::InsufficientReachableVertices),
        Ok(_) => panic!("an estimate from no vertex"),
    }
}

#[test]
fn estimate_without_attempts_forms_no_pairs() {
    let found = explore(&vec![(0, 1), (1, 2)]).ok().unwrap();
    let mut rng = rand::thread_rng();
    match estimate(&found.graph, &found.reachable, SAMPLE_SIZE, 0, &mut rng) {
        Err(e) => assert_eq!(e, EstimateError::NoPairsFormed),
        Ok(_) => panic!("an estimate without a draw"),
    }
}

#[test]
fn estimate_of_a_path_of_three_vertices() {
    // the pairs are (0,1), (1,2) and (0,2), with distances 1, 1 and 2
    let found = explore(&vec![(0, 1), (1, 2)]).ok().unwrap();
    let mut rng = rand::thread_rng();
    let summary = estimate(&found.graph, &found.reachable, SAMPLE_SIZE, MAX_ATTEMPTS, &mut rng)
        .ok()
        .unwrap();
    assert_eq!(summary.counted_pairs, 3);
    assert_eq!(summary.total_distance, 4);
    let average = summary.total_distance as f64 / summary.counted_pairs as f64;
    assert_eq!(format!("{:.4}", average), "1.3333");
}

#[test]
fn estimate_counts_every_pair_of_reachable_vertices() {
    let edges: Vec<(usize, usize)> = (0..30).map(|v| (v, v + 1)).collect();
    let found = explore(&edges).ok().unwrap();
    let mut rng = rand::thread_rng();
    let summary = estimate(&found.graph, &found.reachable, 50, 5000, &mut rng).ok().unwrap();
    assert!(summary.counted_pairs >= 1);
    assert!(summary.counted_pairs <= 50);
    assert!(summary.total_distance >= summary.counted_pairs as u128);
    assert!(summary.total_distance <= 30 * summary.counted_pairs as u128);
}

#[test]
fn estimate_of_vertices_in_different_components() {
    let graph = Graph::from_edges(&vec![(0, 1), (2, 3)]).unwrap();
    let mut rng = rand::thread_rng();
    match estimate(&graph, &vec![0, 2], SAMPLE_SIZE, MAX_ATTEMPTS, &mut rng) {
        Err(e) => assert_eq!(e, EstimateError::AllPairsUnreachable),
        Ok(_) => panic!("an estimate across components"),
    }
}
