use graph_distance::distance::{shortest_path, NO_PATH};
use graph_distance::error::EstimateError;
use graph_distance::graph::Graph;
use graph_distance::traversal::bfs_traverse;

fn small_graph() -> Graph {
    // 0 -- 1 -- 2
    // |    |
    // 3    4
    let edges = vec![(0, 1), (1, 2), (0, 3), (1, 4)];
    Graph::from_edges(&edges).unwrap()
}

fn two_components() -> Graph {
    // 0 -- 1 -- 2      3 -- 4      5 has no edge at all
    let edges = vec![(0, 1), (1, 2), (3, 4), (6, 6)];
    Graph::from_edges(&edges).unwrap()
}

#[test]
fn test_bfs_small_graph() {
    let graph = small_graph();
    let visited_result = bfs_traverse(&graph, 0);
    assert_eq!(visited_result.len(), 5);
}

#[test]
fn test_shortest_path_small_graph() {
    let graph = small_graph();

    // Distance from 0 to 2 is 2 (0->1->2)
    let dist_0_2 = shortest_path(&graph, 0, 2);
    assert_eq!(dist_0_2, 2);

    // Distance from 3 to 4 is 3 (3->0->1->4)
    let dist_3_4 = shortest_path(&graph, 3, 4);
    assert_eq!(dist_3_4, 3);
}

#[test]
fn from_edges_refuses_empty_input() {
    let edges: Vec<(usize, usize)> = Vec::new();
    match Graph::from_edges(&edges) {
        Err(e) => assert_eq!(e, EstimateError::EmptyInput),
        Ok(_) => panic!("an empty edge list gave a graph"),
    }
}

#[test]
fn from_edges_counts_vertices_from_largest_id() {
    let graph = Graph::from_edges(&vec![(2, 7)]).unwrap();
    assert_eq!(graph.vertex_count(), 8);
    assert_eq!(graph.neighbors(2), &vec![7]);
    assert_eq!(graph.neighbors(7), &vec![2]);
    for v in [0, 1, 3, 4, 5, 6] {
        assert!(graph.neighbors(v).is_empty());
    }
    assert_eq!(small_graph().vertex_count(), 5);
}

#[test]
fn from_edges_sorts_neighbor_lists() {
    let graph = Graph::from_edges(&vec![(0, 3), (0, 1), (4, 0), (0, 2)]).unwrap();
    assert_eq!(graph.neighbors(0), &vec![1, 2, 3, 4]);
    assert_eq!(graph.neighbors(4), &vec![0]);
}

#[test]
fn from_edges_lists_every_edge_from_both_ends() {
    let graph = small_graph();
    assert_eq!(graph.neighbors(0), &vec![1, 3]);
    assert_eq!(graph.neighbors(1), &vec![0, 2, 4]);
    assert_eq!(graph.neighbors(2), &vec![1]);
    assert_eq!(graph.neighbors(3), &vec![0]);
    assert_eq!(graph.neighbors(4), &vec![1]);
    for u in 0..5 {
        for &v in graph.neighbors(u) {
            assert!(graph.neighbors(v).contains(&u));
        }
    }
}

#[test]
fn from_edges_keeps_parallel_edges_and_self_loops() {
    let graph = Graph::from_edges(&vec![(0, 1), (1, 0), (0, 1), (2, 2)]).unwrap();
    assert_eq!(graph.neighbors(0), &vec![1, 1, 1]);
    assert_eq!(graph.neighbors(1), &vec![0, 0, 0]);
    assert_eq!(graph.neighbors(2), &vec![2, 2]);
}

#[test]
fn bfs_visits_in_order_of_discovery() {
    let graph = small_graph();
    assert_eq!(bfs_traverse(&graph, 0), vec![0, 1, 3, 2, 4]);
    assert_eq!(bfs_traverse(&graph, 4), vec![4, 1, 0, 2, 3]);
    assert_eq!(bfs_traverse(&graph, 2), vec![2, 1, 0, 4, 3]);
}

#[test]
fn bfs_visits_each_vertex_once() {
    let graph = Graph::from_edges(&vec![(0, 1), (1, 2), (2, 0), (0, 1), (2, 2), (2, 3)]).unwrap();
    let order = bfs_traverse(&graph, 0);
    assert_eq!(order, vec![0, 1, 2, 3]);
    let mut sorted = order.clone();
    sorted.sort();
    sorted.dedup();
    assert_eq!(sorted.len(), order.len());
}

#[test]
fn bfs_from_a_start_out_of_range_is_empty() {
    let graph = small_graph();
    assert!(bfs_traverse(&graph, 5).is_empty());
    assert!(bfs_traverse(&graph, usize::MAX).is_empty());
}

#[test]
fn bfs_from_an_isolated_vertex_finds_only_itself() {
    let graph = two_components();
    assert_eq!(bfs_traverse(&graph, 5), vec![5]);
    assert_eq!(bfs_traverse(&graph, 6), vec![6]);
}

#[test]
fn bfs_stays_within_its_component() {
    let graph = two_components();
    assert_eq!(bfs_traverse(&graph, 1), vec![1, 0, 2]);
    assert_eq!(bfs_traverse(&graph, 4), vec![4, 3]);
    for start in 0..graph.vertex_count() {
        for v in bfs_traverse(&graph, start) {
            assert_ne!(shortest_path(&graph, start, v), NO_PATH);
        }
    }
}

#[test]
fn shortest_path_to_itself_is_zero() {
    let graph = two_components();
    for a in 0..graph.vertex_count() {
        assert_eq!(shortest_path(&graph, a, a), 0);
    }
}

#[test]
fn shortest_path_out_of_range_is_no_path() {
    let graph = small_graph();
    assert_eq!(shortest_path(&graph, 0, 5), NO_PATH);
    assert_eq!(shortest_path(&graph, 5, 0), NO_PATH);
    assert_eq!(shortest_path(&graph, 7, 7), NO_PATH);
    assert_eq!(NO_PATH, usize::MAX);
}

#[test]
fn shortest_path_is_symmetric() {
    for graph in [small_graph(), two_components()] {
        let n = graph.vertex_count();
        for u in 0..n {
            for v in 0..n {
                assert_eq!(shortest_path(&graph, u, v), shortest_path(&graph, v, u));
            }
        }
    }
}

#[test]
fn shortest_path_obeys_the_triangle_inequality() {
    let graph = small_graph();
    for u in 0..5 {
        for v in 0..5 {
            for w in 0..5 {
                let direct = shortest_path(&graph, u, w);
                let detour = shortest_path(&graph, u, v) + shortest_path(&graph, v, w);
                assert!(direct <= detour);
            }
        }
    }
}

#[test]
fn shortest_path_across_components_is_no_path() {
    let graph = two_components();
    for u in [0, 1, 2] {
        for v in [3, 4, 5, 6] {
            assert_eq!(shortest_path(&graph, u, v), NO_PATH);
            assert_eq!(shortest_path(&graph, v, u), NO_PATH);
        }
    }
    assert_eq!(shortest_path(&graph, 3, 4), 1);
    assert_eq!(shortest_path(&graph, 0, 2), 2);
}

#[test]
fn shortest_path_takes_the_shorter_way_round_a_cycle() {
    // a ring of six vertices with one chord
    let ring = Graph::from_edges(&vec![(0, 1), (1, 2), (2, 3), (3, 4), (4, 5), (5, 0), (1, 4)])
        .unwrap();
    assert_eq!(shortest_path(&ring, 0, 3), 3);
    assert_eq!(shortest_path(&ring, 0, 4), 2);
    assert_eq!(shortest_path(&ring, 2, 5), 3);
    assert_eq!(shortest_path(&ring, 1, 4), 1);
}
