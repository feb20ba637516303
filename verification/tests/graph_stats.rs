use trust_graph::Graph;
use trust_graph::analysis::degree_distribution;
use trust_graph::analysis::trust_correlation_sums;
use trust_graph::bfs::bfs;

/// The count recorded for `degree`, or 0 when the degree is absent.
fn count_of(distribution: &Vec<(usize, usize)>, degree: usize) -> usize {
    for &(d, c) in distribution {
        if d == degree {
            return c;
        }
    }
    0
}

fn degree_of(graph: &Graph, v: i32) -> usize {
    match graph.neighbors_of(v) {
        Some(nb) => nb.len(),
        None => 0,
    }
}

#[test]
fn test_trust_correlation() {
    let edges = vec![
        (1, 2, 10),
        (1, 3, 20),
        (1, 4, 30),
        (2, 3, 40),
        (2, 4, 50),
    ];
    let results = trust_correlation_sums(&edges);
    let mut vertex_map = std::collections::HashMap::new();
    for &(vertex, degree, sum) in &results {
        vertex_map.insert(vertex, (degree, sum as f64 / degree as f64));
    }
    let (d1, a1) = vertex_map.get(&1).expect("Vertex 1 not found");
    assert_eq!(*d1, 3, "Expected Vertex 1 degree to be 3");
    assert!((a1 - 20.0).abs() < f64::EPSILON, "Expected Vertex 1 avg trust to be 20.0, got {}", a1);
    let (d2, a2) = vertex_map.get(&2).expect("Vertex 2 not found");
    assert_eq!(*d2, 2, "Expected Vertex 2 degree to be 2");
    assert!((a2 - 45.0).abs() < f64::EPSILON, "Expected Vertex 2 avg trust to be 45.0, got {}", a2);
}

#[test]
fn second_test_trust_correlation() {
    let edges = vec![
        (10, 11, 5),
        (10, 12, 5),
        (10, 13, 5),
        (10, 14, 5),
        (10, 15, 5),
    ];
    let results = trust_correlation_sums(&edges);
    let mut vertex_map = std::collections::HashMap::new();
    for &(vertex, degree, sum) in &results {
        vertex_map.insert(vertex, (degree, sum as f64 / degree as f64));
    }
    let (d10, a10) = vertex_map.get(&10).expect("Vertex 10 not found");
    assert_eq!(*d10, 5, "Expected Vertex 10 degree to be 5");
    assert!((a10 - 5.0).abs() < f64::EPSILON, "Expected Vertex 10 avg trust to be 5.0, got {}", a10);
}

#[test]
fn graph_is_symmetric_for_every_edge() {
    let edges = vec![(1, 2, 10), (1, 3, 20), (2, 3, 40), (4, 4, 1), (1, 2, 5)];
    let graph = Graph::new(&edges);
    for &(a, b, _) in &edges {
        let from_a = graph.neighbors_of(a).expect("source vertex missing");
        let from_b = graph.neighbors_of(b).expect("target vertex missing");
        assert!(from_a.contains(&b));
        assert!(from_b.contains(&a));
    }
}

#[test]
fn degree_counts_incidence_with_multiplicity() {
    let edges = vec![(1, 2, 1), (1, 3, 2), (1, 4, 3), (2, 3, 4), (2, 4, 5)];
    let graph = Graph::new(&edges);
    assert_eq!(degree_of(&graph, 1), 3);
    assert_eq!(degree_of(&graph, 2), 3);
    assert_eq!(degree_of(&graph, 3), 2);
    assert_eq!(degree_of(&graph, 4), 2);
}

#[test]
fn self_loop_counts_twice_and_parallel_edges_separately() {
    let graph = Graph::new(&vec![(5, 5, 1)]);
    assert_eq!(degree_of(&graph, 5), 2);
    let graph2 = Graph::new(&vec![(1, 2, 1), (1, 2, 2)]);
    assert_eq!(degree_of(&graph2, 1), 2);
    assert_eq!(degree_of(&graph2, 2), 2);
    assert_eq!(bfs(&graph2, 1, 2), Some(1));
}

#[test]
fn bfs_is_symmetric_on_reachable_pairs() {
    let graph = Graph::new(&vec![(1, 2, 0), (2, 3, 0), (3, 4, 0), (10, 11, 0)]);
    let pairs = [(1, 4), (1, 3), (2, 4), (10, 11), (1, 10)];
    for &(a, b) in &pairs {
        assert_eq!(bfs(&graph, a, b), bfs(&graph, b, a));
    }
    assert_eq!(bfs(&graph, 1, 4), Some(3));
}

#[test]
fn bfs_from_a_vertex_to_itself_is_zero() {
    let graph = Graph::new(&vec![(1, 2, 0)]);
    assert_eq!(bfs(&graph, 1, 1), Some(0));
    assert_eq!(bfs(&graph, 2, 2), Some(0));
    let empty = Graph::new(&vec![]);
    assert_eq!(bfs(&empty, 7, 7), Some(0));
}

#[test]
fn bfs_between_disconnected_vertices_is_absent() {
    let graph = Graph::new(&vec![(1, 2, 0), (3, 4, 0)]);
    assert_eq!(bfs(&graph, 1, 3), None);
    assert_eq!(bfs(&graph, 2, 4), None);
    assert_eq!(bfs(&graph, 1, 9), None);
    assert_eq!(bfs(&graph, 9, 1), None);
}

#[test]
fn degree_distribution_scenario() {
    let edges = vec![(1, 2, 10), (1, 3, 20), (1, 4, 30), (2, 3, 40), (2, 4, 50)];
    let graph = Graph::new(&edges);
    let distribution = degree_distribution(&graph);
    assert_eq!(distribution.len(), 2);
    assert_eq!(count_of(&distribution, 3), 2);
    assert_eq!(count_of(&distribution, 2), 2);
}

#[test]
fn star_scenario_degrees_and_distances() {
    let edges = vec![(10, 11, 5), (10, 12, 5), (10, 13, 5), (10, 14, 5), (10, 15, 5)];
    let graph = Graph::new(&edges);
    assert_eq!(degree_of(&graph, 10), 5);
    assert_eq!(bfs(&graph, 10, 15), Some(1));
    assert_eq!(bfs(&graph, 11, 12), Some(2));
    let distribution = degree_distribution(&graph);
    assert_eq!(count_of(&distribution, 5), 1);
    assert_eq!(count_of(&distribution, 1), 5);
}

#[test]
fn degree_distribution_sums_to_vertex_count() {
    let edges = vec![(1, 2, 1), (2, 3, 1), (3, 3, 1), (4, 1, 1), (5, 6, 1), (1, 2, 1)];
    let graph = Graph::new(&edges);
    let vertex_count = graph.vertex_list().len();
    let distribution = degree_distribution(&graph);
    let total: usize = distribution.iter().map(|&(_, c)| c).sum();
    assert_eq!(total, vertex_count);
    assert_eq!(vertex_count, 6);
}

#[test]
fn empty_graph_has_empty_statistics() {
    let graph = Graph::new(&vec![]);
    assert_eq!(graph.vertex_list().len(), 0);
    assert_eq!(degree_distribution(&graph).len(), 0);
    assert_eq!(bfs(&graph, 1, 2), None);
}
