use trust_graph::Graph;
use trust_graph::sampling::accumulate_pair;
use trust_graph::sampling::sample_distance_totals;

/// The average that the totals stand for, zero when no pair was valid.
fn average_of(totals: (u128, usize)) -> f64 {
    let (total, valid) = totals;
    if valid > 0 {
        total as f64 / valid as f64
    } else {
        0.0
    }
}

#[test]
fn average_distance_is_zero_without_two_vertices() {
    let empty = Graph::new(&vec![]);
    assert_eq!(sample_distance_totals(&empty, 10), (0, 0));
    assert_eq!(average_of(sample_distance_totals(&empty, 10)), 0.0);
    let single = Graph::new(&vec![(9, 9, 1)]);
    assert_eq!(single.vertex_list().len(), 1);
    assert_eq!(sample_distance_totals(&single, 10), (0, 0));
    assert_eq!(average_of(sample_distance_totals(&single, 10)), 0.0);
}

#[test]
fn average_distance_is_zero_without_samples() {
    let edges = vec![(1, 2, 10), (1, 3, 20), (1, 4, 30), (2, 3, 40), (2, 4, 50)];
    let graph = Graph::new(&edges);
    assert_eq!(sample_distance_totals(&graph, 0), (0, 0));
    assert_eq!(average_of(sample_distance_totals(&graph, 0)), 0.0);
}

#[test]
fn sampling_a_two_vertex_graph_counts_unit_distances() {
    let graph = Graph::new(&vec![(1, 2, 7)]);
    let (total, valid) = sample_distance_totals(&graph, 50);
    assert!(valid <= 50);
    assert_eq!(total, valid as u128);
    let average = average_of((total, valid));
    assert!(average == 0.0 || average == 1.0);
}

#[test]
fn accumulating_pairs_follows_the_graph() {
    let graph = Graph::new(&vec![(1, 2, 0), (2, 3, 0), (8, 9, 0)]);
    assert_eq!(accumulate_pair(&graph, 1, 1, 0, 0), (0, 0));
    assert_eq!(accumulate_pair(&graph, 1, 3, 0, 0), (2, 1));
    assert_eq!(accumulate_pair(&graph, 1, 8, 5, 2), (5, 2));
    assert_eq!(accumulate_pair(&graph, 2, 3, 10, 4), (11, 5));
}
