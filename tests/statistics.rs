use dag_stats::statistics::stats;
use dag_stats::{Graph, Ratio, Statistics};

const TEST: [(u32, u32, u32); 5] = [(1, 1, 0), (1, 2, 0), (2, 2, 1), (3, 3, 2), (3, 4, 3)];

const TEST_2: [(u32, u32, u32); 4] = [(1, 1, 0), (2, 2, 0), (3, 3, 1), (4, 4, 2)];

const TEST_3: [(u32, u32, u32); 8] = [
    (1, 1, 0),
    (2, 2, 5),
    (3, 3, 9),
    (4, 4, 12),
    (1, 1, 22),
    (2, 2, 14),
    (3, 3, 41),
    (4, 4, 28),
];

fn value(r: Ratio) -> f64 {
    r.numerator as f64 / r.denominator as f64
}

fn close(expected: f64, actual: f64) -> bool {
    (expected - actual).abs() <= 0.01
}

#[test]
fn should_calculate_average_depth() {
    let graph = Graph::try_from(TEST.to_vec()).unwrap();
    let average_depth = graph.average_depth();
    assert!(close(1.33, value(average_depth)));
}

#[test]
fn should_calculate_number_of_nodes_by_depth() {
    let graph = Graph::try_from(TEST.to_vec()).unwrap();
    let nodes_by_depth = graph.average_nodes_by_depth();
    assert_eq!(2.5, value(nodes_by_depth));
}

#[test]
fn should_calculate_in_percentages() {
    let graph = Graph::try_from(TEST.to_vec()).unwrap();
    let avrg_in_references = graph.average_in_references();
    assert!(close(1.66, value(avrg_in_references)));
}

#[test]
fn should_calculate_stats_test() {
    let graph = Graph::try_from(TEST.to_vec()).unwrap();
    let stats: Statistics = stats(&graph);
    assert!(close(1.33, value(stats.average_depth)));
    assert_eq!(2.5, value(stats.average_nodes_by_depth));
    assert!(close(1.66, value(stats.average_in_references)));
    assert_eq!(6, stats.last_transaction);
    assert_eq!(1, stats.most_referenced_transaction);
}

#[test]
fn should_calculate_stats_test_2() {
    let graph = Graph::try_from(TEST_2.to_vec()).unwrap();
    let stats: Statistics = stats(&graph);
    assert_eq!(2.0, value(stats.average_depth));
    assert_eq!(1.0, value(stats.average_nodes_by_depth));
    assert_eq!(1.6, value(stats.average_in_references));
    assert_eq!(5, stats.last_transaction);
    assert_eq!(1, stats.most_referenced_transaction);
}

#[test]
fn should_calculate_stats_timestamp() {
    let graph = Graph::try_from(TEST_3.to_vec()).unwrap();
    let range_timestamps: Vec<(u32, u64)> = stats(&graph).range_timestamps;
    assert_eq!(
        range_timestamps,
        vec![
            (0 as u32, 4 as u64),
            (1 as u32, 2 as u64),
            (2 as u32, 2 as u64),
            (4 as u32, 1 as u64)
        ]
    );
}

#[test]
fn averages_are_exact_fractions() {
    let graph = Graph::try_from(TEST.to_vec()).unwrap();
    assert_eq!(Ratio { numerator: 8, denominator: 6 }, graph.average_depth());
    assert_eq!(Ratio { numerator: 5, denominator: 2 }, graph.average_nodes_by_depth());
    assert_eq!(Ratio { numerator: 10, denominator: 6 }, graph.average_in_references());
}

#[test]
fn averages_divide_by_declared_capacity() {
    let mut graph = Graph::with_capacity(3);
    let mut node = dag_stats::Transaction::new(2, 1, 1, 0);
    graph.add_node(&mut node).unwrap();
    assert_eq!(Ratio { numerator: 1, denominator: 4 }, graph.average_depth());
    assert_eq!(Ratio { numerator: 2, denominator: 4 }, graph.average_in_references());
}

#[test]
fn root_only_graph_has_degenerate_statistics() {
    let graph = Graph::with_capacity(0);
    let stats = stats(&graph);
    assert_eq!(Ratio { numerator: 0, denominator: 1 }, stats.average_depth);
    assert_eq!(Ratio { numerator: 0, denominator: 0 }, stats.average_nodes_by_depth);
    assert_eq!(Ratio { numerator: 0, denominator: 1 }, stats.average_in_references);
    assert_eq!(0, stats.last_transaction);
    assert_eq!(0, stats.most_referenced_transaction);
    assert_eq!(vec![(0, 1)], stats.range_timestamps);
}

#[test]
fn histogram_skips_empty_buckets_and_counts_the_root() {
    let graph =
        Graph::try_from(vec![(1, 1, 95), (2, 2, 3), (1, 2, 99), (1, 1, 4_000_000_000)]).unwrap();
    assert_eq!(vec![(0, 2), (9, 2), (400_000_000, 1)], graph.range_timestamps());
}

#[test]
fn statistics_are_reproducible() {
    let graph = Graph::try_from(TEST_3.to_vec()).unwrap();
    let first = stats(&graph);
    let second = stats(&graph);
    assert_eq!(first, second);
    assert_eq!(value(first.average_depth).to_bits(), value(second.average_depth).to_bits());
}
