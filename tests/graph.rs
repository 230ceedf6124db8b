use dag_stats::graph::GraphError;
use dag_stats::{Graph, Node, Transaction, TransactionMetrics};

const TEST: [(u32, u32, u32); 5] = [(1, 1, 0), (1, 2, 0), (2, 2, 1), (3, 3, 2), (3, 4, 3)];

fn sorted_ids(graph: &Graph) -> Vec<u32> {
    let mut ids = graph.nodes.keys().copied().collect::<Vec<u32>>();
    ids.sort();
    ids
}

#[test]
fn graph_should_create_a_new_graph_with_new_element() {
    let graph = Graph::with_capacity(0);
    assert_eq!(1, graph.nodes.len());
    assert_eq!(1, *graph.nodes.keys().next().expect("Key not found"));
}

#[test]
fn graph_should_create_a_simple_graph() {
    let mut graph = Graph::with_capacity(2);
    let mut node = Transaction::new(2, 1, 1, 0);
    graph.add_node(&mut node).unwrap();
    let mut ids = graph.nodes.keys().collect::<Vec<&u32>>();
    ids.sort();
    assert_eq!(2, ids.len());
    assert_eq!(vec![&(1 as u32), &(2 as u32)], ids);
}

#[test]
fn lib_should_create_a_new_graph_with_new_element() {
    let graph = Graph::with_capacity(0);
    assert_eq!(1, graph.nodes.len());
    assert_eq!(1, *graph.nodes.keys().next().expect("Key not found"));
}

#[test]
fn lib_should_create_a_simple_graph() {
    let mut graph = Graph::with_capacity(2);
    let mut node = Node::new(2, 1, 1, 0);
    graph.add_node(&mut node).unwrap();
    let mut ids = graph.nodes.keys().collect::<Vec<&u32>>();
    ids.sort();
    assert_eq!(2, ids.len());
    assert_eq!(vec![&(1 as u32), &(2 as u32)], ids);
}

#[test]
fn should_create_a_graph_correctly() {
    let graph = Graph::try_from(TEST.to_vec()).unwrap();
    println!("{:?}", graph);
}

#[test]
fn batch_gives_root_plus_one_node_per_tuple() {
    let graph = Graph::try_from(TEST.to_vec()).unwrap();
    assert_eq!(6, graph.nodes.len());
    assert_eq!(vec![1, 2, 3, 4, 5, 6], sorted_ids(&graph));
    assert_eq!(vec![1, 2, 3, 4, 5, 6], graph.order);
    assert_eq!(6, graph.num_nodes);
}

#[test]
fn empty_batch_gives_only_the_root() {
    let graph = Graph::try_from(Vec::new()).unwrap();
    assert_eq!(1, graph.nodes.len());
    assert_eq!(0, graph.metrics.last_transaction);
    assert_eq!(0, graph.metrics.most_in_reference_transaction);
}

#[test]
fn batch_stops_at_first_unknown_parent() {
    let result = Graph::try_from(vec![(1, 1, 0), (7, 1, 0), (9, 9, 0)]);
    assert_eq!(GraphError::ParentNotFound, result.unwrap_err());
}

#[test]
fn duplicate_identifier_leaves_graph_unchanged() {
    let mut graph = Graph::try_from(TEST.to_vec()).unwrap();
    let before_nodes = graph.nodes.clone();
    let before_metrics = graph.metrics;
    let mut node = Transaction::new(3, 1, 1, 99);
    assert_eq!(Err(GraphError::DuplicatedIdFound(3)), graph.add_node(&mut node));
    assert_eq!(before_nodes, graph.nodes);
    assert_eq!(before_metrics, graph.metrics);
    assert_eq!(Transaction::new(3, 1, 1, 99), node);
}

#[test]
fn unknown_parent_leaves_graph_unchanged() {
    let mut graph = Graph::try_from(TEST.to_vec()).unwrap();
    let before_nodes = graph.nodes.clone();
    let mut node = Transaction::new(7, 1, 42, 5);
    assert_eq!(Err(GraphError::ParentNotFound), graph.add_node(&mut node));
    assert_eq!(before_nodes, graph.nodes);
    assert_eq!(6, graph.order.len());
}

#[test]
fn missing_parents_are_rejected() {
    let mut graph = Graph::with_capacity(1);
    let mut node = Transaction {
        id: 2,
        timestamp: 0,
        parents: None,
        metrics: TransactionMetrics { depth: 0, in_reference: 0 },
    };
    assert_eq!(Err(GraphError::ParentNotSpecified), graph.add_node(&mut node));
    assert_eq!(1, graph.nodes.len());
}

#[test]
fn duplicate_is_checked_before_missing_parents() {
    let mut graph = Graph::with_capacity(1);
    let mut node = Transaction {
        id: 1,
        timestamp: 0,
        parents: None,
        metrics: TransactionMetrics { depth: 0, in_reference: 0 },
    };
    assert_eq!(Err(GraphError::DuplicatedIdFound(1)), graph.add_node(&mut node));
}

#[test]
fn depth_is_one_more_than_shallower_parent() {
    let graph = Graph::try_from(TEST.to_vec()).unwrap();
    let depths: Vec<u32> = (1..=6).map(|id| graph.nodes[&id].metrics.depth).collect();
    assert_eq!(vec![0, 1, 1, 2, 2, 2], depths);
}

#[test]
fn inserted_node_gets_depth_and_no_references() {
    let mut graph = Graph::with_capacity(1);
    let mut node = Transaction {
        id: 2,
        timestamp: 4,
        parents: Some((1, 1)),
        metrics: TransactionMetrics { depth: 9, in_reference: 9 },
    };
    graph.add_node(&mut node).unwrap();
    assert_eq!(TransactionMetrics { depth: 1, in_reference: 0 }, node.metrics);
    assert_eq!(node, graph.nodes[&2]);
}

#[test]
fn depth_does_not_change_after_later_insertions() {
    let mut graph = Graph::try_from(TEST.to_vec()).unwrap();
    let before: Vec<u32> = (1..=6).map(|id| graph.nodes[&id].metrics.depth).collect();
    let mut node = Transaction::new(7, 6, 6, 10);
    graph.add_node(&mut node).unwrap();
    let after: Vec<u32> = (1..=6).map(|id| graph.nodes[&id].metrics.depth).collect();
    assert_eq!(before, after);
    assert_eq!(3, graph.nodes[&7].metrics.depth);
}

#[test]
fn in_reference_counts_every_parent_slot() {
    let graph = Graph::try_from(TEST.to_vec()).unwrap();
    let refs: Vec<u32> = (1..=6).map(|id| graph.nodes[&id].metrics.in_reference).collect();
    assert_eq!(vec![3, 3, 3, 1, 0, 0], refs);
}

#[test]
fn self_referential_parents_count_twice() {
    let mut graph = Graph::with_capacity(1);
    let mut node = Transaction::new(2, 1, 1, 0);
    graph.add_node(&mut node).unwrap();
    assert_eq!(2, graph.nodes[&1].metrics.in_reference);
}

#[test]
fn last_transaction_first_inserted_wins_ties() {
    let graph = Graph::try_from(vec![(1, 1, 5), (1, 1, 9), (1, 1, 9), (1, 1, 3)]).unwrap();
    assert_eq!(3, graph.metrics.last_transaction);
}

#[test]
fn first_insertion_is_last_transaction_even_at_zero() {
    let graph = Graph::try_from(vec![(1, 1, 0)]).unwrap();
    assert_eq!(2, graph.metrics.last_transaction);
}

#[test]
fn most_referenced_is_not_overwritten_by_ties() {
    // 3 reaches the count of 2 later, so 2 stays the holder.
    let graph = Graph::try_from(vec![(1, 1, 0), (1, 1, 0), (2, 2, 0), (3, 3, 0)]).unwrap();
    assert_eq!(1, graph.metrics.most_in_reference_transaction);
    let graph = Graph::try_from(vec![(1, 1, 0), (2, 2, 0), (2, 3, 0), (3, 3, 0)]).unwrap();
    assert_eq!(3, graph.nodes[&2].metrics.in_reference);
    assert_eq!(3, graph.nodes[&3].metrics.in_reference);
    assert_eq!(2, graph.metrics.most_in_reference_transaction);
}

#[test]
fn most_referenced_tie_between_both_parents_keeps_holder() {
    // Before the last insertion 1 and 2 both have two references and 1 holds;
    // the last node cites 2 then 1, both reach three, and 1 stays the holder.
    let graph = Graph::try_from(vec![(1, 1, 0), (2, 2, 0), (2, 1, 0)]).unwrap();
    assert_eq!(3, graph.nodes[&1].metrics.in_reference);
    assert_eq!(3, graph.nodes[&2].metrics.in_reference);
    assert_eq!(1, graph.metrics.most_in_reference_transaction);
}

#[test]
fn most_referenced_strictly_greater_takes_over() {
    let graph = Graph::try_from(vec![(1, 1, 0), (2, 2, 0), (2, 2, 0)]).unwrap();
    assert_eq!(4, graph.nodes[&2].metrics.in_reference);
    assert_eq!(2, graph.metrics.most_in_reference_transaction);
}
