use dag_stats::{parse_database, parse_node, InfraError, Transaction};

fn sorted_nodes(graph: &dag_stats::Graph) -> Vec<(&u32, &Transaction)> {
    let mut sorted_nodes = graph.nodes.iter().collect::<Vec<(&u32, &Transaction)>>();
    sorted_nodes.sort_by_key(|(&key, _)| key);
    sorted_nodes
}

#[test]
fn should_load_all_database_file() {
    let input_content: &str = "5\n1 1 0\n1 2 0\n2 2 1\n3 3 2\n3 4 3";
    let graph = parse_database(input_content.as_bytes()).unwrap();
    assert_eq!(6, sorted_nodes(&graph).len());
}

#[test]
fn should_load_a_node_from_database_file() {
    let input_content: &str = "1\n1 1 0";
    let graph = parse_database(input_content.as_bytes()).unwrap();
    let sorted_nodes = sorted_nodes(&graph);
    assert_eq!(2, sorted_nodes.len());
    assert_eq!(2, *sorted_nodes.get(1).unwrap().0);
    assert_eq!(Some((1, 1)), (*sorted_nodes.get(1).unwrap().1).parents);
    assert_eq!(2, (*sorted_nodes.get(1).unwrap().1).id);
    assert_eq!(0, (*sorted_nodes.get(1).unwrap().1).timestamp);
}

#[test]
fn should_fail_parse_num_lines() {
    let input_content: &str = "xx\n1 1 0";
    assert_eq!(
        Err(InfraError::ParseGraph("first line was not parsed".to_string())),
        parse_database(input_content.as_bytes()).map(|_| ())
    );
}

#[test]
fn should_fail_parse_nodes() {
    let input_content: &str = "1\n1 x";
    assert_eq!(
        Err(InfraError::ParseTransaction),
        parse_database(input_content.as_bytes()).map(|_| ())
    );
}

#[test]
fn crlf_line_endings_and_final_newline_are_accepted() {
    let graph = parse_database(b"2\r\n1 1 7\r\n2 1 3\r\n").unwrap();
    assert_eq!(3, graph.nodes.len());
    assert_eq!(7, graph.nodes[&2].timestamp);
    assert_eq!(Some((2, 1)), graph.nodes[&3].parents);
}

#[test]
fn count_line_value_is_not_used() {
    let graph = parse_database(b"+99\n1 1 0").unwrap();
    assert_eq!(2, graph.nodes.len());
    assert_eq!(2, graph.num_nodes);
}

#[test]
fn empty_dataset_gives_only_the_root() {
    let graph = parse_database(b"").unwrap();
    assert_eq!(1, graph.nodes.len());
}

#[test]
fn empty_line_is_a_malformed_transaction() {
    assert_eq!(
        Err(InfraError::ParseTransaction),
        parse_database(b"1\n1 1 0\n\n").map(|_| ())
    );
}

#[test]
fn unknown_parent_fails_the_whole_load() {
    assert_eq!(
        Err(InfraError::ParseGraph("impossible add node in the graph".to_string())),
        parse_database(b"2\n1 1 0\n5 1 0").map(|_| ())
    );
}

#[test]
fn first_line_checked_before_transactions() {
    assert_eq!(
        Err(InfraError::ParseGraph("first line was not parsed".to_string())),
        parse_database(b"-1\n1 x").map(|_| ())
    );
}

#[test]
fn parse_node_reads_three_decimals() {
    assert_eq!(Ok((12, 7, 4294967295)), parse_node(b"12 7 4294967295"));
    assert_eq!(Ok((1, 2, 3)), parse_node(b"+1 2 +3"));
}

#[test]
fn parse_node_rejects_malformed_lines() {
    assert_eq!(Err(InfraError::ParseTransaction), parse_node(b"1 2"));
    assert_eq!(Err(InfraError::ParseTransaction), parse_node(b"1 2 3 4"));
    assert_eq!(Err(InfraError::ParseTransaction), parse_node(b"1  2 3"));
    assert_eq!(Err(InfraError::ParseTransaction), parse_node(b"1 2 3 "));
    assert_eq!(Err(InfraError::ParseTransaction), parse_node(b"1 2 4294967296"));
    assert_eq!(Err(InfraError::ParseTransaction), parse_node(b"1 -2 3"));
    assert_eq!(Err(InfraError::ParseTransaction), parse_node(b"1 + 3"));
    assert_eq!(Err(InfraError::ParseTransaction), parse_node(b""));
}
