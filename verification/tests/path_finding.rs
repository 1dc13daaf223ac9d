use graph_engine::{breadth_first_search, find_path, find_path_between_nodes, Adjacency, Edge, Graph};

fn graph_of(nodes: &[&str], edges: &[(&str, &str, Option<f64>)]) -> Graph<f64> {
    Graph {
        nodes: nodes.iter().map(|n| n.to_string()).collect(),
        edges: edges
            .iter()
            .map(|(a, b, w)| Edge { from: a.to_string(), to: b.to_string(), weight: *w })
            .collect(),
    }
}

fn distance(graph: &Graph<f64>, hops: &[usize]) -> f64 {
    hops.iter().fold(0.0, |sum, &e| sum + graph.edges[e].weight.unwrap_or(1.0))
}

#[test]
fn test_find_path_exists() {
    let graph = Graph {
        nodes: vec!["A".to_string(), "B".to_string(), "C".to_string()],
        edges: vec![
            Edge { from: "A".to_string(), to: "B".to_string(), weight: Some(1.0) },
            Edge { from: "B".to_string(), to: "C".to_string(), weight: Some(1.0) },
        ],
    };

    let result = find_path_between_nodes(&graph, "A", "C");
    assert!(result.exists);
    assert_eq!(result.path.len(), 3);
    assert_eq!(result.path[0], "A");
    assert_eq!(result.path[2], "C");
}

#[test]
fn test_find_path_not_exists() {
    let graph = Graph {
        nodes: vec!["A".to_string(), "B".to_string(), "C".to_string()],
        edges: vec![Edge { from: "A".to_string(), to: "B".to_string(), weight: None::<f64> }],
    };

    let result = find_path_between_nodes(&graph, "A", "C");
    assert!(!result.exists);
}

#[test]
fn test_find_path_same_node() {
    let graph: Graph<f64> = Graph { nodes: vec!["A".to_string()], edges: vec![] };

    let result = find_path_between_nodes(&graph, "A", "A");
    assert!(result.exists);
    assert_eq!(result.path, vec!["A"]);
}

#[test]
fn find_path_without_input_reports_none() {
    let result = find_path(None::<&Graph<f64>>, "A", "A");
    assert!(!result.exists);
    assert!(result.path.is_empty());
    assert!(result.hops.is_empty());
}

#[test]
fn find_path_with_input_searches_the_graph() {
    let graph = graph_of(&["A", "B"], &[("A", "B", None)]);
    let result = find_path(Some(&graph), "A", "B");
    assert!(result.exists);
    assert_eq!(result.path, vec!["A", "B"]);
    assert_eq!(result.hops, vec![0]);
}

#[test]
fn path_along_a_chain_adds_up_the_weights() {
    let graph = graph_of(&["A", "B", "C"], &[("A", "B", Some(1.0)), ("B", "C", Some(1.0))]);
    let result = find_path_between_nodes(&graph, "A", "C");
    assert!(result.exists);
    assert_eq!(result.path, vec!["A", "B", "C"]);
    assert_eq!(result.hops, vec![0, 1]);
    assert_eq!(distance(&graph, &result.hops), 2.0);
}

#[test]
fn missing_edge_means_no_path() {
    let graph = graph_of(&["A", "B", "C"], &[("A", "B", None)]);
    let result = find_path_between_nodes(&graph, "A", "C");
    assert!(!result.exists);
    assert!(result.path.is_empty());
    assert!(result.hops.is_empty());
}

#[test]
fn edges_are_not_followed_backwards() {
    let graph = graph_of(&["A", "B"], &[("A", "B", None)]);
    let result = find_path_between_nodes(&graph, "B", "A");
    assert!(!result.exists);
    assert!(result.path.is_empty());
}

#[test]
fn a_node_is_a_path_to_itself() {
    let graph = graph_of(&["A", "B"], &[("A", "B", Some(4.0)), ("B", "A", Some(4.0))]);
    let result = find_path_between_nodes(&graph, "A", "A");
    assert!(result.exists);
    assert_eq!(result.path, vec!["A"]);
    assert!(result.hops.is_empty());
    assert_eq!(distance(&graph, &result.hops), 0.0);
}

#[test]
fn a_node_that_the_graph_does_not_mention_is_a_path_to_itself() {
    let graph = graph_of(&["A"], &[]);
    let result = find_path_between_nodes(&graph, "Z", "Z");
    assert!(result.exists);
    assert_eq!(result.path, vec!["Z"]);
}

#[test]
fn fewest_edges_win_over_least_weight() {
    let graph = graph_of(
        &["A", "B", "C"],
        &[("A", "B", Some(1.0)), ("B", "C", Some(1.0)), ("A", "C", Some(10.0))],
    );
    let result = find_path_between_nodes(&graph, "A", "C");
    assert!(result.exists);
    assert_eq!(result.path, vec!["A", "C"]);
    assert_eq!(result.hops, vec![2]);
    assert_eq!(distance(&graph, &result.hops), 10.0);
}

#[test]
fn an_edge_without_weight_counts_as_one() {
    let graph = graph_of(&["A", "B", "C"], &[("A", "B", None), ("B", "C", Some(0.5))]);
    let result = find_path_between_nodes(&graph, "A", "C");
    assert_eq!(result.hops, vec![0, 1]);
    assert_eq!(distance(&graph, &result.hops), 1.5);
}

#[test]
fn among_paths_of_equal_length_the_earlier_edges_win() {
    let graph = graph_of(
        &["A", "B", "C", "D"],
        &[("A", "C", Some(5.0)), ("A", "B", Some(1.0)), ("B", "D", Some(1.0)), ("C", "D", Some(5.0))],
    );
    let result = find_path_between_nodes(&graph, "A", "D");
    assert_eq!(result.path, vec!["A", "C", "D"]);
    assert_eq!(result.hops, vec![0, 3]);
    assert_eq!(distance(&graph, &result.hops), 10.0);
}

#[test]
fn of_parallel_edges_the_first_is_taken() {
    let graph = graph_of(&["A", "B"], &[("A", "B", Some(3.0)), ("A", "B", Some(1.0))]);
    let result = find_path_between_nodes(&graph, "A", "B");
    assert_eq!(result.hops, vec![0]);
    assert_eq!(distance(&graph, &result.hops), 3.0);
}

#[test]
fn paths_run_through_undeclared_nodes() {
    let graph = graph_of(&["A"], &[("A", "X", None), ("X", "Y", None)]);
    let result = find_path_between_nodes(&graph, "A", "Y");
    assert!(result.exists);
    assert_eq!(result.path, vec!["A", "X", "Y"]);
    let back = find_path_between_nodes(&graph, "X", "Y");
    assert_eq!(back.path, vec!["X", "Y"]);
}

#[test]
fn unknown_endpoints_have_no_path() {
    let graph = graph_of(&["A", "B"], &[("A", "B", None)]);
    assert!(!find_path_between_nodes(&graph, "A", "Z").exists);
    assert!(!find_path_between_nodes(&graph, "Z", "A").exists);
}

#[test]
fn a_cycle_does_not_trap_the_search() {
    let graph = graph_of(
        &["A", "B", "C", "D"],
        &[("A", "B", None), ("B", "A", None), ("B", "C", None), ("C", "D", None)],
    );
    let result = find_path_between_nodes(&graph, "A", "D");
    assert_eq!(result.path, vec!["A", "B", "C", "D"]);
    assert_eq!(result.hops, vec![0, 2, 3]);
}

#[test]
fn path_flag_is_the_same_on_every_run() {
    let graph = graph_of(&["A", "B", "C"], &[("A", "B", None), ("B", "C", None)]);
    let first = find_path_between_nodes(&graph, "A", "C");
    let second = find_path_between_nodes(&graph, "A", "C");
    assert_eq!(first.exists, second.exists);
    assert_eq!(first.path, second.path);
}

#[test]
fn breadth_first_search_numbers_the_edges() {
    let graph = graph_of(
        &["A", "B", "C"],
        &[("A", "B", None), ("B", "C", None), ("A", "C", None)],
    );
    let adjacency = Adjacency::build(&graph);
    assert_eq!(breadth_first_search(&adjacency, 0, 2), Some(vec![2]));
    assert_eq!(breadth_first_search(&adjacency, 0, 1), Some(vec![0]));
    assert_eq!(breadth_first_search(&adjacency, 2, 0), None);
    assert_eq!(breadth_first_search(&adjacency, 1, 1), Some(vec![]));
}
