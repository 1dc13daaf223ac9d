use graph_engine::{
    compute_topological_sort, dependency_order, topological_sort, Adjacency, Edge, Graph,
};

fn graph_of(nodes: &[&str], edges: &[(&str, &str)]) -> Graph<f64> {
    Graph {
        nodes: nodes.iter().map(|n| n.to_string()).collect(),
        edges: edges
            .iter()
            .map(|(a, b)| Edge { from: a.to_string(), to: b.to_string(), weight: None })
            .collect(),
    }
}

fn names(items: &[&str]) -> Vec<String> {
    items.iter().map(|n| n.to_string()).collect()
}

#[test]
fn test_compute_topological_sort_linear() {
    let graph = Graph {
        nodes: vec!["A".to_string(), "B".to_string(), "C".to_string()],
        edges: vec![
            Edge { from: "A".to_string(), to: "B".to_string(), weight: None::<f64> },
            Edge { from: "B".to_string(), to: "C".to_string(), weight: None },
        ],
    };

    let result = compute_topological_sort(&graph);
    assert!(!result.has_cycle);
    assert_eq!(result.sorted.len(), 3);
    // A should come before B, B before C
    let a_pos = result.sorted.iter().position(|x| x == "A").unwrap();
    let b_pos = result.sorted.iter().position(|x| x == "B").unwrap();
    let c_pos = result.sorted.iter().position(|x| x == "C").unwrap();
    assert!(a_pos < b_pos);
    assert!(b_pos < c_pos);
}

#[test]
fn test_compute_topological_sort_with_cycle() {
    let graph = Graph {
        nodes: vec!["A".to_string(), "B".to_string()],
        edges: vec![
            Edge { from: "A".to_string(), to: "B".to_string(), weight: None::<f64> },
            Edge { from: "B".to_string(), to: "A".to_string(), weight: None },
        ],
    };

    let result = compute_topological_sort(&graph);
    assert!(result.has_cycle);
}

#[test]
fn test_topological_sort() {
    let graph = Graph {
        nodes: vec!["A".to_string(), "B".to_string(), "C".to_string()],
        edges: vec![
            Edge { from: "A".to_string(), to: "B".to_string(), weight: None::<f64> },
            Edge { from: "B".to_string(), to: "C".to_string(), weight: None },
        ],
    };

    let parsed = topological_sort(Some(&graph));

    assert!(!parsed.has_cycle);
    assert_eq!(parsed.sorted.len(), 3);
}

#[test]
fn topological_sort_without_input_reports_a_cycle() {
    let result = topological_sort(None::<&Graph<f64>>);
    assert!(result.sorted.is_empty());
    assert!(result.has_cycle);
}

#[test]
fn chain_is_sorted_in_its_own_order() {
    let result = compute_topological_sort(&graph_of(&["A", "B", "C"], &[("A", "B"), ("B", "C")]));
    assert_eq!(result.sorted, names(&["A", "B", "C"]));
    assert!(!result.has_cycle);
}

#[test]
fn chain_declared_backwards_is_sorted_forwards() {
    let result = compute_topological_sort(&graph_of(&["C", "B", "A"], &[("A", "B"), ("B", "C")]));
    assert_eq!(result.sorted, names(&["A", "B", "C"]));
    assert!(!result.has_cycle);
}

#[test]
fn two_node_cycle_sorts_nothing() {
    let result = compute_topological_sort(&graph_of(&["A", "B"], &[("A", "B"), ("B", "A")]));
    assert!(result.has_cycle);
    assert!(result.sorted.len() < 2);
    assert!(result.sorted.is_empty());
}

#[test]
fn nodes_without_edges_keep_the_order_of_declaration() {
    let result = compute_topological_sort(&graph_of(&["B", "A", "C"], &[]));
    assert_eq!(result.sorted, names(&["B", "A", "C"]));
    assert!(!result.has_cycle);
}

#[test]
fn nodes_become_ready_in_the_order_of_their_last_edge() {
    let result = compute_topological_sort(&graph_of(
        &["D", "C", "B", "A"],
        &[("A", "B"), ("A", "C"), ("B", "D"), ("C", "D")],
    ));
    assert_eq!(result.sorted, names(&["A", "B", "C", "D"]));
    assert!(!result.has_cycle);
}

#[test]
fn all_starting_nodes_come_before_what_depends_on_them() {
    let result = compute_topological_sort(&graph_of(
        &["A", "B", "C", "D"],
        &[("A", "B"), ("C", "D")],
    ));
    assert_eq!(result.sorted, names(&["A", "C", "B", "D"]));
    assert!(!result.has_cycle);
}

#[test]
fn every_edge_runs_forwards_in_an_acyclic_graph() {
    let graph = graph_of(
        &["E", "D", "C", "B", "A"],
        &[("A", "B"), ("A", "C"), ("B", "D"), ("C", "D"), ("D", "E"), ("A", "E")],
    );
    let result = compute_topological_sort(&graph);
    assert!(!result.has_cycle);
    let mut listed = result.sorted.clone();
    listed.sort();
    assert_eq!(listed, names(&["A", "B", "C", "D", "E"]));
    for edge in &graph.edges {
        let from = result.sorted.iter().position(|x| *x == edge.from).unwrap();
        let to = result.sorted.iter().position(|x| *x == edge.to).unwrap();
        assert!(from < to);
    }
}

#[test]
fn what_hangs_on_a_cycle_is_left_out() {
    let result = compute_topological_sort(&graph_of(
        &["A", "B", "C", "D"],
        &[("A", "B"), ("B", "C"), ("C", "B"), ("C", "D")],
    ));
    assert_eq!(result.sorted, names(&["A"]));
    assert!(result.has_cycle);
}

#[test]
fn self_loop_leaves_its_node_out() {
    let result = compute_topological_sort(&graph_of(&["A", "B"], &[("A", "A")]));
    assert_eq!(result.sorted, names(&["B"]));
    assert!(result.has_cycle);
}

#[test]
fn parallel_edges_are_counted_one_by_one() {
    let result = compute_topological_sort(&graph_of(&["A", "B"], &[("A", "B"), ("A", "B")]));
    assert_eq!(result.sorted, names(&["A", "B"]));
    assert!(!result.has_cycle);
}

#[test]
fn repeated_declaration_sets_the_cycle_flag() {
    let result = compute_topological_sort(&graph_of(&["A", "A", "B"], &[("A", "B")]));
    assert_eq!(result.sorted, names(&["A", "B"]));
    assert!(result.has_cycle);
}

#[test]
fn undeclared_target_is_sorted() {
    let result = compute_topological_sort(&graph_of(&["A"], &[("A", "X")]));
    assert_eq!(result.sorted, names(&["A", "X"]));
    assert!(!result.has_cycle);
}

#[test]
fn undeclared_source_holds_its_target_back() {
    let result = compute_topological_sort(&graph_of(&["B"], &[("X", "B")]));
    assert!(result.sorted.is_empty());
    assert!(result.has_cycle);
}

#[test]
fn order_flag_is_the_same_on_every_run() {
    let graph = graph_of(&["A", "B", "C"], &[("A", "B"), ("B", "C"), ("C", "B")]);
    let first = compute_topological_sort(&graph);
    let second = compute_topological_sort(&graph);
    assert_eq!(first.has_cycle, second.has_cycle);
    assert_eq!(first.sorted, second.sorted);
}

#[test]
fn empty_graph_sorts_to_nothing() {
    let result = compute_topological_sort(&graph_of(&[], &[]));
    assert!(result.sorted.is_empty());
    assert!(!result.has_cycle);
}

#[test]
fn dependency_order_numbers_the_vertices() {
    let adjacency = Adjacency::build(&graph_of(&["C", "B", "A"], &[("A", "B"), ("B", "C")]));
    assert_eq!(dependency_order(&adjacency), vec![2, 1, 0]);
}
