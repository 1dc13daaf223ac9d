use graph_engine::{
    detect_cycles, detect_cycles_in_graph, dfs_cycle_detection, find_cycles, Adjacency, Edge,
    Graph,
};

fn link(from: &str, to: &str) -> Edge<f64> {
    Edge { from: from.to_string(), to: to.to_string(), weight: None }
}

fn graph_of(nodes: &[&str], edges: &[(&str, &str)]) -> Graph<f64> {
    Graph {
        nodes: nodes.iter().map(|n| n.to_string()).collect(),
        edges: edges.iter().map(|(a, b)| link(a, b)).collect(),
    }
}

#[test]
fn test_detect_cycles_no_cycle() {
    let graph = Graph {
        nodes: vec!["A".to_string(), "B".to_string(), "C".to_string()],
        edges: vec![
            Edge { from: "A".to_string(), to: "B".to_string(), weight: None::<f64> },
            Edge { from: "B".to_string(), to: "C".to_string(), weight: None },
        ],
    };

    let result = detect_cycles_in_graph(&graph);
    assert!(!result.has_cycle);
}

#[test]
fn test_detect_cycles_with_cycle() {
    let graph = Graph {
        nodes: vec!["A".to_string(), "B".to_string()],
        edges: vec![
            Edge { from: "A".to_string(), to: "B".to_string(), weight: None::<f64> },
            Edge { from: "B".to_string(), to: "A".to_string(), weight: None },
        ],
    };

    let result = detect_cycles_in_graph(&graph);
    assert!(result.has_cycle);
}

#[test]
fn test_detect_cycles() {
    let graph = Graph {
        nodes: vec!["A".to_string(), "B".to_string()],
        edges: vec![
            Edge { from: "A".to_string(), to: "B".to_string(), weight: None::<f64> },
            Edge { from: "B".to_string(), to: "A".to_string(), weight: None },
        ],
    };

    let result = detect_cycles(Some(&graph));

    assert!(result.has_cycle);
}

#[test]
fn detect_cycles_without_input_reports_none() {
    let result = detect_cycles(None::<&Graph<f64>>);
    assert!(!result.has_cycle);
    assert!(result.cycles.is_empty());
}

#[test]
fn two_node_cycle_is_listed_from_its_first_node() {
    let result = detect_cycles_in_graph(&graph_of(&["A", "B"], &[("A", "B"), ("B", "A")]));
    assert!(result.has_cycle);
    assert_eq!(result.cycles, vec![vec!["A".to_string(), "B".to_string()]]);
}

#[test]
fn acyclic_graph_lists_no_cycle() {
    let result =
        detect_cycles_in_graph(&graph_of(&["A", "B", "C"], &[("A", "B"), ("B", "C"), ("A", "C")]));
    assert!(!result.has_cycle);
    assert!(result.cycles.is_empty());
}

#[test]
fn self_loop_is_a_cycle_of_one_node() {
    let result = detect_cycles_in_graph(&graph_of(&["A"], &[("A", "A")]));
    assert!(result.has_cycle);
    assert_eq!(result.cycles, vec![vec!["A".to_string()]]);
}

#[test]
fn cycle_starts_where_the_back_edge_lands() {
    let result = detect_cycles_in_graph(&graph_of(
        &["A", "B", "C", "D"],
        &[("A", "B"), ("B", "C"), ("C", "D"), ("D", "B")],
    ));
    assert!(result.has_cycle);
    assert_eq!(
        result.cycles,
        vec![vec!["B".to_string(), "C".to_string(), "D".to_string()]]
    );
}

#[test]
fn separate_components_each_report_a_cycle() {
    let result = detect_cycles_in_graph(&graph_of(
        &["A", "B", "C", "D"],
        &[("A", "B"), ("B", "A"), ("C", "D"), ("D", "C")],
    ));
    assert!(result.has_cycle);
    assert_eq!(
        result.cycles,
        vec![
            vec!["A".to_string(), "B".to_string()],
            vec!["C".to_string(), "D".to_string()]
        ]
    );
}

#[test]
fn a_search_stops_at_its_first_cycle() {
    // The search from A stops at the edge B -> A. C is then searched on its
    // own, and its edge to A leads to a vertex of an earlier search.
    let result = detect_cycles_in_graph(&graph_of(
        &["A", "B", "C"],
        &[("A", "B"), ("B", "A"), ("A", "C"), ("C", "A")],
    ));
    assert!(result.has_cycle);
    assert_eq!(result.cycles, vec![vec!["A".to_string(), "B".to_string()]]);
}

#[test]
fn cycle_among_undeclared_nodes_is_found_when_reachable() {
    let result =
        detect_cycles_in_graph(&graph_of(&["A"], &[("A", "X"), ("X", "Y"), ("Y", "X")]));
    assert!(result.has_cycle);
    assert_eq!(result.cycles, vec![vec!["X".to_string(), "Y".to_string()]]);
}

#[test]
fn cycle_out_of_reach_of_declared_nodes_is_not_found() {
    let result = detect_cycles_in_graph(&graph_of(&["A"], &[("X", "X")]));
    assert!(!result.has_cycle);
    assert!(result.cycles.is_empty());
}

#[test]
fn repeated_declaration_does_not_repeat_the_search() {
    let result = detect_cycles_in_graph(&graph_of(&["A", "A", "B"], &[("A", "B"), ("B", "A")]));
    assert_eq!(result.cycles.len(), 1);
}

#[test]
fn cycle_flag_is_the_same_on_every_run() {
    let graph = graph_of(&["A", "B", "C"], &[("A", "B"), ("B", "C"), ("C", "A")]);
    let first = detect_cycles_in_graph(&graph);
    let second = detect_cycles_in_graph(&graph);
    assert_eq!(first.has_cycle, second.has_cycle);
    assert_eq!(first.has_cycle, !first.cycles.is_empty());
}

#[test]
fn empty_graph_has_no_cycle() {
    let result = detect_cycles_in_graph(&graph_of(&[], &[]));
    assert!(!result.has_cycle);
    assert!(result.cycles.is_empty());
}

#[test]
fn find_cycles_numbers_the_vertices() {
    let adjacency = Adjacency::build(&graph_of(
        &["A", "B", "C"],
        &[("A", "B"), ("B", "C"), ("C", "B")],
    ));
    assert_eq!(find_cycles(&adjacency), vec![vec![1, 2]]);
}

#[test]
fn search_from_one_vertex_leaves_its_stack_behind_when_it_finds_a_cycle() {
    let adjacency = Adjacency::build(&graph_of(
        &["A", "B", "C"],
        &[("A", "B"), ("B", "C"), ("C", "B")],
    ));
    let mut visited = vec![false; 3];
    let mut rec_stack = vec![false; 3];
    let mut path = Vec::new();
    let mut cycles = Vec::new();
    let found =
        dfs_cycle_detection(0, &adjacency, &mut visited, &mut rec_stack, &mut path, &mut cycles);
    assert!(found);
    assert_eq!(cycles, vec![vec![1, 2]]);
    assert_eq!(path, vec![0, 1, 2]);
    assert_eq!(visited, vec![true, true, true]);
    assert_eq!(rec_stack, vec![true, true, true]);
}

#[test]
fn search_from_one_vertex_clears_its_stack_when_it_finds_nothing() {
    let adjacency = Adjacency::build(&graph_of(
        &["A", "B", "C", "D"],
        &[("A", "B"), ("A", "C"), ("B", "C")],
    ));
    let mut visited = vec![false; 4];
    let mut rec_stack = vec![false; 4];
    let mut path = Vec::new();
    let mut cycles = Vec::new();
    let found =
        dfs_cycle_detection(0, &adjacency, &mut visited, &mut rec_stack, &mut path, &mut cycles);
    assert!(!found);
    assert!(cycles.is_empty());
    assert!(path.is_empty());
    assert_eq!(visited, vec![true, true, true, false]);
    assert_eq!(rec_stack, vec![false, false, false, false]);
}

#[test]
fn search_does_not_enter_what_was_visited() {
    let adjacency = Adjacency::build(&graph_of(&["A", "B", "C"], &[("A", "B"), ("B", "C")]));
    let mut visited = vec![false, true, false];
    let mut rec_stack = vec![false, true, false];
    let mut path = Vec::new();
    let mut cycles = Vec::new();
    let found =
        dfs_cycle_detection(0, &adjacency, &mut visited, &mut rec_stack, &mut path, &mut cycles);
    assert!(!found);
    assert_eq!(visited, vec![true, true, false]);
    assert_eq!(rec_stack, vec![false, true, false]);
}

#[test]
fn deep_chain_does_not_exhaust_the_stack() {
    let count = 200_000;
    let nodes: Vec<String> = (0..count).map(|i| i.to_string()).collect();
    let sources: Vec<usize> = (0..count - 1).collect();
    let targets: Vec<usize> = (1..count).collect();
    let mut outgoing: Vec<Vec<usize>> = (0..count - 1).map(|i| vec![i]).collect();
    outgoing.push(Vec::new());
    let adjacency = Adjacency { names: nodes, declared: count, sources, targets, outgoing };
    assert!(find_cycles(&adjacency).is_empty());
}

#[test]
fn edges_are_followed_in_their_order() {
    let result = detect_cycles_in_graph(&graph_of(
        &["A", "B", "C"],
        &[("A", "C"), ("A", "B"), ("B", "A"), ("C", "A")],
    ));
    assert_eq!(result.cycles, vec![vec!["A".to_string(), "C".to_string()]]);
}

#[test]
fn a_branch_without_a_cycle_is_left_before_the_next_is_tried() {
    let result = detect_cycles_in_graph(&graph_of(
        &["A", "B", "C", "D"],
        &[("A", "B"), ("B", "C"), ("A", "D"), ("D", "A")],
    ));
    assert_eq!(result.cycles, vec![vec!["A".to_string(), "D".to_string()]]);
}

#[test]
fn a_later_search_does_not_run_into_an_earlier_one() {
    // The search from A finds A -> B -> A and leaves both marked. The search
    // from C passes over its edge to B, and finds the loop at D.
    let result = detect_cycles_in_graph(&graph_of(
        &["A", "B", "C", "D"],
        &[("A", "B"), ("B", "A"), ("C", "B"), ("C", "D"), ("D", "D")],
    ));
    assert_eq!(
        result.cycles,
        vec![vec!["A".to_string(), "B".to_string()], vec!["D".to_string()]]
    );
}
