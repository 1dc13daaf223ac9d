use graph_engine::{build_dag, build_dag_from_relationships, Adjacency, Edge, Graph, Relationship};

fn relation(from: &str, to: &str, confidence: Option<f64>) -> Relationship<f64> {
    Relationship { from: from.to_string(), to: to.to_string(), confidence }
}

#[test]
fn test_build_dag_from_relationships() {
    let relationships = vec![
        Relationship { from: "A".to_string(), to: "B".to_string(), confidence: Some(0.8) },
        Relationship { from: "B".to_string(), to: "C".to_string(), confidence: Some(0.9) },
    ];

    let graph = build_dag_from_relationships(&relationships);
    assert_eq!(graph.nodes.len(), 3);
    assert_eq!(graph.edges.len(), 2);
}

#[test]
fn build_dag_without_input_is_empty() {
    let graph = build_dag(None::<&[Relationship<f64>]>);
    assert!(graph.nodes.is_empty());
    assert!(graph.edges.is_empty());
}

#[test]
fn build_dag_with_input_builds_the_graph() {
    let relationships = vec![relation("A", "B", Some(0.5))];
    let graph = build_dag(Some(relationships.as_slice()));
    assert_eq!(graph.nodes, vec!["A", "B"]);
    assert_eq!(graph.edges.len(), 1);
}

#[test]
fn edges_carry_the_confidence_as_weight() {
    let graph = build_dag_from_relationships(&[
        relation("A", "B", Some(0.8)),
        relation("B", "C", Some(0.9)),
    ]);
    assert_eq!(graph.nodes, vec!["A", "B", "C"]);
    assert_eq!(graph.edges.len(), 2);
    assert_eq!(graph.edges[0].from, "A");
    assert_eq!(graph.edges[0].to, "B");
    assert_eq!(graph.edges[0].weight, Some(0.8));
    assert_eq!(graph.edges[1].from, "B");
    assert_eq!(graph.edges[1].to, "C");
    assert_eq!(graph.edges[1].weight, Some(0.9));
}

#[test]
fn nodes_come_in_the_order_of_first_mention() {
    let graph = build_dag_from_relationships(&[
        relation("C", "A", None),
        relation("B", "C", None),
        relation("A", "D", None),
    ]);
    assert_eq!(graph.nodes, vec!["C", "A", "B", "D"]);
}

#[test]
fn repeated_relationships_stay_separate_edges() {
    let graph = build_dag_from_relationships(&[
        relation("A", "B", Some(0.1)),
        relation("A", "B", Some(0.2)),
        relation("A", "B", None),
    ]);
    assert_eq!(graph.nodes, vec!["A", "B"]);
    assert_eq!(graph.edges.len(), 3);
    assert_eq!(graph.edges[0].weight, Some(0.1));
    assert_eq!(graph.edges[1].weight, Some(0.2));
    assert_eq!(graph.edges[2].weight, None);
}

#[test]
fn a_relationship_of_a_node_with_itself_gives_one_node() {
    let graph = build_dag_from_relationships(&[relation("A", "A", None)]);
    assert_eq!(graph.nodes, vec!["A"]);
    assert_eq!(graph.edges.len(), 1);
}

#[test]
fn no_relationship_gives_the_empty_graph() {
    let graph = build_dag_from_relationships(&[] as &[Relationship<f64>]);
    assert!(graph.nodes.is_empty());
    assert!(graph.edges.is_empty());
}

#[test]
fn node_count_is_the_number_of_different_endpoints() {
    let relationships = vec![
        relation("A", "B", None),
        relation("B", "C", None),
        relation("C", "A", None),
        relation("D", "A", None),
    ];
    let graph = build_dag_from_relationships(&relationships);
    let mut endpoints: Vec<&str> = Vec::new();
    for r in &relationships {
        endpoints.push(&r.from);
        endpoints.push(&r.to);
    }
    endpoints.sort();
    endpoints.dedup();
    assert_eq!(graph.nodes.len(), endpoints.len());
    assert_eq!(graph.edges.len(), relationships.len());
}

#[test]
fn numbering_puts_declared_nodes_first() {
    let graph: Graph<f64> = Graph {
        nodes: vec!["B".to_string(), "A".to_string(), "B".to_string()],
        edges: vec![
            Edge { from: "X".to_string(), to: "A".to_string(), weight: None },
            Edge { from: "A".to_string(), to: "Y".to_string(), weight: None },
            Edge { from: "A".to_string(), to: "B".to_string(), weight: None },
        ],
    };
    let adjacency = Adjacency::build(&graph);
    assert_eq!(adjacency.names, vec!["B", "A", "X", "Y"]);
    assert_eq!(adjacency.declared, 2);
    assert_eq!(adjacency.sources, vec![2, 1, 1]);
    assert_eq!(adjacency.targets, vec![1, 3, 0]);
    assert_eq!(adjacency.outgoing, vec![vec![], vec![1, 2], vec![0], vec![]]);
    assert_eq!(adjacency.lookup(&"X".to_string()), Some(2));
    assert_eq!(adjacency.lookup(&"Z".to_string()), None);
    assert_eq!(adjacency.names_of(&vec![3, 0]), vec!["Y", "B"]);
}
