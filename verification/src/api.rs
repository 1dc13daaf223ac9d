//! The four entry points, each taking its input as it comes out of decoding.
//!
//! Input that could not be decoded is `None`. It is never an error: each
//! entry point answers it with a fixed result of the usual shape.

use vstd::prelude::*;
use crate::cycle_detection::detect_cycles_in_graph;
use crate::dag::build_dag_from_relationships;
use crate::model::{CycleDetectionResult, Graph, PathResult, Relationship, TopologicalSortResult};
use crate::path_finding::find_path_between_nodes;
use crate::topological_sort::compute_topological_sort;

verus! {

/// Orders the nodes of the decoded graph. Without a graph the answer is an
/// empty order with the cycle flag set.
pub fn topological_sort<W>(decoded: Option<&Graph<W>>) -> (result: TopologicalSortResult)
    ensures
        match decoded {
            Some(graph) => result.orders(graph),
            None => result.sorted@.len() == 0 && result.has_cycle,
        },
{
    match decoded {
        Some(graph) => compute_topological_sort(graph),
        None => TopologicalSortResult { sorted: Vec::new(), has_cycle: true },
    }
}

/// Searches the decoded graph for cycles. Without a graph the answer is that
/// there is none.
pub fn detect_cycles<W>(decoded: Option<&Graph<W>>) -> (result: CycleDetectionResult)
    ensures
        match decoded {
            Some(graph) => result.detects(graph),
            None => !result.has_cycle && result.cycles@.len() == 0,
        },
{
    match decoded {
        Some(graph) => detect_cycles_in_graph(graph),
        None => CycleDetectionResult { has_cycle: false, cycles: Vec::new() },
    }
}

/// Searches the decoded graph for a path from `from` to `to`. Without a
/// graph the answer is that there is none, also where the two are the same.
pub fn find_path<W>(decoded: Option<&Graph<W>>, from: &str, to: &str) -> (result: PathResult)
    ensures
        match decoded {
            Some(graph) => result.answers(graph, from@, to@),
            None => !result.exists && result.path@.len() == 0 && result.hops@.len() == 0,
        },
{
    match decoded {
        Some(graph) => find_path_between_nodes(graph, from, to),
        None => PathResult { path: Vec::new(), exists: false, hops: Vec::new() },
    }
}

/// Builds the graph of the decoded relationships. Without them the answer is
/// the empty graph.
pub fn build_dag<W: Copy>(decoded: Option<&[Relationship<W>]>) -> (graph: Graph<W>)
    ensures
        match decoded {
            Some(relationships) => graph.assembles(relationships@),
            None => graph.nodes@.len() == 0 && graph.edges@.len() == 0,
        },
{
    match decoded {
        Some(relationships) => build_dag_from_relationships(relationships),
        None => Graph { nodes: Vec::new(), edges: Vec::new() },
    }
}

} // verus!
