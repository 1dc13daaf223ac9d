//! Analysis of small directed graphs whose nodes are named by strings:
//! cycle detection, dependency ordering, hop-shortest paths, and the assembly
//! of a graph from a list of pairwise relationships.
//!
//! Every function is verified against a contract stated over walks in the
//! graph, where a walk is a sequence of positions in the graph's edge list.
//! The contracts say what each analysis returns on every graph, also on one
//! whose edges mention nodes that were not declared or whose node list
//! repeats a node.
//!
//! - [`model`] holds the data model, [`api`] the four entry points.
//! - [`walks`] and [`search`] hold the notions in which the contracts are
//!   stated, [`laws`] what follows from the contracts.
//! - [`adjacency`] numbers the nodes of a graph; [`cycle_detection`],
//!   [`topological_sort`], [`path_finding`] and [`dag`] hold the analyses.

pub mod adjacency;
pub mod api;
pub mod cycle_detection;
pub mod dag;
mod descent;
pub mod laws;
pub mod model;
pub mod path_finding;
pub mod search;
pub mod sequences;
mod sweep;
pub mod topological_sort;
mod tracing;
pub mod walks;

pub use adjacency::Adjacency;
pub use api::{build_dag, detect_cycles, find_path, topological_sort};
pub use cycle_detection::{detect_cycles_in_graph, dfs_cycle_detection, find_cycles};
pub use dag::build_dag_from_relationships;
pub use model::{CycleDetectionResult, Edge, Graph, PathResult, Relationship, TopologicalSortResult};
pub use path_finding::{breadth_first_search, find_path_between_nodes};
pub use topological_sort::{compute_topological_sort, dependency_order};
