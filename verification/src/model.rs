//! The data model shared by all analyses.
//!
//! Weights are a type parameter: the library stores and hands them on, and
//! never computes with them.

use vstd::prelude::*;

verus! {

/// A directed edge between two node identities, with an optional weight.
#[derive(Debug, Clone)]
pub struct Edge<W> {
    pub from: String,
    pub to: String,
    pub weight: Option<W>,
}

/// A list of declared node identities and a list of edges.
///
/// Nothing forces an edge's endpoints to be declared, nor a declared identity
/// to be listed once: the analyses say what they do on such graphs too.
#[derive(Debug, Clone)]
pub struct Graph<W> {
    pub nodes: Vec<String>,
    pub edges: Vec<Edge<W>>,
}

/// A pairwise relationship, the loose form from which a graph is assembled.
#[derive(Debug, Clone)]
pub struct Relationship<W> {
    pub from: String,
    pub to: String,
    pub confidence: Option<W>,
}

/// A dependency order of a graph's nodes, as far as one exists.
#[derive(Debug, Clone)]
pub struct TopologicalSortResult {
    pub sorted: Vec<String>,
    pub has_cycle: bool,
}

/// Whether a graph has a cycle, with some of its cycles. Each cycle lists the
/// nodes of a closed walk once; the step from the last back to the first is
/// implied.
#[derive(Debug, Clone)]
pub struct CycleDetectionResult {
    pub has_cycle: bool,
    pub cycles: Vec<Vec<String>>,
}

/// A path between two nodes: the nodes along it, both ends included, and the
/// positions in the edge list of the edges that it takes, in order. The
/// distance along the path is the sum of the weights of those edges.
#[derive(Debug, Clone)]
pub struct PathResult {
    pub path: Vec<String>,
    pub exists: bool,
    pub hops: Vec<usize>,
}

/// The identities that a list of strings holds, in order.
pub open spec fn views(names: Seq<String>) -> Seq<Seq<char>> {
    Seq::new(names.len(), |i: int| names[i]@)
}

/// The identities that each of the lists holds.
pub open spec fn cycle_names(cycles: Seq<Vec<String>>) -> Seq<Seq<Seq<char>>> {
    Seq::new(cycles.len(), |k: int| views(cycles[k]@))
}

impl<W> Edge<W> {
    /// The edge as a pair of identities.
    pub open spec fn link(&self) -> (Seq<char>, Seq<char>) {
        (self.from@, self.to@)
    }
}

impl<W> Graph<W> {
    /// The declared identities, in order.
    pub open spec fn labels(&self) -> Seq<Seq<char>> {
        views(self.nodes@)
    }

    /// The edges as pairs of identities, in order.
    pub open spec fn links(&self) -> Seq<(Seq<char>, Seq<char>)> {
        Seq::new(self.edges.len() as nat, |e: int| self.edges[e].link())
    }

    /// Every endpoint of every edge is a declared identity.
    pub open spec fn endpoints_declared(&self) -> bool {
        forall|e: int|
            0 <= e < self.edges.len() ==> self.labels().contains((#[trigger] self.links()[e]).0)
                && self.labels().contains(self.links()[e].1)
    }

    /// No identity is declared twice.
    pub open spec fn labels_distinct(&self) -> bool {
        self.labels().no_duplicates()
    }
}

/// The relationships as pairs of identities, in order.
pub open spec fn relationship_links<W>(relationships: Seq<Relationship<W>>) -> Seq<
    (Seq<char>, Seq<char>),
> {
    Seq::new(relationships.len(), |i: int| (relationships[i].from@, relationships[i].to@))
}

} // verus!
