//! Assembling a graph from a list of pairwise relationships.

use vstd::prelude::*;
use crate::adjacency::intern;
use crate::model::{relationship_links, views, Edge, Graph, Relationship};
use crate::sequences::{first_occurrences, lemma_first_occurrences_push, lemma_first_occurrences_set};
use crate::walks::ends;

verus! {

impl<W> Graph<W> {
    /// This graph is assembled from `relationships`: one edge for each, in
    /// order and with its confidence as weight, and as nodes the endpoints in
    /// the order in which they are first mentioned, each once.
    pub open spec fn assembles(&self, relationships: Seq<Relationship<W>>) -> bool {
        &&& self.labels() == first_occurrences(ends(relationship_links(relationships)))
        &&& self.labels().no_duplicates()
        &&& self.nodes.len() == ends(relationship_links(relationships)).to_set().len()
        &&& self.edges.len() == relationships.len()
        &&& forall|i: int|
            0 <= i < relationships.len() ==> {
                &&& (#[trigger] self.edges[i]).from@ == relationships[i].from@
                &&& self.edges[i].to@ == relationships[i].to@
                &&& self.edges[i].weight == relationships[i].confidence
            }
    }
}

/// Builds the graph of a list of relationships.
///
/// Every relationship gives one edge, also where two relationships join the
/// same pair. The nodes are the endpoints, source before target, in the order
/// of their first mention. Nothing checks that the result is free of cycles.
pub fn build_dag_from_relationships<W: Copy>(relationships: &[Relationship<W>]) -> (graph: Graph<W>)
    ensures
        graph.assembles(relationships@),
{
    let ghost all = ends(relationship_links(relationships@));
    let mut nodes: Vec<String> = Vec::new();
    let mut edges: Vec<Edge<W>> = Vec::new();
    let mut i: usize = 0;
    assert(all.take(0) =~= Seq::<Seq<char>>::empty());
    assert(views(nodes@) =~= first_occurrences(all.take(0)));
    while i < relationships.len()
        invariant
            i <= relationships.len(),
            all == ends(relationship_links(relationships@)),
            views(nodes@) == first_occurrences(all.take(2 * i)),
            edges.len() == i,
            forall|k: int|
                0 <= k < i ==> {
                    &&& (#[trigger] edges[k]).from@ == relationships[k].from@
                    &&& edges[k].to@ == relationships[k].to@
                    &&& edges[k].weight == relationships[k].confidence
                },
        decreases relationships.len() - i,
    {
        let rel = &relationships[i];
        proof {
            let seen = all.take(2 * i);
            lemma_first_occurrences_push(seen, rel.from@);
            lemma_first_occurrences_push(seen.push(rel.from@), rel.to@);
            assert(all[2 * i] == rel.from@);
            assert(all[2 * i + 1] == rel.to@);
            assert(seen.push(rel.from@).push(rel.to@) =~= all.take(2 * (i + 1)));
        }
        intern(&mut nodes, &rel.from);
        intern(&mut nodes, &rel.to);
        edges.push(Edge { from: rel.from.clone(), to: rel.to.clone(), weight: rel.confidence });
        i = i + 1;
    }
    let graph = Graph { nodes, edges };
    proof {
        assert(all.take(2 * relationships.len()) =~= all);
        lemma_first_occurrences_set(all);
        let firsts = first_occurrences(all);
        firsts.unique_seq_to_set();
        assert(firsts.to_set() =~= all.to_set());
    }
    graph
}

} // verus!
