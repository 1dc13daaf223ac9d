//! A graph with its identities numbered, ready for traversal.
//!
//! Each identity that the graph mentions, declared or not, becomes a vertex:
//! the declared ones first, in the order of their first mention, then the
//! endpoints of edges that were not declared, in edge order. Looking an
//! identity up is a scan of the names, so indexing a graph takes time
//! proportional to the number of identities times the size of the graph.

use vstd::prelude::*;
use crate::model::{views, Graph};
use crate::sequences::{
    first_occurrences,
    lemma_first_occurrences_prefix,
    lemma_first_occurrences_push,
    lemma_first_occurrences_set,
};
use crate::walks::{ends, relabels};

verus! {

/// The numbered form of a graph: the name of each vertex, the two ends of
/// each edge as vertices, and for each vertex the edges that leave it.
pub struct Adjacency {
    /// The identity of each vertex.
    pub names: Vec<String>,
    /// How many of the vertices, counted from the first, are declared nodes.
    pub declared: usize,
    /// The vertex at which each edge starts.
    pub sources: Vec<usize>,
    /// The vertex at which each edge ends.
    pub targets: Vec<usize>,
    /// For each vertex the edges that leave it, in edge order.
    pub outgoing: Vec<Vec<usize>>,
}

impl Adjacency {
    /// The edges as pairs of vertices.
    pub open spec fn links(&self) -> Seq<(usize, usize)> {
        Seq::new(self.sources.len() as nat, |e: int| (self.sources[e], self.targets[e]))
    }

    /// The edges as pairs of names.
    pub open spec fn named_links(&self) -> Seq<(Seq<char>, Seq<char>)> {
        Seq::new(
            self.sources.len() as nat,
            |e: int| (self.names[self.sources[e] as int]@, self.names[self.targets[e] as int]@),
        )
    }

    /// The names of the declared vertices, in order.
    pub open spec fn roots(&self) -> Seq<Seq<char>> {
        views(self.names@).subrange(0, self.declared as int)
    }

    /// The names of the vertices in each of the lists.
    pub open spec fn named(&self, lists: Seq<Vec<usize>>) -> Seq<Seq<Seq<char>>> {
        Seq::new(
            lists.len(),
            |k: int| Seq::new(lists[k].len() as nat, |i: int| self.names[lists[k][i] as int]@),
        )
    }

    /// The declared vertices: the first `declared` of them.
    pub open spec fn declared_vertices(&self) -> Seq<usize> {
        Seq::new(self.declared as nat, |v: int| v as usize)
    }

    /// The list kept for vertex `u` holds the edges that leave `u`, each
    /// once, in ascending order.
    pub open spec fn lists_outgoing(&self, u: int) -> bool {
        let list = self.outgoing[u]@;
        &&& forall|k: int|
            0 <= k < list.len() ==> (#[trigger] list[k]) < self.sources.len()
                && self.sources[list[k] as int] == u
        &&& forall|j: int, k: int| 0 <= j < k < list.len() ==> list[j] < list[k]
        &&& forall|e: int|
            0 <= e < self.sources.len() && #[trigger] self.sources[e] == u ==> list.contains(
                e as usize,
            )
    }

    /// The parts fit together.
    pub open spec fn wf(&self) -> bool {
        &&& self.declared <= self.names.len()
        &&& views(self.names@).no_duplicates()
        &&& self.sources.len() == self.targets.len()
        &&& forall|e: int|
            0 <= e < self.sources.len() ==> (#[trigger] self.sources[e]) < self.names.len()
        &&& forall|e: int|
            0 <= e < self.targets.len() ==> (#[trigger] self.targets[e]) < self.names.len()
        &&& self.outgoing.len() == self.names.len()
        &&& forall|u: int| 0 <= u < self.names.len() ==> self.lists_outgoing(u)
    }

    /// This is the numbered form of `graph`.
    pub open spec fn indexes<W>(&self, graph: &Graph<W>) -> bool {
        &&& self.wf()
        &&& views(self.names@) == first_occurrences(graph.labels() + ends(graph.links()))
        &&& self.declared == first_occurrences(graph.labels()).len()
        &&& self.sources.len() == graph.edges.len()
        &&& forall|e: int|
            0 <= e < graph.edges.len() ==> {
                &&& self.names[(#[trigger] self.sources[e]) as int]@ == graph.edges[e].from@
                &&& self.names[self.targets[e] as int]@ == graph.edges[e].to@
            }
    }

    /// The first vertex that carries `name`, if any does.
    pub fn lookup(&self, name: &String) -> (found: Option<usize>)
        ensures
            match found {
                Some(v) => v < self.names.len() && self.names[v as int]@ == name@ && forall|i: int|
                    0 <= i < v ==> self.names[i]@ != name@,
                None => !views(self.names@).contains(name@),
            },
    {
        position_of(&self.names, name)
    }

    /// The names of the given vertices, in order.
    pub fn names_of(&self, vertices: &Vec<usize>) -> (names: Vec<String>)
        requires
            forall|i: int| 0 <= i < vertices.len() ==> (#[trigger] vertices[i]) < self.names.len(),
        ensures
            views(names@) == Seq::new(
                vertices.len() as nat,
                |i: int| views(self.names@)[vertices[i] as int],
            ),
    {
        let mut names: Vec<String> = Vec::new();
        let mut i: usize = 0;
        while i < vertices.len()
            invariant
                i <= vertices.len(),
                names.len() == i,
                forall|k: int|
                    0 <= k < vertices.len() ==> (#[trigger] vertices[k]) < self.names.len(),
                forall|k: int| 0 <= k < i ==> (#[trigger] names[k])@ == self.names[vertices[k] as int]@,
            decreases vertices.len() - i,
        {
            names.push(self.names[vertices[i]].clone());
            i = i + 1;
        }
        assert(views(names@) =~= Seq::new(
            vertices.len() as nat,
            |i: int| views(self.names@)[vertices[i] as int],
        ));
        names
    }

    /// Numbers the identities of `graph` and lists the edges leaving each.
    pub fn build<W>(graph: &Graph<W>) -> (adjacency: Adjacency)
        ensures
            adjacency.indexes(graph),
    {
        let mut names: Vec<String> = Vec::new();
        let mut i: usize = 0;
        assert(graph.labels().take(0) =~= Seq::<Seq<char>>::empty());
        assert(views(names@) =~= first_occurrences(graph.labels().take(0)));
        while i < graph.nodes.len()
            invariant
                i <= graph.nodes.len(),
                views(names@) == first_occurrences(graph.labels().take(i as int)),
            decreases graph.nodes.len() - i,
        {
            proof {
                lemma_first_occurrences_push(graph.labels().take(i as int), graph.nodes[i as int]@);
                assert(graph.labels().take(i as int).push(graph.nodes[i as int]@)
                    =~= graph.labels().take(i + 1));
            }
            intern(&mut names, &graph.nodes[i]);
            i = i + 1;
        }
        let declared = names.len();
        assert(graph.labels().take(graph.nodes.len() as int) =~= graph.labels());

        let ghost all = graph.labels() + ends(graph.links());
        let mut sources: Vec<usize> = Vec::new();
        let mut targets: Vec<usize> = Vec::new();
        let mut e: usize = 0;
        assert(graph.labels() + ends(graph.links()).take(0) =~= graph.labels());
        while e < graph.edges.len()
            invariant
                e <= graph.edges.len(),
                sources.len() == e,
                targets.len() == e,
                views(names@) == first_occurrences(
                    graph.labels() + ends(graph.links()).take(2 * e),
                ),
                forall|k: int|
                    0 <= k < e ==> (#[trigger] sources[k]) < names.len() && names[sources[k] as int]@
                        == graph.edges[k].from@,
                forall|k: int|
                    0 <= k < e ==> (#[trigger] targets[k]) < names.len() && names[targets[k] as int]@
                        == graph.edges[k].to@,
            decreases graph.edges.len() - e,
        {
            let ghost seen = graph.labels() + ends(graph.links()).take(2 * e);
            let ghost before = views(names@);
            let edge = &graph.edges[e];
            proof {
                lemma_first_occurrences_push(seen, edge.from@);
                lemma_first_occurrences_push(seen.push(edge.from@), edge.to@);
                assert(ends(graph.links())[2 * e] == edge.from@);
                assert(ends(graph.links())[2 * e + 1] == edge.to@);
                assert(seen.push(edge.from@).push(edge.to@) =~= graph.labels() + ends(
                    graph.links(),
                ).take(2 * (e + 1)));
            }
            let s = intern(&mut names, &edge.from);
            let ghost between = views(names@);
            let t = intern(&mut names, &edge.to);
            proof {
                let after = views(names@);
                assert(before.len() <= between.len() <= after.len());
                assert forall|k: int| 0 <= k < between.len() implies after[k] == between[k] by {}
                assert forall|k: int| 0 <= k < before.len() implies names[k]@ == before[k] by {
                    assert(between[k] == before[k]);
                    assert(after[k] == between[k]);
                }
                assert(after[s as int] == between[s as int]);
                assert forall|k: int| 0 <= k < e implies (#[trigger] sources[k]) < names.len()
                    && names[sources[k] as int]@ == graph.edges[k].from@ by {
                    assert(before[sources[k] as int] == graph.edges[k].from@);
                }
                assert forall|k: int| 0 <= k < e implies (#[trigger] targets[k]) < names.len()
                    && names[targets[k] as int]@ == graph.edges[k].to@ by {
                    assert(before[targets[k] as int] == graph.edges[k].to@);
                }
            }
            sources.push(s);
            targets.push(t);
            e = e + 1;
        }
        assert(ends(graph.links()).take(2 * graph.edges.len()) =~= ends(graph.links()));

        let n = names.len();
        let mut outgoing: Vec<Vec<usize>> = Vec::new();
        let mut u: usize = 0;
        while u < n
            invariant
                u <= n,
                outgoing.len() == u,
                forall|v: int| 0 <= v < u ==> (#[trigger] outgoing[v])@.len() == 0,
            decreases n - u,
        {
            outgoing.push(Vec::new());
            u = u + 1;
        }
        let mut e: usize = 0;
        while e < sources.len()
            invariant
                e <= sources.len(),
                outgoing.len() == n,
                forall|k: int| 0 <= k < sources.len() ==> (#[trigger] sources[k]) < n,
                forall|v: int, k: int|
                    0 <= v < n && 0 <= k < outgoing[v]@.len() ==> (#[trigger] outgoing[v]@[k]) < e
                        && sources[outgoing[v]@[k] as int] == v,
                forall|v: int, j: int, k: int|
                    0 <= v < n && 0 <= j < k < outgoing[v]@.len() ==> (#[trigger] outgoing[v]@[j])
                        < (#[trigger] outgoing[v]@[k]),
                forall|k: int|
                    0 <= k < e ==> outgoing[(#[trigger] sources[k]) as int]@.contains(k as usize),
            decreases sources.len() - e,
        {
            let s = sources[e];
            let ghost before = outgoing@;
            outgoing[s].push(e);
            proof {
                assert forall|v: int| 0 <= v < n && v != s implies outgoing[v] == before[v] by {}
                assert(outgoing[s as int]@ == before[s as int]@.push(e));
                assert forall|k: int| 0 <= k < e + 1 implies outgoing[(#[trigger] sources[k]) as int]@.contains(
                    k as usize,
                ) by {
                    let v = sources[k] as int;
                    if k == e {
                        assert(outgoing[v]@[before[v]@.len() as int] == e);
                    } else {
                        let at = choose|at: int| 0 <= at < before[v]@.len() && before[v]@[at] == k;
                        assert(outgoing[v]@[at] == k);
                    }
                }
            }
            e = e + 1;
        }
        let adjacency = Adjacency { names, declared, sources, targets, outgoing };
        proof {
            lemma_first_occurrences_set(all);
            lemma_first_occurrences_prefix(graph.labels(), ends(graph.links()));
            assert forall|v: int| 0 <= v < n implies adjacency.lists_outgoing(v) by {
                let list = adjacency.outgoing[v]@;
                assert forall|k: int| 0 <= k < list.len() implies (#[trigger] list[k])
                    < adjacency.sources.len() && adjacency.sources[list[k] as int] == v by {
                    assert(adjacency.outgoing[v]@[k] < e);
                }
            }
        }
        adjacency
    }
}

/// The first position at which `names` holds the identity of `name`.
fn position_of(names: &Vec<String>, name: &String) -> (found: Option<usize>)
    ensures
        match found {
            Some(v) => v < names.len() && names[v as int]@ == name@ && forall|i: int|
                0 <= i < v ==> names[i]@ != name@,
            None => !views(names@).contains(name@),
        },
{
    let mut i: usize = 0;
    while i < names.len()
        invariant
            i <= names.len(),
            forall|k: int| 0 <= k < i ==> names[k]@ != name@,
        decreases names.len() - i,
    {
        if names[i] == *name {
            return Some(i);
        }
        i = i + 1;
    }
    assert forall|k: int| 0 <= k < views(names@).len() implies views(names@)[k] != name@ by {
        assert(names[k]@ != name@);
    }
    None
}

/// The first position of `name` among `names`, which takes it in at the end
/// if it is new.
pub fn intern(names: &mut Vec<String>, name: &String) -> (v: usize)
    ensures
        views(final(names)@) == if views(old(names)@).contains(name@) {
            views(old(names)@)
        } else {
            views(old(names)@).push(name@)
        },
        v < final(names).len(),
        final(names)[v as int]@ == name@,
        forall|i: int| 0 <= i < v ==> final(names)[i]@ != name@,
{
    match position_of(names, name) {
        Some(v) => {
            assert(views(names@)[v as int] == name@);
            v
        },
        None => {
            let v = names.len();
            let ghost before = views(names@);
            names.push(name.clone());
            assert(views(names@) =~= before.push(name@));
            assert forall|i: int| 0 <= i < v implies names[i]@ != name@ by {
                assert(before[i] != name@);
            }
            v
        },
    }
}

/// The edges as pairs of vertices are the edges as pairs of names, with
/// each name replaced by its vertex.
pub proof fn lemma_named_links(adjacency: &Adjacency)
    requires
        adjacency.wf(),
    ensures
        relabels(views(adjacency.names@), adjacency.links(), adjacency.named_links()),
{
    assert forall|e: int| 0 <= e < adjacency.links().len() implies {
        &&& (#[trigger] adjacency.links()[e]).0 < views(adjacency.names@).len()
        &&& adjacency.links()[e].1 < views(adjacency.names@).len()
        &&& adjacency.named_links()[e] == (
            views(adjacency.names@)[adjacency.links()[e].0 as int],
            views(adjacency.names@)[adjacency.links()[e].1 as int],
        )
    } by {
        assert(adjacency.sources[e] < adjacency.names.len());
        assert(adjacency.targets[e] < adjacency.names.len());
    }
}

/// The numbered edges are the graph's edges under the vertices' names, and
/// the declared vertices carry exactly the declared identities.
pub proof fn lemma_indexes<W>(adjacency: &Adjacency, graph: &Graph<W>)
    requires
        adjacency.indexes(graph),
    ensures
        relabels(views(adjacency.names@), adjacency.links(), graph.links()),
        adjacency.named_links() == graph.links(),
        adjacency.roots() == first_occurrences(graph.labels()),
        forall|v: int|
            0 <= v < adjacency.declared ==> graph.labels().contains(
                #[trigger] views(adjacency.names@)[v],
            ),
        forall|i: int|
            0 <= i < graph.nodes.len() ==> exists|v: int|
                0 <= v < adjacency.declared && views(adjacency.names@)[v]
                    == #[trigger] graph.labels()[i],
        forall|x: Seq<char>| #[trigger]
            views(adjacency.names@).contains(x) <==> graph.labels().contains(x) || ends(
                graph.links(),
            ).contains(x),
{
    let names = views(adjacency.names@);
    let labels = graph.labels();
    let all = labels + ends(graph.links());
    lemma_first_occurrences_set(all);
    lemma_first_occurrences_set(labels);
    lemma_first_occurrences_prefix(labels, ends(graph.links()));
    let declared = first_occurrences(labels);
    assert(adjacency.named_links() =~= graph.links());
    assert forall|v: int| 0 <= v < adjacency.declared implies labels.contains(#[trigger] names[v]) by {
        assert(names.subrange(0, adjacency.declared as int)[v] == names[v]);
        assert(declared[v] == names[v]);
        assert(declared.contains(names[v]));
    }
    assert forall|i: int| 0 <= i < graph.nodes.len() implies exists|v: int|
        0 <= v < adjacency.declared && names[v] == #[trigger] labels[i] by {
        assert(labels.contains(labels[i]));
        assert(declared.contains(labels[i]));
        let v = choose|v: int| 0 <= v < declared.len() && declared[v] == labels[i];
        assert(names.subrange(0, adjacency.declared as int)[v] == names[v]);
    }
    assert forall|x: Seq<char>|
        names.contains(x) <==> labels.contains(x) || ends(graph.links()).contains(x) by {
        if labels.contains(x) {
            let i = choose|i: int| 0 <= i < labels.len() && labels[i] == x;
            assert(all[i] == x);
        }
        if ends(graph.links()).contains(x) {
            let i = choose|i: int| 0 <= i < ends(graph.links()).len() && ends(graph.links())[i] == x;
            assert(all[labels.len() + i] == x);
        }
        if all.contains(x) {
            let i = choose|i: int| 0 <= i < all.len() && all[i] == x;
            if i < labels.len() {
                assert(labels[i] == x);
            } else {
                assert(ends(graph.links())[i - labels.len()] == x);
            }
        }
    }
}

} // verus!
