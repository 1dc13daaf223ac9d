//! The state between one search and the next, as the searches go through
//! the declared vertices.

use vstd::prelude::*;
use crate::adjacency::{
    Adjacency,
    lemma_named_links,
};
use crate::cycle_detection::{
    avoids,
    finds,
    fresh_cycle_from,
    fresh_reachable,
    is_fresh_walk,
    is_search_outcome,
};
use crate::model::views;
use crate::search::{
    cycles_after,
    lemma_search_step,
    marks_after,
    marks_agree,
};
use crate::tracing::holds;
use crate::walks::{
    cycle_reachable_from,
    is_cycle,
    is_cycle_through,
    is_walk,
    lemma_chain_subrange,
    lemma_walk_drop_last,
    lemma_walk_join,
    lemma_walk_push,
    reachable,
    reachable_from_some,
};

verus! {

/// Between searches that found nothing: what has been visited is closed
/// under the edges, and no cycle passes through it.
pub(crate) open spec fn is_clear(adjacency: &Adjacency, visited: Seq<bool>) -> bool {
    let links = adjacency.links();
    &&& visited.len() == adjacency.names.len()
    &&& forall|e: int|
        0 <= e < adjacency.sources.len() && visited[(#[trigger] adjacency.sources[e]) as int]
            ==> visited[adjacency.targets[e] as int]
    &&& forall|c: Seq<usize>| #[trigger]
        is_cycle(links, c) ==> forall|i: int|
            0 <= i < c.len() ==> !visited[links[(#[trigger] c[i]) as int].0 as int]
}

/// A walk that starts in what has been visited stays in it.
pub(crate) proof fn lemma_clear_walk(
    adjacency: &Adjacency,
    visited: Seq<bool>,
    from: usize,
    to: usize,
    steps: Seq<usize>,
)
    requires
        adjacency.wf(),
        is_clear(adjacency, visited),
        from < adjacency.names.len(),
        visited[from as int],
        is_walk(adjacency.links(), from, to, steps),
    ensures
        to < adjacency.names.len(),
        visited[to as int],
    decreases steps.len(),
{
    let links = adjacency.links();
    if steps.len() > 0 {
        let e = steps[steps.len() - 1];
        lemma_walk_drop_last(links, from, to, steps);
        lemma_clear_walk(adjacency, visited, from, links[e as int].0, steps.drop_last());
        assert(visited[adjacency.sources[e as int] as int]);
        assert(adjacency.targets[e as int] < adjacency.names.len());
    }
}

/// A cycle found among the vertices that were not visited is a cycle.
pub(crate) proof fn lemma_fresh_cycle(adjacency: &Adjacency, marked: Seq<bool>, root: usize)
    requires
        fresh_cycle_from(adjacency.links(), marked, root),
    ensures
        cycle_reachable_from(adjacency.links(), root),
{
    let links = adjacency.links();
    let c = choose|c: Seq<usize>|
        #[trigger] is_cycle(links, c) && avoids(links, marked, c) && fresh_reachable(
            links,
            marked,
            root,
            links[c[0] as int].0,
        );
    let steps = choose|steps: Seq<usize>|
        is_fresh_walk(links, marked, root, links[c[0] as int].0, steps);
    assert(is_walk(links, root, links[c[0] as int].0, steps));
}

/// A search that found nothing leaves the visited vertices closed and free
/// of cycles.
pub(crate) proof fn lemma_clear_grows(
    adjacency: &Adjacency,
    marked: Seq<bool>,
    visited: Seq<bool>,
    root: usize,
)
    requires
        adjacency.wf(),
        is_clear(adjacency, marked),
        visited.len() == adjacency.names.len(),
        root < adjacency.names.len(),
        !marked[root as int],
        !fresh_cycle_from(adjacency.links(), marked, root),
        forall|v: int|
            0 <= v < adjacency.names.len() ==> (#[trigger] visited[v] <==> marked[v]
                || fresh_reachable(adjacency.links(), marked, root, v as usize)),
    ensures
        is_clear(adjacency, visited),
{
    let n = adjacency.names.len() as int;
    let links = adjacency.links();
    assert forall|e: int|
        0 <= e < adjacency.sources.len() && visited[(
        #[trigger] adjacency.sources[e]) as int] implies visited[adjacency.targets[e] as int] by {
        let s = adjacency.sources[e];
        let t = adjacency.targets[e];
        assert(t < n);
        if !marked[s as int] && !marked[t as int] {
            let steps = choose|steps: Seq<usize>| is_fresh_walk(links, marked, root, s, steps);
            lemma_walk_push(links, root, s, steps, e as usize);
            let longer = steps.push(e as usize);
            assert forall|i: int| 0 <= i < longer.len() implies !marked[links[(
            #[trigger] longer[i]) as int].0 as int] && !marked[links[longer[i] as int].1 as int] by {
                if i < steps.len() {
                    assert(longer[i] == steps[i]);
                }
            }
            assert(is_fresh_walk(links, marked, root, t, longer));
        }
    }
    assert forall|c: Seq<usize>| #[trigger] is_cycle(links, c) implies forall|i: int|
        0 <= i < c.len() ==> !visited[links[(#[trigger] c[i]) as int].0 as int] by {
        assert forall|i: int| 0 <= i < c.len() implies !visited[links[(
        #[trigger] c[i]) as int].0 as int] by {
            let x = links[c[i] as int].0;
            assert(adjacency.sources[c[i] as int] < n);
            if visited[x as int] {
                assert(!marked[x as int]);
                assert forall|j: int| 0 <= j < c.len() implies !marked[links[(
                #[trigger] c[j]) as int].0 as int] && !marked[links[c[j] as int].1 as int] by {
                    let next = if j < c.len() - 1 {
                        j + 1
                    } else {
                        0
                    };
                    assert(links[c[j] as int].1 == links[c[next] as int].0);
                }
                let reach = choose|steps: Seq<usize>| is_fresh_walk(links, marked, root, x, steps);
                // walking the cycle on from `x` leads to where the cycle starts
                let rest = c.subrange(i, c.len() as int);
                lemma_chain_subrange(links, c, i, c.len() as int);
                assert(rest[0] == c[i]);
                assert(rest[rest.len() - 1] == c[c.len() - 1]);
                assert(is_walk(links, x, links[c[0] as int].0, rest));
                lemma_walk_join(links, root, x, links[c[0] as int].0, reach, rest);
                let whole = reach + rest;
                assert forall|j: int| 0 <= j < whole.len() implies !marked[links[(
                #[trigger] whole[j]) as int].0 as int] && !marked[links[whole[j] as int].1 as int] by {
                    if j < reach.len() {
                        assert(whole[j] == reach[j]);
                    } else {
                        assert(whole[j] == rest[j - reach.len()]);
                        assert(rest[j - reach.len()] == c[i + j - reach.len()]);
                    }
                }
                assert(is_fresh_walk(links, marked, root, links[c[0] as int].0, whole));
                assert(fresh_cycle_from(links, marked, root));
            }
        }
    }
}

/// What holds of the cycles listed so far: each is a cycle of the graph
/// that can be reached from a declared vertex, made of vertices that have
/// been visited, each once, and no vertex is in two of them.
#[verifier::opaque]
pub(crate) open spec fn is_listed(adjacency: &Adjacency, visited: Seq<bool>, cycles: Seq<Vec<usize>>) -> bool {
    let links = adjacency.links();
    &&& forall|k: int| 0 <= k < cycles.len() ==> is_cycle_through(links, (#[trigger] cycles[k])@)
    &&& forall|k: int, i: int|
        0 <= k < cycles.len() && 0 <= i < cycles[k].len() ==> (#[trigger] cycles[k][i])
            < adjacency.names.len() && visited[cycles[k][i] as int]
    &&& forall|k: int| 0 <= k < cycles.len() ==> (#[trigger] cycles[k])@.no_duplicates()
    &&& forall|k: int, l: int, i: int, j: int|
        0 <= k < l < cycles.len() && 0 <= i < cycles[k].len() && 0 <= j < cycles[l].len() ==> (
        #[trigger] cycles[k][i]) != (#[trigger] cycles[l][j])
    &&& forall|k: int|
        0 <= k < cycles.len() ==> reachable_from_some(
            links,
            adjacency.declared_vertices(),
            (#[trigger] cycles[k])[0],
        )
}

/// The list stays as it should be when more is visited.
pub(crate) proof fn lemma_listed_kept(
    adjacency: &Adjacency,
    marked: Seq<bool>,
    visited: Seq<bool>,
    cycles: Seq<Vec<usize>>,
)
    requires
        is_listed(adjacency, marked, cycles),
        forall|v: int| 0 <= v < adjacency.names.len() && marked[v] ==> #[trigger] visited[v],
    ensures
        is_listed(adjacency, visited, cycles),
{
    reveal(is_listed);
    assert forall|k: int, i: int| 0 <= k < cycles.len() && 0 <= i < cycles[k].len() implies (
    #[trigger] cycles[k][i]) < adjacency.names.len() && visited[cycles[k][i] as int] by {
        assert(marked[cycles[k][i] as int]);
    }
}

/// The list stays as it should be when a search from a declared vertex adds
/// the cycle that it found.
pub(crate) proof fn lemma_listed_grows(
    adjacency: &Adjacency,
    marked: Seq<bool>,
    visited: Seq<bool>,
    before: Seq<Vec<usize>>,
    cycles: Seq<Vec<usize>>,
    path: Seq<usize>,
    root: usize,
)
    requires
        adjacency.wf(),
        root < adjacency.declared,
        is_listed(adjacency, marked, before),
        forall|v: int| 0 <= v < adjacency.names.len() && marked[v] ==> #[trigger] visited[v],
        forall|v: int|
            0 <= v < adjacency.names.len() && #[trigger] visited[v] && !marked[v]
                ==> fresh_reachable(adjacency.links(), marked, root, v as usize),
        path.no_duplicates(),
        forall|i: int|
            0 <= i < path.len() ==> {
                &&& (#[trigger] path[i]) < adjacency.names.len()
                &&& !marked[path[i] as int]
                &&& visited[path[i] as int]
            },
        cycles.len() == before.len() + 1,
        cycles.subrange(0, before.len() as int) == before,
        is_cycle_through(adjacency.links(), cycles[before.len() as int]@),
        exists|p: int|
            0 <= p < path.len() && cycles[before.len() as int]@ == #[trigger] path.subrange(
                p,
                path.len() as int,
            ),
    ensures
        is_listed(adjacency, visited, cycles),
{
    reveal(is_listed);
    let links = adjacency.links();
    let n = adjacency.names.len();
    let added = cycles[before.len() as int];
    let p = choose|p: int|
        0 <= p < path.len() && added@ == #[trigger] path.subrange(p, path.len() as int);
    assert forall|i: int| 0 <= i < added.len() implies added@[i] == path[p + i] by {}
    assert forall|k: int| 0 <= k < before.len() implies cycles[k] == before[k] by {
        assert(cycles.subrange(0, before.len() as int)[k] == before[k]);
    }
    assert forall|k: int| 0 <= k < cycles.len() implies is_cycle_through(
        links,
        (#[trigger] cycles[k])@,
    ) by {
        if k < before.len() {
            assert(cycles[k] == before[k]);
        }
    }
    assert forall|k: int, i: int| 0 <= k < cycles.len() && 0 <= i < cycles[k].len() implies (
    #[trigger] cycles[k][i]) < n && visited[cycles[k][i] as int] by {
        if k < before.len() {
            assert(cycles[k] == before[k]);
            assert(before[k][i] < n && marked[before[k][i] as int]);
        } else {
            assert(added@[i] == path[p + i]);
        }
    }
    assert forall|k: int| 0 <= k < cycles.len() implies (#[trigger] cycles[k])@.no_duplicates() by {
        if k < before.len() {
            assert(cycles[k] == before[k]);
            assert(before[k]@.no_duplicates());
        } else {
            assert forall|i: int, j: int|
                0 <= i < added.len() && 0 <= j < added.len() && i != j implies added@[i]
                != added@[j] by {
                assert(path[p + i] != path[p + j]);
            }
        }
    }
    assert forall|k: int, l: int, i: int, j: int|
        0 <= k < l < cycles.len() && 0 <= i < cycles[k].len() && 0 <= j
            < cycles[l].len() implies (#[trigger] cycles[k][i]) != (#[trigger] cycles[l][j]) by {
        assert(cycles[k] == before[k]);
        if l < before.len() {
            assert(cycles[l] == before[l]);
            assert(before[k][i] != before[l][j]);
        } else {
            assert(marked[before[k][i] as int]);
            assert(added@[j] == path[p + j]);
            assert(!marked[path[p + j] as int]);
        }
    }
    assert forall|k: int| 0 <= k < cycles.len() implies reachable_from_some(
        links,
        adjacency.declared_vertices(),
        (#[trigger] cycles[k])[0],
    ) by {
        if k == before.len() {
            assert(added@.len() > 0) by {
                let steps = choose|steps: Seq<usize>|
                    #[trigger] is_cycle(links, steps) && steps.len() == added@.len();
            }
            assert(added@[0] == path[p]);
            let first = path[p];
            assert(visited[first as int] && !marked[first as int]);
            let steps = choose|steps: Seq<usize>| is_fresh_walk(links, marked, root, first, steps);
            assert(is_walk(links, root, first, steps));
            assert(adjacency.declared_vertices()[root as int] == root);
            assert(reachable(links, adjacency.declared_vertices()[root as int], first));
        } else {
            assert(cycles[k] == before[k]);
            assert(reachable_from_some(links, adjacency.declared_vertices(), before[k][0]));
        }
    }
}

/// The names of the cycles once a search has added one.
pub(crate) proof fn lemma_named_grows(
    adjacency: &Adjacency,
    before: Seq<Vec<usize>>,
    cycles: Seq<Vec<usize>>,
)
    requires
        cycles.len() == before.len() + 1,
        cycles.subrange(0, before.len() as int) == before,
        forall|i: int|
            0 <= i < cycles[before.len() as int].len() ==> (#[trigger] cycles[before.len() as int][i])
                < adjacency.names.len(),
    ensures
        adjacency.named(cycles) == adjacency.named(before).push(
            Seq::new(
                cycles[before.len() as int]@.len(),
                |i: int| views(adjacency.names@)[cycles[before.len() as int]@[i] as int],
            ),
        ),
{
    let added = cycles[before.len() as int]@;
    let longer = adjacency.named(cycles);
    let wanted = adjacency.named(before).push(
        Seq::new(added.len(), |i: int| views(adjacency.names@)[added[i] as int]),
    );
    assert forall|k: int| 0 <= k < longer.len() implies longer[k] =~= wanted[k] by {
        if k < before.len() {
            assert(cycles.subrange(0, before.len() as int)[k] == before[k]);
        } else {
            assert forall|i: int| 0 <= i < added.len() implies longer[k][i] == wanted[k][i] by {
                assert(cycles[before.len() as int][i] < adjacency.names.len());
            }
        }
    }
    assert(longer =~= wanted);
}

/// The state between the searches, after those from the first `root`
/// declared vertices.
#[verifier::opaque]
pub(crate) open spec fn sweeping(adjacency: &Adjacency, visited: Seq<bool>, cycles: Seq<Vec<usize>>, root: nat) -> bool {
    let links = adjacency.links();
    &&& visited.len() == adjacency.names.len()
    &&& root <= adjacency.declared
    &&& marks_agree(
        views(adjacency.names@),
        visited,
        marks_after(adjacency.named_links(), adjacency.roots(), root),
    )
    &&& adjacency.named(cycles) == cycles_after(adjacency.named_links(), adjacency.roots(), root)
    &&& cycles.len() <= root
    &&& is_listed(adjacency, visited, cycles)
    &&& cycles.len() > 0 ==> exists|r: usize|
        r < adjacency.declared && cycle_reachable_from(links, r)
    &&& cycles.len() == 0 ==> is_clear(adjacency, visited) && forall|v: int|
        0 <= v < root ==> visited[v]
}

pub(crate) proof fn lemma_sweeping_start(adjacency: &Adjacency, visited: Seq<bool>, cycles: Seq<Vec<usize>>)
    requires
        adjacency.wf(),
        visited.len() == adjacency.names.len(),
        forall|v: int| 0 <= v < visited.len() ==> !visited[v],
        cycles.len() == 0,
    ensures
        sweeping(adjacency, visited, cycles, 0),
{
    reveal(sweeping);
    reveal(is_listed);
    assert(adjacency.named(cycles) =~= cycles_after(
        adjacency.named_links(),
        adjacency.roots(),
        0,
    ));
}

/// A declared vertex that has been visited is not searched from.
pub(crate) proof fn lemma_sweeping_skip(
    adjacency: &Adjacency,
    visited: Seq<bool>,
    cycles: Seq<Vec<usize>>,
    root: usize,
)
    requires
        adjacency.wf(),
        sweeping(adjacency, visited, cycles, root as nat),
        root < adjacency.declared,
        visited[root as int],
    ensures
        sweeping(adjacency, visited, cycles, (root + 1) as nat),
{
    reveal(sweeping);
    lemma_named_links(adjacency);
    lemma_search_step(
        views(adjacency.names@),
        adjacency.links(),
        adjacency.named_links(),
        adjacency.roots(),
        root,
        visited,
        visited,
        false,
        Seq::empty(),
        Seq::empty(),
    );
}

/// A search from a declared vertex that has not been visited takes the
/// state one step on.
pub(crate) proof fn lemma_sweeping_search(
    adjacency: &Adjacency,
    root: usize,
    marked: Seq<bool>,
    flags: Seq<bool>,
    before: Seq<Vec<usize>>,
    visited: Seq<bool>,
    rec_stack: Seq<bool>,
    path: Seq<usize>,
    cycles: Seq<Vec<usize>>,
    found: bool,
)
    requires
        adjacency.wf(),
        sweeping(adjacency, marked, before, root as nat),
        root < adjacency.declared,
        !marked[root as int],
        is_search_outcome(
            adjacency,
            root,
            marked,
            flags,
            before,
            visited,
            rec_stack,
            path,
            cycles,
            found,
        ),
    ensures
        sweeping(adjacency, visited, cycles, (root + 1) as nat),
{
    reveal(sweeping);
    let links = adjacency.links();
    let names = views(adjacency.names@);
    lemma_named_links(adjacency);
    let added = if found {
        cycles[before.len() as int]@
    } else {
        Seq::<usize>::empty()
    };
    lemma_search_step(
        names,
        links,
        adjacency.named_links(),
        adjacency.roots(),
        root,
        marked,
        visited,
        found,
        path,
        added,
    );
    if found {
        lemma_fresh_cycle(adjacency, marked, root);
        let lasso = choose|lasso: Seq<usize>|
            finds(links, marked, root, lasso, visited, path, added);
        let p = choose|p: int|
            0 <= p < path.len() && #[trigger] path[p] == links[lasso[lasso.len() - 1] as int].1
                && added == path.subrange(p, path.len() as int);
        assert(added == path.subrange(p, path.len() as int));
        lemma_listed_grows(adjacency, marked, visited, before, cycles, path, root);
        assert(forall|i: int|
            0 <= i < cycles[before.len() as int].len() ==> (
            #[trigger] cycles[before.len() as int][i]) < adjacency.names.len()) by {
            reveal(is_listed);
        }
        lemma_named_grows(adjacency, before, cycles);
    } else {
        lemma_listed_kept(adjacency, marked, visited, before);
        if before.len() == 0 {
            lemma_clear_grows(adjacency, marked, visited, root);
            assert(is_fresh_walk(links, marked, root, root, Seq::empty()));
        }
    }
}

/// What the searches from all declared vertices have found.
pub(crate) proof fn lemma_sweeping_end(adjacency: &Adjacency, visited: Seq<bool>, cycles: Seq<Vec<usize>>)
    requires
        adjacency.wf(),
        sweeping(adjacency, visited, cycles, adjacency.declared as nat),
    ensures
        cycles.len() > 0 <==> exists|root: usize|
            root < adjacency.declared && cycle_reachable_from(adjacency.links(), root),
        cycles.len() <= adjacency.declared,
        forall|k: int|
            0 <= k < cycles.len() ==> is_cycle_through(adjacency.links(), (#[trigger] cycles[k])@),
        forall|k: int, i: int|
            0 <= k < cycles.len() && 0 <= i < cycles[k].len() ==> (#[trigger] cycles[k][i])
                < adjacency.names.len(),
        forall|k: int| 0 <= k < cycles.len() ==> (#[trigger] cycles[k])@.no_duplicates(),
        forall|k: int, l: int, i: int, j: int|
            0 <= k < l < cycles.len() && 0 <= i < cycles[k].len() && 0 <= j < cycles[l].len()
                ==> (#[trigger] cycles[k][i]) != (#[trigger] cycles[l][j]),
        forall|k: int|
            0 <= k < cycles.len() ==> reachable_from_some(
                adjacency.links(),
                adjacency.declared_vertices(),
                (#[trigger] cycles[k])[0],
            ),
        adjacency.named(cycles) == cycles_after(
            adjacency.named_links(),
            adjacency.roots(),
            adjacency.declared as nat,
        ),
{
    reveal(sweeping);
    reveal(is_listed);
    let links = adjacency.links();
    if cycles.len() == 0 {
        assert forall|r: usize| r < adjacency.declared implies !cycle_reachable_from(links, r) by {
            if cycle_reachable_from(links, r) {
                let c = choose|c: Seq<usize>|
                    #[trigger] is_cycle(links, c) && reachable(links, r, links[c[0] as int].0);
                let steps = choose|steps: Seq<usize>| is_walk(links, r, links[c[0] as int].0, steps);
                lemma_clear_walk(adjacency, visited, r, links[c[0] as int].0, steps);
            }
        }
    }
}

} // verus!
