//! Cycle detection by depth-first search.
//!
//! The search keeps its own stack of vertices, each with the position of the
//! next edge to follow, so that its depth is not bounded by the call stack.
//! It reports at most one cycle for each vertex from which it starts, the
//! first that it meets.
//!
//! The notions of this module speak of numbered vertices, with marks kept as
//! one flag for each vertex. The module `search` states the same notions
//! for vertices of any kind, with the marks as a set, and says in them what
//! the searches from all declared nodes find.

use vstd::prelude::*;
use crate::adjacency::{
    Adjacency,
    lemma_indexes,
};
use crate::descent::{
    next_edge,
    next_vertex,
    snapshot,
};
use crate::model::{
    CycleDetectionResult,
    Graph,
    cycle_names,
    views,
};
use crate::search::cycles_after;
use crate::sequences::{
    filled,
    first_occurrences,
    lemma_first_occurrences_set,
    position_in,
    tail_from,
};
use crate::sweep::{
    lemma_sweeping_end,
    lemma_sweeping_search,
    lemma_sweeping_skip,
    lemma_sweeping_start,
    sweeping,
};
use crate::tracing::{
    holds,
    lemma_holds_bounds,
    lemma_holds_end,
    lemma_holds_enter,
    lemma_holds_found,
    lemma_holds_leave,
    lemma_holds_marks,
    lemma_holds_pass,
    lemma_holds_start,
    met_lasso,
};
use crate::walks::{
    cycle_reachable_from,
    is_cycle,
    is_cycle_through,
    is_walk,
    lemma_relabel_cycle_from,
    lemma_relabel_cycle_through,
    lemma_relabel_walk,
    lex_lt,
    reachable,
    reachable_from_some,
    relabels,
    trail,
};

verus! {

/// No vertex on the chain is marked.
pub open spec fn avoids(links: Seq<(usize, usize)>, marked: Seq<bool>, steps: Seq<usize>) -> bool {
    forall|i: int|
        0 <= i < steps.len() ==> !marked[links[(#[trigger] steps[i]) as int].0 as int]
            && !marked[links[steps[i] as int].1 as int]
}

/// A walk from `from` to `to` on which no vertex is marked.
pub open spec fn is_fresh_walk(
    links: Seq<(usize, usize)>,
    marked: Seq<bool>,
    from: usize,
    to: usize,
    steps: Seq<usize>,
) -> bool {
    &&& is_walk(links, from, to, steps)
    &&& avoids(links, marked, steps)
    &&& !marked[from as int]
}

/// `to` can be reached from `from` without passing a marked vertex.
pub open spec fn fresh_reachable(
    links: Seq<(usize, usize)>,
    marked: Seq<bool>,
    from: usize,
    to: usize,
) -> bool {
    exists|steps: Seq<usize>| is_fresh_walk(links, marked, from, to, steps)
}

/// Some cycle without a marked vertex can be reached from `root` without
/// passing a marked vertex.
pub open spec fn fresh_cycle_from(links: Seq<(usize, usize)>, marked: Seq<bool>, root: usize) -> bool {
    exists|steps: Seq<usize>|
        #[trigger] is_cycle(links, steps) && avoids(links, marked, steps) && fresh_reachable(
            links,
            marked,
            root,
            links[steps[0] as int].0,
        )
}

/// The vertex at which a chain from `root` ends.
pub open spec fn path_end(links: Seq<(usize, usize)>, root: usize, steps: Seq<usize>) -> usize {
    if steps.len() == 0 {
        root
    } else {
        links[steps[steps.len() - 1] as int].1
    }
}

/// A path from `root`: a walk on which no vertex is marked and none occurs
/// twice.
pub open spec fn is_fresh_path(
    links: Seq<(usize, usize)>,
    marked: Seq<bool>,
    root: usize,
    steps: Seq<usize>,
) -> bool {
    &&& is_fresh_walk(links, marked, root, path_end(links, root, steps), steps)
    &&& trail(links, root, steps).no_duplicates()
}

/// A path from `root` and then one edge that leads back to a vertex on it.
pub open spec fn is_lasso(
    links: Seq<(usize, usize)>,
    marked: Seq<bool>,
    root: usize,
    steps: Seq<usize>,
) -> bool {
    &&& steps.len() > 0
    &&& is_fresh_path(links, marked, root, steps.drop_last())
    &&& steps[steps.len() - 1] < links.len()
    &&& links[steps[steps.len() - 1] as int].0 == path_end(links, root, steps.drop_last())
    &&& trail(links, root, steps.drop_last()).contains(links[steps[steps.len() - 1] as int].1)
}

/// The lasso that comes first in dictionary order: the one that a search in
/// depth meets first when it follows the edges of each vertex in their
/// order.
pub open spec fn is_first_lasso(
    links: Seq<(usize, usize)>,
    marked: Seq<bool>,
    root: usize,
    steps: Seq<usize>,
) -> bool {
    &&& is_lasso(links, marked, root, steps)
    &&& forall|other: Seq<usize>| #[trigger]
        is_lasso(links, marked, root, other) ==> other == steps || lex_lt(steps, other)
}

/// Some path from `root` to `v` comes before `lasso` in dictionary order, or
/// is the beginning of it: the search has entered `v` by the time it meets
/// the lasso.
pub open spec fn is_searched_before(
    links: Seq<(usize, usize)>,
    marked: Seq<bool>,
    root: usize,
    lasso: Seq<usize>,
    v: usize,
) -> bool {
    exists|q: Seq<usize>|
        #[trigger] is_fresh_path(links, marked, root, q) && path_end(links, root, q) == v && (
        lex_lt(q, lasso) || q.is_prefix_of(lasso.drop_last()))
}

/// A search from `root` that met `lasso` leaves this behind: the path of the
/// lasso on its stack, the part of it from the vertex where the lasso closes
/// as the cycle, and visited what it entered before it met the lasso.
pub open spec fn finds(
    links: Seq<(usize, usize)>,
    marked: Seq<bool>,
    root: usize,
    lasso: Seq<usize>,
    visited: Seq<bool>,
    path: Seq<usize>,
    cycle: Seq<usize>,
) -> bool {
    &&& is_first_lasso(links, marked, root, lasso)
    &&& path == trail(links, root, lasso.drop_last())
    &&& exists|p: int|
        0 <= p < path.len() && #[trigger] path[p] == links[lasso[lasso.len() - 1] as int].1 && cycle
            == path.subrange(p, path.len() as int)
    &&& forall|v: int|
        0 <= v < visited.len() ==> (#[trigger] visited[v] <==> marked[v] || is_searched_before(
            links,
            marked,
            root,
            lasso,
            v as usize,
        ))
}

/// The outcome of a search from `node`. `marked`, `flags` and `before` are
/// the two sets of marks and the cycles as they were when it began;
/// `visited`, `rec_stack`, `path` and `cycles` are what it leaves behind.
///
/// The search finds something exactly if a cycle can be reached from `node`
/// through vertices that were not marked. It then leaves the path of the
/// first lasso on the stack and has added the cycle of that lasso; else it
/// has added nothing, its stack is empty, and it has visited all that can be
/// reached from `node` through vertices that were not marked. In `rec_stack`
/// the vertices that it has visited carry a mark exactly while they are on
/// the stack.
pub open spec fn is_search_outcome(
    adjacency: &Adjacency,
    node: usize,
    marked: Seq<bool>,
    flags: Seq<bool>,
    before: Seq<Vec<usize>>,
    visited: Seq<bool>,
    rec_stack: Seq<bool>,
    path: Seq<usize>,
    cycles: Seq<Vec<usize>>,
    found: bool,
) -> bool {
    let n = adjacency.names.len();
    let links = adjacency.links();
    &&& visited.len() == n
    &&& rec_stack.len() == n
    &&& found <==> fresh_cycle_from(links, marked, node)
    &&& forall|v: int| 0 <= v < n && marked[v] ==> #[trigger] visited[v]
    &&& forall|v: int|
        0 <= v < n && #[trigger] visited[v] && !marked[v] ==> fresh_reachable(
            links,
            marked,
            node,
            v as usize,
        )
    &&& forall|v: int|
        0 <= v < n ==> #[trigger] rec_stack[v] == (if visited[v] && !marked[v] {
            path.contains(v as usize)
        } else {
            flags[v]
        })
    &&& path.no_duplicates()
    &&& forall|i: int|
        0 <= i < path.len() ==> {
            &&& (#[trigger] path[i]) < n
            &&& !marked[path[i] as int]
            &&& visited[path[i] as int]
        }
    &&& found ==> {
        &&& cycles.len() == before.len() + 1
        &&& cycles.subrange(0, before.len() as int) == before
        &&& is_cycle_through(links, cycles[before.len() as int]@)
        &&& exists|lasso: Seq<usize>|
            finds(links, marked, node, lasso, visited, path, cycles[before.len() as int]@)
    }
    &&& !found ==> {
        &&& cycles == before
        &&& path.len() == 0
        &&& forall|v: int|
            0 <= v < n && fresh_reachable(links, marked, node, v as usize) ==> #[trigger] visited[v]
    }
}

/// Searches depth-first from `node`, which has not been visited, for a cycle
/// among the vertices that have not been visited.
///
/// `visited` and `rec_stack` are the marks of earlier searches; `path` is
/// empty. The search enters only vertices that were not visited and marks
/// them, and follows the edges of each vertex in their order. It stops at
/// the first edge that leads back to a vertex on its own stack: the stack
/// and that edge are then the first lasso from `node`. It appends the cycle
/// of the lasso to `cycles` and leaves the stack in `path`, with its
/// vertices still marked in `rec_stack`. Without such an edge it visits all
/// that can be reached from `node` through vertices that were not visited,
/// and leaves `path` empty.
pub fn dfs_cycle_detection(
    node: usize,
    adjacency: &Adjacency,
    visited: &mut Vec<bool>,
    rec_stack: &mut Vec<bool>,
    path: &mut Vec<usize>,
    cycles: &mut Vec<Vec<usize>>,
) -> (found: bool)
    requires
        adjacency.wf(),
        node < adjacency.names.len(),
        old(visited).len() == adjacency.names.len(),
        old(rec_stack).len() == adjacency.names.len(),
        !old(visited)[node as int],
        old(path).len() == 0,
    ensures
        is_search_outcome(
            adjacency,
            node,
            old(visited)@,
            old(rec_stack)@,
            old(cycles)@,
            final(visited)@,
            final(rec_stack)@,
            final(path)@,
            final(cycles)@,
            found,
        ),
{
    let n = adjacency.names.len();
    let m = adjacency.sources.len();
    let ghost marked = visited@;
    let ghost flags = rec_stack@;
    let ghost before = cycles@;
    let ghost mut walk: Seq<usize> = Seq::empty();
    let ghost mut entered: Seq<usize> = seq![node];
    let ghost mut examined: Seq<usize> = Seq::empty();
    let ghost mut tree: Seq<Seq<usize>> = Seq::new(n as nat, |v: int| Seq::<usize>::empty());
    let mut cursors: Vec<usize> = Vec::new();
    visited[node] = true;
    rec_stack[node] = true;
    path.push(node);
    cursors.push(0);
    proof {
        lemma_holds_start(adjacency, marked, flags, node);
        assert(path@ =~= seq![node]);
        assert(cursors@ =~= seq![0usize]);
    }
    while path.len() > 0
        invariant
            adjacency.wf(),
            n == adjacency.names.len(),
            m == adjacency.sources.len(),
            marked == old(visited)@,
            flags == old(rec_stack)@,
            cycles@ == old(cycles)@,
            holds(
                adjacency,
                snapshot(
                    marked,
                    flags,
                    node,
                    visited@,
                    rec_stack@,
                    path@,
                    cursors@,
                    walk,
                    entered,
                    examined,
                ),
                tree,
            ),
        decreases 2 * (n - entered.len()) + (m - examined.len()) + path.len(),
    {
        let ghost s = snapshot(
            marked,
            flags,
            node,
            visited@,
            rec_stack@,
            path@,
            cursors@,
            walk,
            entered,
            examined,
        );
        proof {
            lemma_holds_bounds(adjacency, s, tree);
        }
        let top = path.len() - 1;
        let u = path[top];
        let k = cursors[top];
        let list = &adjacency.outgoing[u];
        if k < list.len() {
            assert(adjacency.lists_outgoing(u as int));
            let e = list[k];
            let w = adjacency.targets[e];
            assert(e == next_edge(adjacency, s) && w == next_vertex(adjacency, s));
            if !visited[w] {
                proof {
                    lemma_holds_enter(adjacency, s, tree);
                    tree = tree.update(w as int, walk.push(e));
                    walk = walk.push(e);
                    entered = entered.push(w);
                    examined = examined.push(e);
                }
                cursors[top] = k + 1;
                visited[w] = true;
                rec_stack[w] = true;
                path.push(w);
                cursors.push(0);
            } else {
                let on_stack = if rec_stack[w] {
                    position_in(path, w)
                } else {
                    None
                };
                match on_stack {
                    Some(p) => {
                        let cycle = tail_from(path, p);
                        cycles.push(cycle);
                        proof {
                            lemma_holds_found(adjacency, s, tree, p as int);
                            lemma_holds_marks(adjacency, s, tree);
                            let count = old(cycles)@.len() as int;
                            assert(cycles@.subrange(0, count) =~= old(cycles)@);
                            assert(cycles@[count]@ == s.path.subrange(p as int, s.path.len() as int));
                            assert(finds(
                                adjacency.links(),
                                marked,
                                node,
                                met_lasso(adjacency, s),
                                visited@,
                                path@,
                                cycles@[count]@,
                            ));
                        }
                        return true;
                    },
                    None => {
                        proof {
                            lemma_holds_pass(adjacency, s, tree);
                            examined = examined.push(e);
                        }
                        cursors[top] = k + 1;
                    },
                }
            }
        } else {
            proof {
                lemma_holds_leave(adjacency, s, tree);
                if walk.len() > 0 {
                    walk = walk.drop_last();
                }
            }
            rec_stack[u] = false;
            path.pop();
            cursors.pop();
        }
        proof {
            lemma_holds_bounds(
                adjacency,
                snapshot(
                    marked,
                    flags,
                    node,
                    visited@,
                    rec_stack@,
                    path@,
                    cursors@,
                    walk,
                    entered,
                    examined,
                ),
                tree,
            );
        }
    }
    proof {
        let s = snapshot(
            marked,
            flags,
            node,
            visited@,
            rec_stack@,
            path@,
            cursors@,
            walk,
            entered,
            examined,
        );
        lemma_holds_bounds(adjacency, s, tree);
        lemma_holds_marks(adjacency, s, tree);
        lemma_holds_end(adjacency, s, tree);
    }
    false
}

/// Searches from each declared vertex in turn that no earlier search has
/// visited, and collects the cycles found: at most one for each search.
pub fn find_cycles(adjacency: &Adjacency) -> (cycles: Vec<Vec<usize>>)
    requires
        adjacency.wf(),
    ensures
        cycles.len() > 0 <==> exists|root: usize|
            root < adjacency.declared && cycle_reachable_from(adjacency.links(), root),
        cycles.len() <= adjacency.declared,
        forall|k: int|
            0 <= k < cycles.len() ==> is_cycle_through(adjacency.links(), (#[trigger] cycles[k])@),
        forall|k: int, i: int|
            0 <= k < cycles.len() && 0 <= i < cycles[k].len() ==> (#[trigger] cycles[k][i])
                < adjacency.names.len(),
        forall|k: int| 0 <= k < cycles.len() ==> (#[trigger] cycles[k])@.no_duplicates(),
        forall|k: int, l: int, i: int, j: int|
            0 <= k < l < cycles.len() && 0 <= i < cycles[k].len() && 0 <= j < cycles[l].len()
                ==> (#[trigger] cycles[k][i]) != (#[trigger] cycles[l][j]),
        forall|k: int|
            0 <= k < cycles.len() ==> reachable_from_some(
                adjacency.links(),
                adjacency.declared_vertices(),
                (#[trigger] cycles[k])[0],
            ),
        adjacency.named(cycles@) == cycles_after(
            adjacency.named_links(),
            adjacency.roots(),
            adjacency.declared as nat,
        ),
{
    let n = adjacency.names.len();
    let mut visited: Vec<bool> = filled(n, false);
    let mut rec_stack: Vec<bool> = filled(n, false);
    let mut cycles: Vec<Vec<usize>> = Vec::new();
    let mut root: usize = 0;
    proof {
        lemma_sweeping_start(adjacency, visited@, cycles@);
    }
    while root < adjacency.declared
        invariant
            adjacency.wf(),
            n == adjacency.names.len(),
            root <= adjacency.declared,
            visited.len() == n,
            rec_stack.len() == n,
            sweeping(adjacency, visited@, cycles@, root as nat),
        decreases adjacency.declared - root,
    {
        if !visited[root] {
            let ghost marked = visited@;
            let ghost flags = rec_stack@;
            let ghost before = cycles@;
            let mut path: Vec<usize> = Vec::new();
            let found = dfs_cycle_detection(
                root,
                adjacency,
                &mut visited,
                &mut rec_stack,
                &mut path,
                &mut cycles,
            );
            proof {
                lemma_sweeping_search(
                    adjacency,
                    root,
                    marked,
                    flags,
                    before,
                    visited@,
                    rec_stack@,
                    path@,
                    cycles@,
                    found,
                );
            }
        } else {
            proof {
                lemma_sweeping_skip(adjacency, visited@, cycles@, root);
            }
        }
        root = root + 1;
    }
    proof {
        lemma_sweeping_end(adjacency, visited@, cycles@);
    }
    cycles
}

impl CycleDetectionResult {
    /// This is the outcome of searching `graph` for cycles: `has_cycle` says
    /// whether a cycle can be reached from a declared node, and there is an
    /// entry in `cycles` exactly if it holds. Each entry lists the nodes of a
    /// cycle of the graph in order, each node once; the cycle can be reached
    /// from a declared node, and no node is listed in two entries. The
    /// entries are the cycles that searches in depth from the declared nodes
    /// find, in the order of their declaration.
    pub open spec fn detects<W>(&self, graph: &Graph<W>) -> bool {
        &&& self.has_cycle == (self.cycles.len() > 0)
        &&& self.has_cycle <==> exists|i: int|
            0 <= i < graph.nodes.len() && cycle_reachable_from(
                graph.links(),
                #[trigger] graph.labels()[i],
            )
        &&& forall|k: int|
            0 <= k < self.cycles.len() ==> is_cycle_through(
                graph.links(),
                views((#[trigger] self.cycles[k])@),
            )
        &&& forall|k: int|
            0 <= k < self.cycles.len() ==> views((#[trigger] self.cycles[k])@).no_duplicates()
        &&& forall|k: int, l: int, i: int, j: int|
            0 <= k < l < self.cycles.len() && 0 <= i < self.cycles[k].len() && 0 <= j
                < self.cycles[l].len() ==> (#[trigger] self.cycles[k][i])@ != (
            #[trigger] self.cycles[l][j])@
        &&& forall|k: int|
            0 <= k < self.cycles.len() ==> reachable_from_some(
                graph.links(),
                graph.labels(),
                (#[trigger] self.cycles[k])[0]@,
            )
        &&& self.cycles.len() <= graph.nodes.len()
        &&& cycle_names(self.cycles@) == cycles_after(
            graph.links(),
            first_occurrences(graph.labels()),
            first_occurrences(graph.labels()).len(),
        )
    }
}

/// Searches `graph` for cycles, depth-first from each declared node in turn.
///
/// The flag is exact: it is set if and only if some cycle can be reached
/// from a declared node. The list is not exhaustive: each search follows
/// the edges of a node in their order, reports the first cycle that it
/// meets, and skips what earlier searches entered. Edges between identities
/// that were not declared are followed like any other, but no search starts
/// from such an identity.
pub fn detect_cycles_in_graph<W>(graph: &Graph<W>) -> (result: CycleDetectionResult)
    ensures
        result.detects(graph),
{
    let adjacency = Adjacency::build(graph);
    let found = find_cycles(&adjacency);
    let ghost names = views(adjacency.names@);
    let ghost links = graph.links();
    proof {
        lemma_indexes(&adjacency, graph);
        lemma_first_occurrences_set(graph.labels());
    }
    let mut cycles: Vec<Vec<String>> = Vec::new();
    let mut k: usize = 0;
    while k < found.len()
        invariant
            k <= found.len(),
            cycles.len() == k,
            names == views(adjacency.names@),
            links == graph.links(),
            relabels(names, adjacency.links(), links),
            forall|j: int|
                0 <= j < found.len() ==> is_cycle_through(adjacency.links(), (#[trigger] found[j])@),
            forall|j: int, i: int|
                0 <= j < found.len() && 0 <= i < found[j].len() ==> (#[trigger] found[j][i])
                    < adjacency.names.len(),
            forall|j: int| 0 <= j < k ==> is_cycle_through(links, views((#[trigger] cycles[j])@)),
            forall|j: int|
                0 <= j < k ==> views((#[trigger] cycles[j])@) == Seq::new(
                    found[j].len() as nat,
                    |i: int| names[found[j][i] as int],
                ),
        decreases found.len() - k,
    {
        let cycle = &found[k];
        assert forall|i: int| 0 <= i < cycle.len() implies (#[trigger] cycle[i])
            < adjacency.names.len() by {
            assert(found[k as int][i] < adjacency.names.len());
        }
        let named = adjacency.names_of(cycle);
        proof {
            lemma_relabel_cycle_through(names, adjacency.links(), links, cycle@);
        }
        cycles.push(named);
        k = k + 1;
    }
    let has_cycle = cycles.len() > 0;
    proof {
        assert(cycle_names(cycles@) =~= adjacency.named(found@)) by {
            assert forall|j: int| 0 <= j < cycles.len() implies cycle_names(cycles@)[j]
                =~= adjacency.named(found@)[j] by {
                assert(views(cycles[j]@) == Seq::new(
                    found[j].len() as nat,
                    |i: int| names[found[j][i] as int],
                ));
            }
        }
        assert forall|j: int, i: int|
            0 <= j < cycles.len() && 0 <= i < cycles[j].len() implies found[j].len()
            == cycles[j].len() && (#[trigger] cycles[j][i])@ == names[found[j][i] as int] by {
            assert(views(cycles[j]@)[i] == cycles[j][i]@);
        }
        assert forall|j: int| 0 <= j < cycles.len() implies views(
            (#[trigger] cycles[j])@,
        ).no_duplicates() by {
            let named = views(cycles[j]@);
            assert forall|a: int, b: int|
                0 <= a < named.len() && 0 <= b < named.len() && a != b implies named[a]
                != named[b] by {
                assert(found[j]@[a] != found[j]@[b]);
                assert(found[j][a] < adjacency.names.len() && found[j][b] < adjacency.names.len());
            }
        }
        assert forall|a: int, b: int, i: int, j: int|
            0 <= a < b < cycles.len() && 0 <= i < cycles[a].len() && 0 <= j
                < cycles[b].len() implies (#[trigger] cycles[a][i])@ != (#[trigger] cycles[b][j])@ by {
            assert(found[a][i] != found[b][j]);
            assert(found[a][i] < adjacency.names.len() && found[b][j] < adjacency.names.len());
        }
        assert forall|j: int| 0 <= j < cycles.len() implies reachable_from_some(
            links,
            graph.labels(),
            (#[trigger] cycles[j])[0]@,
        ) by {
            assert(reachable_from_some(
                adjacency.links(),
                adjacency.declared_vertices(),
                found[j][0],
            ));
            let at = choose|at: int|
                0 <= at < adjacency.declared_vertices().len() && reachable(
                    adjacency.links(),
                    #[trigger] adjacency.declared_vertices()[at],
                    found[j][0],
                );
            let r = adjacency.declared_vertices()[at];
            let steps = choose|steps: Seq<usize>| is_walk(adjacency.links(), r, found[j][0], steps);
            let c = choose|c: Seq<usize>|
                #[trigger] is_cycle(adjacency.links(), c) && c.len() == found[j]@.len();
            assert(found[j].len() > 0);
            assert(found[j][0] < adjacency.names.len());
            lemma_relabel_walk(names, adjacency.links(), links, r, found[j][0], steps);
            assert(graph.labels().contains(names[r as int]));
            let i = choose|i: int| 0 <= i < graph.labels().len() && graph.labels()[i] == names[r as int];
            assert(cycles[j][0]@ == names[found[j][0] as int]);
            assert(is_walk(links, graph.labels()[i], cycles[j][0]@, steps));
            assert(reachable(links, graph.labels()[i], cycles[j][0]@));
        }
        if has_cycle {
            let r = choose|r: usize|
                r < adjacency.declared && cycle_reachable_from(adjacency.links(), r);
            lemma_relabel_cycle_from(names, adjacency.links(), links, r);
            assert(graph.labels().contains(names[r as int]));
            let i = choose|i: int| 0 <= i < graph.labels().len() && graph.labels()[i] == names[r as int];
            assert(cycle_reachable_from(links, graph.labels()[i]));
        } else {
            assert forall|i: int| 0 <= i < graph.nodes.len() implies !cycle_reachable_from(
                links,
                #[trigger] graph.labels()[i],
            ) by {
                let v = choose|v: int|
                    0 <= v < adjacency.declared && names[v] == graph.labels()[i];
                lemma_relabel_cycle_from(names, adjacency.links(), links, v as usize);
            }
        }
    }
    CycleDetectionResult { has_cycle, cycles }
}

} // verus!
