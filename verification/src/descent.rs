//! The invariant of a search in depth, and how each step of the search
//! keeps it.
//!
//! The search has a stack of vertices with a cursor at each. A vertex that it
//! has left is settled: every edge from it leads to a vertex that was marked
//! before the search or has been left too, and no cycle passes through it.

use vstd::prelude::*;
use crate::adjacency::Adjacency;
use crate::cycle_detection::{
    avoids,
    fresh_cycle_from,
    fresh_reachable,
    is_fresh_path,
    is_fresh_walk,
    path_end,
};
use crate::sequences::lemma_distinct_below;
use crate::tracing::holds;
use crate::walks::{
    is_cycle,
    is_cycle_through,
    is_walk,
    lemma_walk_drop_last,
    lemma_walk_push,
    trail,
};

verus! {

/// The state of a search in depth, as the proofs see it.
pub(crate) struct Descent {
    pub(crate) marked: Seq<bool>,
    pub(crate) flags: Seq<bool>,
    pub(crate) root: usize,
    pub(crate) visited: Seq<bool>,
    pub(crate) rec_stack: Seq<bool>,
    pub(crate) path: Seq<usize>,
    pub(crate) cursors: Seq<usize>,
    pub(crate) walk: Seq<usize>,
    pub(crate) entered: Seq<usize>,
    pub(crate) examined: Seq<usize>,
}

/// The search has entered and left `v`.
pub(crate) open spec fn is_black(marked: Seq<bool>, visited: Seq<bool>, path: Seq<usize>, v: int) -> bool {
    visited[v] && !marked[v] && !path.contains(v as usize)
}

/// The search will not enter `v`: it was marked before, or has been left.
pub(crate) open spec fn is_settled(marked: Seq<bool>, visited: Seq<bool>, path: Seq<usize>, v: int) -> bool {
    marked[v] || is_black(marked, visited, path, v)
}

/// The edge that was followed last from the vertex at `i` on the stack leads
/// to the vertex above it.
pub(crate) open spec fn is_linked(
    adjacency: &Adjacency,
    path: Seq<usize>,
    cursors: Seq<usize>,
    walk: Seq<usize>,
    i: int,
) -> bool {
    &&& cursors[i] >= 1
    &&& walk[i] == adjacency.outgoing[path[i] as int][cursors[i] - 1]
    &&& adjacency.links()[walk[i] as int] == (path[i], path[i + 1])
}

/// The state of a search from `root`. `marked` and `flags` are the two sets
/// of marks as they were when it began; `path` is the stack, `cursors` the
/// position of the next edge to follow at each vertex on it, and `walk` the
/// edges that lead along it. `entered` and `examined` list what has been
/// entered and followed so far.
#[verifier::opaque]
pub(crate) open spec fn descending(adjacency: &Adjacency, s: Descent) -> bool {
    let marked = s.marked;
    let flags = s.flags;
    let root = s.root;
    let visited = s.visited;
    let rec_stack = s.rec_stack;
    let path = s.path;
    let cursors = s.cursors;
    let walk = s.walk;
    let entered = s.entered;
    let examined = s.examined;
    let n = adjacency.names.len() as int;
    let m = adjacency.sources.len() as int;
    let links = adjacency.links();
    &&& visited.len() == n
    &&& rec_stack.len() == n
    &&& marked.len() == n
    &&& flags.len() == n
    &&& cursors.len() == path.len()
    &&& path.len() > 0 ==> walk.len() == path.len() - 1 && path[0] == root
    &&& path.len() == 0 ==> walk.len() == 0
    &&& root < n
    &&& !marked[root as int]
    &&& visited[root as int]
    &&& path.no_duplicates()
    &&& forall|i: int|
        0 <= i < path.len() ==> {
            &&& (#[trigger] path[i]) < n
            &&& visited[path[i] as int]
            &&& !marked[path[i] as int]
            &&& cursors[i] <= adjacency.outgoing[path[i] as int]@.len()
        }
    &&& forall|i: int| 0 <= i < path.len() - 1 ==> #[trigger] is_linked(adjacency, path, cursors, walk, i)
    &&& forall|v: int| 0 <= v < n && marked[v] ==> #[trigger] visited[v]
    &&& forall|v: int|
        0 <= v < n ==> #[trigger] rec_stack[v] == (if visited[v] && !marked[v] {
            path.contains(v as usize)
        } else {
            flags[v]
        })
    &&& forall|v: int|
        0 <= v < n && #[trigger] visited[v] && !marked[v] ==> fresh_reachable(
            links,
            marked,
            root,
            v as usize,
        )
    &&& forall|i: int, j: int|
        0 <= i < path.len() && 0 <= j < cursors[i] && (i == path.len() - 1 || j < cursors[i] - 1)
            ==> is_settled(
            marked,
            visited,
            path,
            adjacency.targets[(#[trigger] adjacency.outgoing[path[i] as int][j]) as int] as int,
        )
    &&& forall|e: int|
        0 <= e < m && is_black(marked, visited, path, (#[trigger] adjacency.sources[e]) as int)
            ==> is_settled(marked, visited, path, adjacency.targets[e] as int)
    &&& forall|c: Seq<usize>| #[trigger]
        is_cycle(links, c) && avoids(links, marked, c) ==> forall|i: int|
            0 <= i < c.len() ==> !is_black(marked, visited, path, links[(#[trigger] c[i]) as int].0 as int)
    &&& entered.no_duplicates()
    &&& forall|i: int| 0 <= i < entered.len() ==> (#[trigger] entered[i]) < n && visited[entered[i] as int]
    &&& examined.no_duplicates()
    &&& forall|x: int|
        0 <= x < examined.len() ==> {
            &&& (#[trigger] examined[x]) < m
            &&& visited[adjacency.sources[examined[x] as int] as int]
            &&& forall|i: int|
                0 <= i < path.len() && #[trigger] path[i] == adjacency.sources[examined[x] as int]
                    ==> exists|j: int|
                    0 <= j < cursors[i] && #[trigger] adjacency.outgoing[path[i] as int][j]
                        == examined[x]
        }
}

/// What the loop needs to know of the state.
pub(crate) proof fn lemma_descending_shape(adjacency: &Adjacency, s: Descent)
    requires
        adjacency.wf(),
        descending(adjacency, s),
    ensures
        s.visited.len() == adjacency.names.len(),
        s.rec_stack.len() == adjacency.names.len(),
        s.cursors.len() == s.path.len(),
        s.entered.len() <= adjacency.names.len(),
        s.examined.len() <= adjacency.sources.len(),
        forall|i: int|
            0 <= i < s.path.len() ==> (#[trigger] s.path[i]) < adjacency.names.len() && s.cursors[i]
                <= adjacency.outgoing[s.path[i] as int]@.len(),
        forall|v: int|
            0 <= v < adjacency.names.len() && s.marked[v] ==> #[trigger] s.visited[v],
        forall|v: int|
            0 <= v < adjacency.names.len() && s.visited[v] && !s.marked[v] ==> (#[trigger] s.rec_stack[v]
                <==> s.path.contains(v as usize)),
        forall|i: int|
            0 <= i < s.path.len() ==> !s.marked[(#[trigger] s.path[i]) as int] && s.visited[s.path[i] as int],
        s.path.no_duplicates(),
        forall|v: int|
            0 <= v < adjacency.names.len() && #[trigger] s.visited[v] && !s.marked[v]
                ==> fresh_reachable(adjacency.links(), s.marked, s.root, v as usize),
        forall|v: int|
            0 <= v < adjacency.names.len() && !(s.visited[v] && !s.marked[v]) ==> #[trigger] s.rec_stack[v]
                == s.flags[v],
{
    let entered = s.entered;
    let examined = s.examined;
    reveal(descending);
    lemma_distinct_below(entered, adjacency.names.len() as nat);
    lemma_distinct_below(examined, adjacency.sources.len() as nat);
}

/// The edges along the stack form a walk between any two vertices on it, and
/// no vertex on it is marked.
pub(crate) proof fn lemma_stack_walk(
    adjacency: &Adjacency,
    marked: Seq<bool>,
    path: Seq<usize>,
    walk: Seq<usize>,
    lo: int,
    hi: int,
)
    requires
        adjacency.wf(),
        marked.len() == adjacency.names.len(),
        walk.len() + 1 == path.len(),
        forall|i: int|
            0 <= i < walk.len() ==> (#[trigger] walk[i]) < adjacency.sources.len()
                && adjacency.links()[walk[i] as int] == (path[i], path[i + 1]),
        forall|i: int| 0 <= i < path.len() ==> !marked[(#[trigger] path[i]) as int],
        0 <= lo <= hi < path.len(),
    ensures
        is_fresh_walk(adjacency.links(), marked, path[lo], path[hi], walk.subrange(lo, hi)),
{
    let links = adjacency.links();
    let part = walk.subrange(lo, hi);
    assert forall|i: int| 0 <= i < part.len() implies (#[trigger] part[i]) < links.len() by {
        assert(part[i] == walk[lo + i]);
    }
    assert forall|i: int| 0 <= i < part.len() - 1 implies links[(#[trigger] part[i]) as int].1
        == links[part[i + 1] as int].0 by {
        assert(part[i] == walk[lo + i]);
        assert(part[i + 1] == walk[lo + i + 1]);
    }
    assert forall|i: int| 0 <= i < part.len() implies !marked[links[(#[trigger] part[i]) as int].0 as int]
        && !marked[links[part[i] as int].1 as int] by {
        assert(part[i] == walk[lo + i]);
        assert(!marked[path[lo + i] as int]);
        assert(!marked[path[lo + i + 1] as int]);
    }
    if part.len() > 0 {
        assert(part[0] == walk[lo]);
        assert(part[part.len() - 1] == walk[hi - 1]);
    }
    assert(!marked[path[lo] as int]);
}

/// Entering the root.
pub(crate) proof fn lemma_descending_start(adjacency: &Adjacency, marked: Seq<bool>, flags: Seq<bool>, root: usize)
    requires
        adjacency.wf(),
        marked.len() == adjacency.names.len(),
        flags.len() == adjacency.names.len(),
        root < adjacency.names.len(),
        !marked[root as int],
    ensures
        descending(adjacency, at_start(marked, flags, root)),
{
    reveal(descending);
    let n = adjacency.names.len() as int;
    let links = adjacency.links();
    let visited = marked.update(root as int, true);
    let path = seq![root];
    assert(path[0] == root);
    assert(is_fresh_walk(links, marked, root, root, Seq::empty()));
    assert forall|v: int| 0 <= v < n && visited[v] && !marked[v] implies !is_black(
        marked,
        visited,
        path,
        v,
    ) by {
        assert(v == root);
    }
}

/// Following an edge from the top of the stack to a vertex that has not
/// been s.visited, which becomes the new top.
pub(crate) proof fn lemma_descending_enter(adjacency: &Adjacency, s: Descent)
    requires
        adjacency.wf(),
        descending(adjacency, s),
        s.path.len() > 0,
        s.cursors[s.path.len() - 1] < adjacency.outgoing[s.path[s.path.len() - 1] as int]@.len(),
        !s.visited[adjacency.targets[adjacency.outgoing[s.path[s.path.len() - 1] as int][s.cursors[s.path.len()
            - 1] as int] as int] as int],
    ensures
        descending(adjacency, after_enter(adjacency, s)),
{
    let marked = s.marked;
    let flags = s.flags;
    let root = s.root;
    let visited = s.visited;
    let rec_stack = s.rec_stack;
    let path = s.path;
    let cursors = s.cursors;
    let walk = s.walk;
    let entered = s.entered;
    let examined = s.examined;
    reveal(descending);
    let n = adjacency.names.len() as int;
    let m = adjacency.sources.len() as int;
    let links = adjacency.links();
    let top = path.len() - 1;
    let u = path[top];
    let k = cursors[top];
    assert(adjacency.lists_outgoing(u as int));
    let list = adjacency.outgoing[u as int]@;
    let bound: usize = adjacency.outgoing[u as int].len();
    assert(k < bound);
    let e = list[k as int];
    let w = adjacency.targets[e as int];
    assert(adjacency.sources[e as int] == u);
    assert(links[e as int] == (u, w));
    let visited2 = visited.update(w as int, true);
    let rec_stack2 = rec_stack.update(w as int, true);
    let path2 = path.push(w);
    let cursors2 = cursors.update(top, (k + 1) as usize).push(0);
    let walk2 = walk.push(e);
    let entered2 = entered.push(w);
    let examined2 = examined.push(e);

    assert(!path.contains(w));
    assert forall|x: usize| path2.contains(x) <==> path.contains(x) || x == w by {
        if path.contains(x) {
            let i = choose|i: int| 0 <= i < path.len() && path[i] == x;
            assert(path2[i] == x);
        }
        if x == w {
            assert(path2[path.len() as int] == w);
        }
        if path2.contains(x) {
            let i = choose|i: int| 0 <= i < path2.len() && path2[i] == x;
            if i < path.len() {
                assert(path[i] == x);
            }
        }
    }
    assert forall|v: int| 0 <= v < n implies (is_black(marked, visited, path, v) <==> is_black(
        marked,
        visited2,
        path2,
        v,
    )) by {}
    assert forall|i: int| 0 <= i < path2.len() - 1 implies #[trigger] is_linked(
        adjacency,
        path2,
        cursors2,
        walk2,
        i,
    ) by {
        if i < top {
            assert(is_linked(adjacency, path, cursors, walk, i));
            assert(walk2[i] == walk[i]);
        }
    }
    assert forall|v: int| 0 <= v < n && #[trigger] visited2[v] && !marked[v] implies fresh_reachable(
        links,
        marked,
        root,
        v as usize,
    ) by {
        if v == w {
            assert(visited[u as int] && !marked[u as int]);
            let steps = choose|steps: Seq<usize>| is_fresh_walk(links, marked, root, u, steps);
            lemma_walk_push(links, root, u, steps, e);
            let longer = steps.push(e);
            assert forall|i: int| 0 <= i < longer.len() implies !marked[links[(
            #[trigger] longer[i]) as int].0 as int] && !marked[links[longer[i] as int].1 as int] by {
                if i < steps.len() {
                    assert(longer[i] == steps[i]);
                }
            }
            assert(is_fresh_walk(links, marked, root, w, longer));
        } else {
            assert(visited[v]);
        }
    }
    assert forall|i: int, j: int|
        0 <= i < path2.len() && 0 <= j < cursors2[i] && (i == path2.len() - 1 || j < cursors2[i]
            - 1) implies is_settled(
        marked,
        visited2,
        path2,
        adjacency.targets[(#[trigger] adjacency.outgoing[path2[i] as int][j]) as int] as int,
    ) by {
        assert(i <= top);
        assert(path2[i] == path[i]);
        let t = adjacency.targets[adjacency.outgoing[path[i] as int][j] as int] as int;
        assert(adjacency.lists_outgoing(path[i] as int));
        assert(is_settled(marked, visited, path, t));
    }
    assert forall|x: int| 0 <= x < m && is_black(
        marked,
        visited2,
        path2,
        (#[trigger] adjacency.sources[x]) as int,
    ) implies is_settled(marked, visited2, path2, adjacency.targets[x] as int) by {
        assert(is_black(marked, visited, path, adjacency.sources[x] as int));
        assert(is_settled(marked, visited, path, adjacency.targets[x] as int));
    }
    assert forall|c: Seq<usize>| #[trigger]
        is_cycle(links, c) && avoids(links, marked, c) implies forall|i: int|
        0 <= i < c.len() ==> !is_black(
            marked,
            visited2,
            path2,
            links[(#[trigger] c[i]) as int].0 as int,
        ) by {
        assert forall|i: int| 0 <= i < c.len() implies !is_black(
            marked,
            visited2,
            path2,
            links[(#[trigger] c[i]) as int].0 as int,
        ) by {
            assert(!is_black(marked, visited, path, links[c[i] as int].0 as int));
        }
    }
    assert forall|x: int| 0 <= x < examined.len() implies examined[x] != e by {
        if examined[x] == e {
            assert(path[top] == adjacency.sources[examined[x] as int]);
            let j = choose|j: int|
                0 <= j < cursors[top] && #[trigger] adjacency.outgoing[path[top] as int][j]
                    == examined[x];
            assert(list[j] < list[k as int]);
        }
    }
    assert forall|x: int| 0 <= x < examined2.len() implies {
        &&& (#[trigger] examined2[x]) < m
        &&& visited2[adjacency.sources[examined2[x] as int] as int]
        &&& forall|i: int|
            0 <= i < path2.len() && #[trigger] path2[i] == adjacency.sources[examined2[x] as int]
                ==> exists|j: int|
                0 <= j < cursors2[i] && #[trigger] adjacency.outgoing[path2[i] as int][j]
                    == examined2[x]
    } by {
        let y = examined2[x];
        assert forall|i: int|
            0 <= i < path2.len() && #[trigger] path2[i] == adjacency.sources[y as int] implies exists|
            j: int,
        |
            0 <= j < cursors2[i] && #[trigger] adjacency.outgoing[path2[i] as int][j] == y by {
            if x < examined.len() {
                assert(examined[x] == y);
                assert(visited[adjacency.sources[y as int] as int]);
                assert(i <= top);
                assert(path[i] == path2[i]);
                let j = choose|j: int|
                    0 <= j < cursors[i] && #[trigger] adjacency.outgoing[path[i] as int][j] == y;
                assert(0 <= j < cursors2[i] && adjacency.outgoing[path2[i] as int][j] == y);
            } else {
                assert(y == e);
                assert(i == top);
                assert(adjacency.outgoing[path2[top] as int][k as int] == y);
            }
        }
    }
    assert(descending(
        adjacency,
        snapshot(
            marked,
            flags,
            root,
            visited2,
            rec_stack2,
            path2,
            cursors2,
            walk2,
            entered2,
            examined2,
        ),
    ));
}

/// Passing over an edge from the top of the stack to a vertex that has been
/// s.visited and is not on the stack.
pub(crate) proof fn lemma_descending_pass(adjacency: &Adjacency, s: Descent)
    requires
        adjacency.wf(),
        descending(adjacency, s),
        s.path.len() > 0,
        s.cursors[s.path.len() - 1] < adjacency.outgoing[s.path[s.path.len() - 1] as int]@.len(),
        s.visited[adjacency.targets[adjacency.outgoing[s.path[s.path.len() - 1] as int][s.cursors[s.path.len()
            - 1] as int] as int] as int],
        !s.path.contains(
            adjacency.targets[adjacency.outgoing[s.path[s.path.len() - 1] as int][s.cursors[s.path.len()
                - 1] as int] as int],
        ),
    ensures
        descending(adjacency, after_pass(adjacency, s)),
{
    let marked = s.marked;
    let flags = s.flags;
    let root = s.root;
    let visited = s.visited;
    let rec_stack = s.rec_stack;
    let path = s.path;
    let cursors = s.cursors;
    let walk = s.walk;
    let entered = s.entered;
    let examined = s.examined;
    reveal(descending);
    let n = adjacency.names.len() as int;
    let m = adjacency.sources.len() as int;
    let links = adjacency.links();
    let top = path.len() - 1;
    let u = path[top];
    let k = cursors[top];
    assert(adjacency.lists_outgoing(u as int));
    let list = adjacency.outgoing[u as int]@;
    let bound: usize = adjacency.outgoing[u as int].len();
    assert(k < bound);
    let e = list[k as int];
    let w = adjacency.targets[e as int];
    assert(adjacency.sources[e as int] == u);
    let cursors2 = cursors.update(top, (k + 1) as usize);
    let examined2 = examined.push(e);
    assert(is_settled(marked, visited, path, w as int));
    assert forall|i: int| 0 <= i < path.len() - 1 implies #[trigger] is_linked(
        adjacency,
        path,
        cursors2,
        walk,
        i,
    ) by {
        assert(is_linked(adjacency, path, cursors, walk, i));
    }
    assert forall|i: int, j: int|
        0 <= i < path.len() && 0 <= j < cursors2[i] && (i == path.len() - 1 || j < cursors2[i]
            - 1) implies is_settled(
        marked,
        visited,
        path,
        adjacency.targets[(#[trigger] adjacency.outgoing[path[i] as int][j]) as int] as int,
    ) by {
        if i == top && j == k {
        } else {
            let t = adjacency.targets[adjacency.outgoing[path[i] as int][j] as int] as int;
            assert(is_settled(marked, visited, path, t));
        }
    }
    assert forall|x: int| 0 <= x < examined.len() implies examined[x] != e by {
        if examined[x] == e {
            assert(path[top] == adjacency.sources[examined[x] as int]);
            let j = choose|j: int|
                0 <= j < cursors[top] && #[trigger] adjacency.outgoing[path[top] as int][j]
                    == examined[x];
            assert(list[j] < list[k as int]);
        }
    }
    assert forall|x: int| 0 <= x < examined2.len() implies {
        &&& (#[trigger] examined2[x]) < m
        &&& visited[adjacency.sources[examined2[x] as int] as int]
        &&& forall|i: int|
            0 <= i < path.len() && #[trigger] path[i] == adjacency.sources[examined2[x] as int]
                ==> exists|j: int|
                0 <= j < cursors2[i] && #[trigger] adjacency.outgoing[path[i] as int][j]
                    == examined2[x]
    } by {
        let y = examined2[x];
        assert forall|i: int|
            0 <= i < path.len() && #[trigger] path[i] == adjacency.sources[y as int] implies exists|
            j: int,
        |
            0 <= j < cursors2[i] && #[trigger] adjacency.outgoing[path[i] as int][j] == y by {
            if x < examined.len() {
                assert(examined[x] == y);
                let j = choose|j: int|
                    0 <= j < cursors[i] && #[trigger] adjacency.outgoing[path[i] as int][j] == y;
                assert(0 <= j < cursors2[i] && adjacency.outgoing[path[i] as int][j] == y);
            } else {
                assert(y == e);
                assert(i == top);
                assert(adjacency.outgoing[path[top] as int][k as int] == y);
            }
        }
    }
    assert(descending(
        adjacency,
        snapshot(
            marked,
            flags,
            root,
            visited,
            rec_stack,
            path,
            cursors2,
            walk,
            entered,
            examined2,
        ),
    ));
}

/// The sizes of the parts of the state.
pub(crate) proof fn lemma_descending_bounds(adjacency: &Adjacency, s: Descent)
    requires
        adjacency.wf(),
        descending(adjacency, s),
    ensures
        s.visited.len() == adjacency.names.len(),
        s.rec_stack.len() == adjacency.names.len(),
        s.cursors.len() == s.path.len(),
        s.entered.len() <= adjacency.names.len(),
        s.examined.len() <= adjacency.sources.len(),
        forall|i: int|
            0 <= i < s.path.len() ==> (#[trigger] s.path[i]) < adjacency.names.len() && s.cursors[i]
                <= adjacency.outgoing[s.path[i] as int]@.len(),
{
    let entered = s.entered;
    let examined = s.examined;
    reveal(descending);
    lemma_distinct_below(entered, adjacency.names.len() as nat);
    lemma_distinct_below(examined, adjacency.sources.len() as nat);
}

/// A vertex that has been s.visited and does not carry the mark of the stack
/// is not on the stack.
pub(crate) proof fn lemma_descending_off_stack(
    adjacency: &Adjacency,
    s: Descent,
    w: usize,
)
    requires
        adjacency.wf(),
        descending(adjacency, s),
        w < adjacency.names.len(),
        s.visited[w as int],
        !s.rec_stack[w as int],
    ensures
        !s.path.contains(w),
{
    let marked = s.marked;
    let path = s.path;
    reveal(descending);
    if path.contains(w) {
        let i = choose|i: int| 0 <= i < path.len() && path[i] == w;
        assert(!marked[path[i] as int]);
    }
}

/// The edges in `s.walk` lead along the stack, which starts at the s.root.
pub(crate) proof fn lemma_descending_links(adjacency: &Adjacency, s: Descent)
    requires
        adjacency.wf(),
        descending(adjacency, s),
        s.path.len() > 0,
    ensures
        s.marked.len() == adjacency.names.len(),
        s.walk.len() + 1 == s.path.len(),
        s.path[0] == s.root,
        forall|i: int|
            0 <= i < s.walk.len() ==> (#[trigger] s.walk[i]) < adjacency.sources.len()
                && adjacency.links()[s.walk[i] as int] == (s.path[i], s.path[i + 1]),
{
    let path = s.path;
    let cursors = s.cursors;
    let walk = s.walk;
    reveal(descending);
    assert forall|i: int| 0 <= i < walk.len() implies (#[trigger] walk[i]) < adjacency.sources.len()
        && adjacency.links()[walk[i] as int] == (path[i], path[i + 1]) by {
        assert(is_linked(adjacency, path, cursors, walk, i));
        assert(adjacency.lists_outgoing(path[i] as int));
    }
}

/// The stack from the vertex at `p` up, and then an edge from its top back
/// to that vertex, is a cycle without a marked vertex.
pub(crate) proof fn lemma_cycle_on_stack(
    adjacency: &Adjacency,
    marked: Seq<bool>,
    path: Seq<usize>,
    walk: Seq<usize>,
    p: int,
    e: usize,
)
    requires
        adjacency.wf(),
        marked.len() == adjacency.names.len(),
        walk.len() + 1 == path.len(),
        forall|i: int|
            0 <= i < walk.len() ==> (#[trigger] walk[i]) < adjacency.sources.len()
                && adjacency.links()[walk[i] as int] == (path[i], path[i + 1]),
        forall|i: int| 0 <= i < path.len() ==> !marked[(#[trigger] path[i]) as int],
        0 <= p < path.len(),
        e < adjacency.sources.len(),
        adjacency.links()[e as int] == (path[path.len() - 1], path[p]),
    ensures
        is_cycle(adjacency.links(), walk.subrange(p, path.len() - 1).push(e)),
        avoids(adjacency.links(), marked, walk.subrange(p, path.len() - 1).push(e)),
        adjacency.links()[walk.subrange(p, path.len() - 1).push(e)[0] as int].0 == path[p],
        is_cycle_through(adjacency.links(), path.subrange(p, path.len() as int)),
{
    let links = adjacency.links();
    let top = path.len() - 1;
    lemma_stack_walk(adjacency, marked, path, walk, p, top);
    let back = walk.subrange(p, top);
    let steps = back.push(e);
    lemma_walk_push(links, path[p], path[top], back, e);
    assert(steps[0] == if p < top {
        walk[p]
    } else {
        e
    });
    assert(links[steps[0] as int].0 == path[p]);
    assert(is_cycle(links, steps));
    assert forall|i: int| 0 <= i < steps.len() implies !marked[links[(#[trigger] steps[i]) as int].0 as int]
        && !marked[links[steps[i] as int].1 as int] by {
        if i < back.len() {
            assert(steps[i] == back[i]);
        } else {
            assert(!marked[path[top] as int]);
            assert(!marked[path[p] as int]);
        }
    }
    let cycle = path.subrange(p, path.len() as int);
    assert forall|i: int| 0 <= i < steps.len() implies links[(#[trigger] steps[i]) as int].0
        == cycle[i] by {
        if i < back.len() {
            assert(steps[i] == walk[p + i]);
        }
    }
}

/// An edge from the top of the stack to a vertex on the stack closes a
/// cycle: the stack from that vertex up, and the edge back to it.
pub(crate) proof fn lemma_descending_cycle(
    adjacency: &Adjacency,
    s: Descent,
    p: int,
)
    requires
        adjacency.wf(),
        descending(adjacency, s),
        s.path.len() > 0,
        s.cursors[s.path.len() - 1] < adjacency.outgoing[s.path[s.path.len() - 1] as int]@.len(),
        0 <= p < s.path.len(),
        s.path[p] == adjacency.targets[adjacency.outgoing[s.path[s.path.len() - 1] as int][s.cursors[s.path.len()
            - 1] as int] as int],
    ensures
        fresh_cycle_from(adjacency.links(), s.marked, s.root),
        is_cycle_through(adjacency.links(), s.path.subrange(p, s.path.len() as int)),
        is_fresh_walk(adjacency.links(), s.marked, s.root, s.path[s.path.len() - 1], s.walk),
        s.path == trail(adjacency.links(), s.root, s.walk),
{
    let marked = s.marked;
    let root = s.root;
    let path = s.path;
    let cursors = s.cursors;
    let walk = s.walk;
    lemma_descent_frame(adjacency, s);
    let links = adjacency.links();
    let top = path.len() - 1;
    let e = adjacency.outgoing[path[top] as int]@[cursors[top] as int];
    assert(links[e as int] == (path[top], path[p]));
    lemma_cycle_on_stack(adjacency, marked, path, walk, p, e);
    let steps = walk.subrange(p, top).push(e);
    assert(fresh_reachable(links, marked, root, links[steps[0] as int].0)) by {
        lemma_stack_walk(adjacency, marked, path, walk, 0, p);
    }
    assert(is_fresh_walk(links, marked, root, path[top], walk)) by {
        lemma_stack_walk(adjacency, marked, path, walk, 0, top);
        assert(walk.subrange(0, top) =~= walk);
    }
    assert(path =~= trail(links, root, walk)) by {
        assert forall|i: int| 0 <= i < path.len() implies path[i] == trail(links, root, walk)[i] by {
            if i > 0 {
                assert(links[walk[i - 1] as int] == (path[i - 1], path[i]));
            }
        }
    }
}

/// Leaving the vertex at the top of the stack once every edge from it has
/// been followed.
pub(crate) proof fn lemma_descending_leave(adjacency: &Adjacency, s: Descent)
    requires
        adjacency.wf(),
        descending(adjacency, s),
        s.path.len() > 0,
        s.cursors[s.path.len() - 1] == adjacency.outgoing[s.path[s.path.len() - 1] as int]@.len(),
    ensures
        descending(adjacency, after_leave(s)),
{
    let marked = s.marked;
    let flags = s.flags;
    let root = s.root;
    let visited = s.visited;
    let rec_stack = s.rec_stack;
    let path = s.path;
    let cursors = s.cursors;
    let walk = s.walk;
    let entered = s.entered;
    let examined = s.examined;
    reveal(descending);
    let n = adjacency.names.len() as int;
    let m = adjacency.sources.len() as int;
    let links = adjacency.links();
    let top = path.len() - 1;
    let u = path[top];
    assert(adjacency.lists_outgoing(u as int));
    let list = adjacency.outgoing[u as int]@;
    let rec_stack2 = rec_stack.update(u as int, false);
    let path2 = path.drop_last();
    let cursors2 = cursors.drop_last();
    let walk2 = if walk.len() > 0 {
        walk.drop_last()
    } else {
        walk
    };
    assert forall|x: usize| path.contains(x) <==> path2.contains(x) || x == u by {
        if path2.contains(x) {
            let i = choose|i: int| 0 <= i < path2.len() && path2[i] == x;
            assert(path[i] == x);
        }
        if path.contains(x) {
            let i = choose|i: int| 0 <= i < path.len() && path[i] == x;
            if i < top {
                assert(path2[i] == x);
            }
        }
    }
    assert(!path2.contains(u)) by {
        if path2.contains(u) {
            let i = choose|i: int| 0 <= i < path2.len() && path2[i] == u;
            assert(path[i] == path[top]);
        }
    }
    assert(is_black(marked, visited, path2, u as int));
    assert forall|v: int| 0 <= v < n && is_settled(marked, visited, path, v) implies is_settled(
        marked,
        visited,
        path2,
        v,
    ) by {}
    // every edge that leaves `u` leads to a vertex that is settled
    assert forall|e: int| 0 <= e < m && #[trigger] adjacency.sources[e] == u implies is_settled(
        marked,
        visited,
        path,
        adjacency.targets[e] as int,
    ) by {
        assert(list.contains(e as usize));
        let j = choose|j: int| 0 <= j < list.len() && list[j] == e as usize;
        assert(adjacency.outgoing[path[top] as int][j] == e);
    }
    assert forall|i: int| 0 <= i < path2.len() - 1 implies #[trigger] is_linked(
        adjacency,
        path2,
        cursors2,
        walk2,
        i,
    ) by {
        assert(is_linked(adjacency, path, cursors, walk, i));
    }
    assert forall|i: int, j: int|
        0 <= i < path2.len() && 0 <= j < cursors2[i] && (i == path2.len() - 1 || j < cursors2[i]
            - 1) implies is_settled(
        marked,
        visited,
        path2,
        adjacency.targets[(#[trigger] adjacency.outgoing[path2[i] as int][j]) as int] as int,
    ) by {
        assert(path2[i] == path[i]);
        let x = adjacency.outgoing[path[i] as int][j];
        if i == path2.len() - 1 && j == cursors[i] - 1 {
            assert(is_linked(adjacency, path, cursors, walk, i));
            assert(links[x as int] == (path[i], u));
            assert(adjacency.lists_outgoing(path[i] as int));
        } else {
            assert(is_settled(marked, visited, path, adjacency.targets[x as int] as int));
        }
    }
    assert forall|e: int| 0 <= e < m && is_black(
        marked,
        visited,
        path2,
        (#[trigger] adjacency.sources[e]) as int,
    ) implies is_settled(marked, visited, path2, adjacency.targets[e] as int) by {
        if adjacency.sources[e] != u {
            assert(is_black(marked, visited, path, adjacency.sources[e] as int));
            assert(is_settled(marked, visited, path, adjacency.targets[e] as int));
        }
    }
    assert forall|c: Seq<usize>| #[trigger]
        is_cycle(links, c) && avoids(links, marked, c) implies forall|i: int|
        0 <= i < c.len() ==> !is_black(
            marked,
            visited,
            path2,
            links[(#[trigger] c[i]) as int].0 as int,
        ) by {
        assert forall|i: int| 0 <= i < c.len() implies !is_black(
            marked,
            visited,
            path2,
            links[(#[trigger] c[i]) as int].0 as int,
        ) by {
            let e = c[i] as int;
            let s = links[e].0;
            assert(!is_black(marked, visited, path, s as int));
            if s == u {
                let next = if i < c.len() - 1 {
                    i + 1
                } else {
                    0
                };
                assert(links[c[next] as int].0 == links[e].1);
                assert(adjacency.sources[e] == u);
                assert(is_settled(marked, visited, path, adjacency.targets[e] as int));
                assert(!marked[links[c[i] as int].1 as int]);
                assert(!is_black(marked, visited, path, links[c[next] as int].0 as int));
            }
        }
    }
    assert forall|x: int| 0 <= x < examined.len() implies {
        &&& (#[trigger] examined[x]) < m
        &&& visited[adjacency.sources[examined[x] as int] as int]
        &&& forall|i: int|
            0 <= i < path2.len() && #[trigger] path2[i] == adjacency.sources[examined[x] as int]
                ==> exists|j: int|
                0 <= j < cursors2[i] && #[trigger] adjacency.outgoing[path2[i] as int][j]
                    == examined[x]
    } by {
        let y = examined[x];
        assert forall|i: int|
            0 <= i < path2.len() && #[trigger] path2[i] == adjacency.sources[y as int] implies exists|
            j: int,
        |
            0 <= j < cursors2[i] && #[trigger] adjacency.outgoing[path2[i] as int][j] == y by {
            assert(path[i] == path2[i]);
            let j = choose|j: int|
                0 <= j < cursors[i] && #[trigger] adjacency.outgoing[path[i] as int][j] == y;
            assert(0 <= j < cursors2[i] && adjacency.outgoing[path2[i] as int][j] == y);
        }
    }
    assert(descending(
        adjacency,
        snapshot(
            marked,
            flags,
            root,
            visited,
            rec_stack2,
            path2,
            cursors2,
            walk2,
            entered,
            examined,
        ),
    ));
}

/// A s.walk without a s.marked vertex that starts at a vertex which the search
/// has left ends at such a vertex.
pub(crate) proof fn lemma_descending_closed(
    adjacency: &Adjacency,
    s: Descent,
    from: usize,
    to: usize,
    steps: Seq<usize>,
)
    requires
        adjacency.wf(),
        descending(adjacency, s),
        from < adjacency.names.len(),
        is_black(s.marked, s.visited, s.path, from as int),
        is_fresh_walk(adjacency.links(), s.marked, from, to, steps),
    ensures
        to < adjacency.names.len(),
        is_black(s.marked, s.visited, s.path, to as int),
    decreases steps.len(),
{
    let marked = s.marked;
    let visited = s.visited;
    let path = s.path;
    reveal(descending);
    let links = adjacency.links();
    if steps.len() > 0 {
        let e = steps[steps.len() - 1];
        let shorter = steps.drop_last();
        lemma_walk_drop_last(links, from, to, steps);
        assert forall|i: int| 0 <= i < shorter.len() implies !marked[links[(
        #[trigger] shorter[i]) as int].0 as int] && !marked[links[shorter[i] as int].1 as int] by {
            assert(shorter[i] == steps[i]);
        }
        lemma_descending_closed(adjacency, s, from,
            links[e as int].0,
            shorter,
        );
        assert(is_black(marked, visited, path, adjacency.sources[e as int] as int));
        assert(is_settled(marked, visited, path, adjacency.targets[e as int] as int));
        assert(!marked[links[steps[steps.len() - 1] as int].1 as int]);
    }
}

/// What holds once the stack is empty: the search has s.visited what can be
/// reached from the s.root without passing a s.marked vertex, and no cycle is
/// among it.
pub(crate) proof fn lemma_descending_end(adjacency: &Adjacency, s: Descent)
    requires
        adjacency.wf(),
        descending(adjacency, s),
        s.path.len() == 0,
    ensures
        !fresh_cycle_from(adjacency.links(), s.marked, s.root),
        forall|v: int|
            0 <= v < adjacency.names.len() ==> (#[trigger] s.visited[v] <==> s.marked[v]
                || fresh_reachable(adjacency.links(), s.marked, s.root, v as usize)),
        forall|v: int|
            0 <= v < adjacency.names.len() ==> #[trigger] s.rec_stack[v] == (if s.visited[v]
                && !s.marked[v] {
                false
            } else {
                s.flags[v]
            }),
{
    let marked = s.marked;
    let root = s.root;
    let visited = s.visited;
    let path = s.path;
    assert(s.path =~= Seq::<usize>::empty());
    reveal(descending);
    let n = adjacency.names.len() as int;
    let links = adjacency.links();
    assert(is_black(marked, visited, path, root as int));
    assert forall|v: int| 0 <= v < n && fresh_reachable(
        links,
        marked,
        root,
        v as usize,
    ) implies #[trigger] visited[v] by {
        let target = v as usize;
        let steps = choose|steps: Seq<usize>| is_fresh_walk(links, marked, root, target, steps);
        lemma_descending_closed(adjacency, s, root,
            v as usize,
            steps,
        );
    }
    if fresh_cycle_from(links, marked, root) {
        let c = choose|c: Seq<usize>|
            #[trigger] is_cycle(links, c) && avoids(links, marked, c) && fresh_reachable(
                links,
                marked,
                root,
                links[c[0] as int].0,
            );
        let start = links[c[0] as int].0;
        let steps = choose|steps: Seq<usize>| is_fresh_walk(links, marked, root, start, steps);
        lemma_descending_closed(adjacency, s, root,
            start,
            steps,
        );
        assert(!is_black(marked, visited, path, links[c[0] as int].0 as int));
    }
}

/// The state made of its parts.
pub(crate) open spec fn snapshot(
    marked: Seq<bool>,
    flags: Seq<bool>,
    root: usize,
    visited: Seq<bool>,
    rec_stack: Seq<bool>,
    path: Seq<usize>,
    cursors: Seq<usize>,
    walk: Seq<usize>,
    entered: Seq<usize>,
    examined: Seq<usize>,
) -> Descent {
    Descent { marked, flags, root, visited, rec_stack, path, cursors, walk, entered, examined }
}

/// The stack is a path from the root, and so is each beginning of it.
pub(crate) proof fn lemma_stack_path(adjacency: &Adjacency, s: Descent, upto: int)
    requires
        adjacency.wf(),
        descending(adjacency, s),
        0 <= upto < s.path.len(),
    ensures
        is_fresh_path(adjacency.links(), s.marked, s.root, s.walk.subrange(0, upto)),
        path_end(adjacency.links(), s.root, s.walk.subrange(0, upto)) == s.path[upto],
        trail(adjacency.links(), s.root, s.walk.subrange(0, upto)) == s.path.subrange(0, upto + 1),
{
    let links = adjacency.links();
    lemma_descending_shape(adjacency, s);
    lemma_descending_links(adjacency, s);
    lemma_stack_walk(adjacency, s.marked, s.path, s.walk, 0, upto);
    let part = s.walk.subrange(0, upto);
    let along = trail(links, s.root, part);
    assert forall|i: int| 0 <= i < along.len() implies along[i] == s.path[i] by {
        if i > 0 {
            assert(part[i - 1] == s.walk[i - 1]);
            assert(links[s.walk[i - 1] as int] == (s.path[i - 1], s.path[i]));
        }
    }
    assert(along =~= s.path.subrange(0, upto + 1));
    if upto > 0 {
        assert(part[part.len() - 1] == s.walk[upto - 1]);
    }
}

/// A chain from the root that runs along the stack for `t` edges goes on
/// from the vertex at `t`.
pub(crate) proof fn lemma_leaves_stack(adjacency: &Adjacency, s: Descent, q: Seq<usize>, t: int)
    requires
        adjacency.wf(),
        descending(adjacency, s),
        0 <= t < s.path.len(),
        t < q.len(),
        q.subrange(0, t) == s.walk.subrange(0, t),
        is_walk(adjacency.links(), s.root, path_end(adjacency.links(), s.root, q), q),
    ensures
        q[t] < adjacency.sources.len(),
        adjacency.sources[q[t] as int] == s.path[t],
        adjacency.outgoing[s.path[t] as int]@.contains(q[t]),
{
    let links = adjacency.links();
    lemma_descending_shape(adjacency, s);
    lemma_descending_links(adjacency, s);
    assert(q[t] < links.len());
    if t == 0 {
        assert(links[q[0] as int].0 == s.root);
    } else {
        assert(s.walk.len() + 1 == s.path.len());
        let mine = q.subrange(0, t);
        let stack = s.walk.subrange(0, t);
        assert(mine[t - 1] == q[t - 1]);
        assert(stack[t - 1] == s.walk[t - 1]);
        assert(q[t - 1] == s.walk[t - 1]);
        assert(links[q[t - 1] as int].1 == links[q[t] as int].0);
        assert(links[s.walk[t - 1] as int] == (s.path[t - 1], s.path[t]));
    }
    assert(adjacency.lists_outgoing(s.path[t] as int));
}

/// The state in which a search starts.
pub(crate) open spec fn at_start(marked: Seq<bool>, flags: Seq<bool>, root: usize) -> Descent {
    snapshot(
        marked,
        flags,
        root,
        marked.update(root as int, true),
        flags.update(root as int, true),
        seq![root],
        seq![0usize],
        Seq::empty(),
        seq![root],
        Seq::empty(),
    )
}

/// The edge that the search follows next: the one at the cursor of the
/// vertex on top of the stack.
pub(crate) open spec fn next_edge(adjacency: &Adjacency, s: Descent) -> usize {
    adjacency.outgoing[s.path[s.path.len() - 1] as int][s.cursors[s.path.len() - 1] as int]
}

/// The vertex to which the next edge leads.
pub(crate) open spec fn next_vertex(adjacency: &Adjacency, s: Descent) -> usize {
    adjacency.targets[next_edge(adjacency, s) as int]
}

/// There is a next edge.
pub(crate) open spec fn has_next(adjacency: &Adjacency, s: Descent) -> bool {
    s.path.len() > 0 && s.cursors[s.path.len() - 1]
        < adjacency.outgoing[s.path[s.path.len() - 1] as int]@.len()
}

/// The state after the search has followed the next edge to a vertex that
/// was not visited.
pub(crate) open spec fn after_enter(adjacency: &Adjacency, s: Descent) -> Descent {
    let top = s.path.len() - 1;
    let e = next_edge(adjacency, s);
    let w = next_vertex(adjacency, s);
    Descent {
        marked: s.marked,
        flags: s.flags,
        root: s.root,
        visited: s.visited.update(w as int, true),
        rec_stack: s.rec_stack.update(w as int, true),
        path: s.path.push(w),
        cursors: s.cursors.update(top, (s.cursors[top] + 1) as usize).push(0),
        walk: s.walk.push(e),
        entered: s.entered.push(w),
        examined: s.examined.push(e),
    }
}

/// The state after the search has passed over the next edge.
pub(crate) open spec fn after_pass(adjacency: &Adjacency, s: Descent) -> Descent {
    let top = s.path.len() - 1;
    Descent {
        marked: s.marked,
        flags: s.flags,
        root: s.root,
        visited: s.visited,
        rec_stack: s.rec_stack,
        path: s.path,
        cursors: s.cursors.update(top, (s.cursors[top] + 1) as usize),
        walk: s.walk,
        entered: s.entered,
        examined: s.examined.push(next_edge(adjacency, s)),
    }
}

/// The state after the search has left the vertex on top of the stack.
pub(crate) open spec fn after_leave(s: Descent) -> Descent {
    Descent {
        marked: s.marked,
        flags: s.flags,
        root: s.root,
        visited: s.visited,
        rec_stack: s.rec_stack.update(s.path[s.path.len() - 1] as int, false),
        path: s.path.drop_last(),
        cursors: s.cursors.drop_last(),
        walk: if s.walk.len() > 0 {
            s.walk.drop_last()
        } else {
            s.walk
        },
        entered: s.entered,
        examined: s.examined,
    }
}

/// What the proofs about paths need of the state: the sizes of its parts,
/// the stack and the edges along it, and the edges that leave its top.
pub(crate) proof fn lemma_descent_frame(adjacency: &Adjacency, s: Descent)
    requires
        adjacency.wf(),
        descending(adjacency, s),
        s.path.len() > 0,
    ensures
        s.marked.len() == adjacency.names.len(),
        s.visited.len() == adjacency.names.len(),
        s.cursors.len() == s.path.len(),
        s.walk.len() + 1 == s.path.len(),
        s.path[0] == s.root,
        s.path.no_duplicates(),
        forall|i: int|
            0 <= i < s.path.len() ==> {
                &&& (#[trigger] s.path[i]) < adjacency.names.len()
                &&& !s.marked[s.path[i] as int]
                &&& s.visited[s.path[i] as int]
                &&& s.cursors[i] <= adjacency.outgoing[s.path[i] as int]@.len()
                &&& adjacency.lists_outgoing(s.path[i] as int)
            },
        forall|i: int|
            0 <= i < s.walk.len() ==> {
                &&& (#[trigger] s.walk[i]) < adjacency.sources.len()
                &&& adjacency.links()[s.walk[i] as int] == (s.path[i], s.path[i + 1])
                &&& s.cursors[i] >= 1
                &&& s.walk[i] == adjacency.outgoing[s.path[i] as int][s.cursors[i] - 1]
            },
        forall|v: int| 0 <= v < adjacency.names.len() && s.marked[v] ==> #[trigger] s.visited[v],
{
    reveal(descending);
    assert forall|i: int| 0 <= i < s.walk.len() implies {
        &&& (#[trigger] s.walk[i]) < adjacency.sources.len()
        &&& adjacency.links()[s.walk[i] as int] == (s.path[i], s.path[i + 1])
        &&& s.cursors[i] >= 1
        &&& s.walk[i] == adjacency.outgoing[s.path[i] as int][s.cursors[i] - 1]
    } by {
        assert(is_linked(adjacency, s.path, s.cursors, s.walk, i));
        assert(adjacency.lists_outgoing(s.path[i] as int));
    }
}

/// An edge that leaves a vertex which the search has left leads to a vertex
/// that was marked before or has been left too, and no cycle without a
/// marked vertex passes through a vertex that the search has left.
pub(crate) proof fn lemma_descent_left(adjacency: &Adjacency, s: Descent)
    requires
        descending(adjacency, s),
    ensures
        forall|e: int|
            0 <= e < adjacency.sources.len() && is_black(
                s.marked,
                s.visited,
                s.path,
                (#[trigger] adjacency.sources[e]) as int,
            ) ==> is_settled(s.marked, s.visited, s.path, adjacency.targets[e] as int),
        forall|c: Seq<usize>| #[trigger]
            is_cycle(adjacency.links(), c) && avoids(adjacency.links(), s.marked, c) ==> forall|
                i: int,
            |
                0 <= i < c.len() ==> !is_black(
                    s.marked,
                    s.visited,
                    s.path,
                    adjacency.links()[(#[trigger] c[i]) as int].0 as int,
                ),
{
    reveal(descending);
}

} // verus!
