//! Hop-shortest paths by breadth-first search.
//!
//! The search counts edges, not weights: among the walks between two nodes it
//! finds those with the fewest edges, and of those the one whose edges come
//! first in the edge list.

use std::collections::VecDeque;
use vstd::prelude::*;
use crate::adjacency::{lemma_indexes, Adjacency};
use crate::model::{views, Graph, PathResult};
use crate::sequences::{filled, lemma_distinct_below, reversed};
use crate::walks::{
    ends,
    is_first_shortest_walk,
    is_walk,
    lemma_lex_extend,
    lemma_lex_last,
    lemma_lex_trans,
    lemma_relabel_walk,
    lemma_walk_drop_last,
    lemma_walk_ends,
    lemma_walk_push,
    lex_lt,
    reachable,
    trail,
};

verus! {

impl PathResult {
    /// This is the answer to the question for a path from `from` to `to` in
    /// `graph`: whether one exists, and if so the first of those with the
    /// fewest edges, as the edges it takes and the nodes it passes.
    pub open spec fn answers<W>(&self, graph: &Graph<W>, from: Seq<char>, to: Seq<char>) -> bool {
        let links = graph.links();
        &&& self.exists <==> reachable(links, from, to)
        &&& self.exists ==> is_first_shortest_walk(links, from, to, self.hops@) && views(
            self.path@,
        ) == trail(links, from, self.hops@)
        &&& !self.exists ==> self.path@.len() == 0 && self.hops@.len() == 0
    }
}

/// Edge `e` has been followed: its source is among the vertices found, and
/// comes before the one at `head`, or is that one and the edge is among the
/// first `k` that leave it.
spec fn is_followed(adjacency: &Adjacency, order: Seq<usize>, head: int, k: int, e: int) -> bool {
    exists|q: int|
        0 <= q < order.len() && #[trigger] order[q] == adjacency.sources[e] && (q < head || (q
            == head && exists|j: int|
            0 <= j < k && #[trigger] adjacency.outgoing[adjacency.sources[e] as int][j] == e))
}

/// The edge by which `v` was found leads to it from a vertex found before,
/// one step nearer to the start, and the route to `v` is the route to that
/// vertex and then the edge.
spec fn is_hung(
    adjacency: &Adjacency,
    visited: Seq<bool>,
    inbound: Seq<usize>,
    dist: Seq<nat>,
    route: Seq<Seq<usize>>,
    order: Seq<usize>,
    head: int,
    k: int,
    v: int,
) -> bool {
    let e = inbound[v];
    let u = adjacency.sources[e as int];
    &&& e < adjacency.sources.len()
    &&& adjacency.targets[e as int] == v
    &&& visited[u as int]
    &&& dist[v] == dist[u as int] + 1
    &&& route[v] == route[u as int].push(e)
    &&& is_followed(adjacency, order, head, k, e as int)
}

/// The state of a search from `from`. `order` lists the vertices in the order
/// in which they were found; those before `head` have had all their edges
/// followed, and the one at `head` its first `k`. For each vertex found,
/// `dist` is its distance from the start and `route` the walk by which it was
/// found.
#[verifier::opaque]
spec fn searching(
    adjacency: &Adjacency,
    from: usize,
    visited: Seq<bool>,
    inbound: Seq<usize>,
    dist: Seq<nat>,
    route: Seq<Seq<usize>>,
    order: Seq<usize>,
    head: int,
    k: int,
) -> bool {
    let n = adjacency.names.len() as int;
    let m = adjacency.sources.len() as int;
    let links = adjacency.links();
    &&& visited.len() == n
    &&& inbound.len() == n
    &&& dist.len() == n
    &&& route.len() == n
    &&& 0 <= head <= order.len()
    &&& 0 <= k
    &&& head < order.len() ==> k <= adjacency.outgoing[order[head] as int]@.len()
    &&& head == order.len() ==> k == 0
    &&& order.no_duplicates()
    &&& forall|i: int| 0 <= i < order.len() ==> (#[trigger] order[i]) < n && visited[order[i] as int]
    &&& forall|v: int| 0 <= v < n && #[trigger] visited[v] ==> order.contains(v as usize)
    &&& order.len() > 0
    &&& order[0] == from
    &&& dist[from as int] == 0
    &&& route[from as int] == Seq::<usize>::empty()
    &&& forall|i: int, j: int|
        0 <= i <= j < order.len() ==> dist[(#[trigger] order[i]) as int] <= dist[(
        #[trigger] order[j]) as int]
    &&& forall|i: int|
        head <= i < order.len() ==> dist[(#[trigger] order[i]) as int] <= dist[order[head] as int]
            + 1
    &&& forall|v: int|
        0 <= v < n && #[trigger] visited[v] && v != from ==> is_hung(
            adjacency,
            visited,
            inbound,
            dist,
            route,
            order,
            head,
            k,
            v,
        )
    &&& forall|e: int|
        0 <= e < m && #[trigger] is_followed(adjacency, order, head, k, e)
            ==> visited[adjacency.targets[e] as int] && dist[adjacency.targets[e] as int]
            <= dist[adjacency.sources[e] as int] + 1
    &&& forall|v: int|
        0 <= v < n && #[trigger] visited[v] ==> is_walk(links, from, v as usize, route[v])
            && route[v].len() == dist[v]
    &&& forall|v: int, steps: Seq<usize>|
        0 <= v < n && visited[v] && #[trigger] is_walk(links, from, v as usize, steps) ==> dist[v]
            <= steps.len() && (steps.len() == dist[v] ==> steps == route[v] || lex_lt(
            route[v],
            steps,
        ))
    &&& forall|i: int, j: int|
        0 <= i < j < order.len() && dist[(#[trigger] order[i]) as int] == dist[(
        #[trigger] order[j]) as int] ==> lex_lt(route[order[i] as int], route[order[j] as int])
}

/// A walk from the start that is no longer than the distance of the vertex at
/// `head` ends in a vertex that was found, at a distance no greater than the
/// walk is long. Once every vertex found has had its edges followed, this
/// holds of every walk.
proof fn lemma_walk_found(
    adjacency: &Adjacency,
    from: usize,
    visited: Seq<bool>,
    inbound: Seq<usize>,
    dist: Seq<nat>,
    route: Seq<Seq<usize>>,
    order: Seq<usize>,
    head: int,
    k: int,
    to: usize,
    steps: Seq<usize>,
)
    requires
        adjacency.wf(),
        searching(adjacency, from, visited, inbound, dist, route, order, head, k),
        head == order.len() || steps.len() <= dist[order[head] as int],
        is_walk(adjacency.links(), from, to, steps),
    ensures
        to < adjacency.names.len(),
        visited[to as int],
        dist[to as int] <= steps.len(),
    decreases steps.len(),
{
    reveal(searching);
    let links = adjacency.links();
    if steps.len() == 0 {
        assert(order[0] == from);
    } else {
        let e = steps[steps.len() - 1];
        let y = links[e as int].0;
        lemma_walk_drop_last(links, from, to, steps);
        lemma_walk_found(
            adjacency,
            from,
            visited,
            inbound,
            dist,
            route,
            order,
            head,
            k,
            y,
            steps.drop_last(),
        );
        assert(order.contains(y));
        let i = choose|i: int| 0 <= i < order.len() && order[i] == y;
        if head < order.len() && i >= head {
            assert(dist[order[head] as int] <= dist[order[i] as int]);
        }
        assert(i < head);
        assert(order[i] == adjacency.sources[e as int]);
        assert(is_followed(adjacency, order, head, k, e as int));
        assert(adjacency.targets[e as int] < adjacency.names.len());
    }
}

/// The shape of a search: what it has found are vertices, each found once,
/// and the edge by which each but the first was found leads to it from a
/// vertex found before.
proof fn lemma_searching_shape(
    adjacency: &Adjacency,
    from: usize,
    visited: Seq<bool>,
    inbound: Seq<usize>,
    dist: Seq<nat>,
    route: Seq<Seq<usize>>,
    order: Seq<usize>,
    head: int,
    k: int,
)
    requires
        searching(adjacency, from, visited, inbound, dist, route, order, head, k),
    ensures
        visited.len() == adjacency.names.len(),
        inbound.len() == adjacency.names.len(),
        dist.len() == adjacency.names.len(),
        route.len() == adjacency.names.len(),
        0 <= head <= order.len(),
        order.no_duplicates(),
        route[from as int] == Seq::<usize>::empty(),
        forall|i: int|
            0 <= i < order.len() ==> (#[trigger] order[i]) < adjacency.names.len()
                && visited[order[i] as int],
        forall|v: int|
            0 <= v < adjacency.names.len() && #[trigger] visited[v] ==> order.contains(v as usize),
        forall|v: int|
            0 <= v < adjacency.names.len() && #[trigger] visited[v] && v != from ==> {
                &&& inbound[v] < adjacency.sources.len()
                &&& adjacency.targets[inbound[v] as int] == v
                &&& visited[adjacency.sources[inbound[v] as int] as int]
                &&& dist[v] == dist[adjacency.sources[inbound[v] as int] as int] + 1
                &&& route[v] == route[adjacency.sources[inbound[v] as int] as int].push(inbound[v])
            },
        forall|v: int|
            0 <= v < adjacency.names.len() && #[trigger] visited[v] ==> is_first_shortest_walk(
                adjacency.links(),
                from,
                v as usize,
                route[v],
            ),
{
    reveal(searching);
    assert forall|v: int|
        0 <= v < adjacency.names.len() && #[trigger] visited[v] && v != from implies {
        &&& inbound[v] < adjacency.sources.len()
        &&& adjacency.targets[inbound[v] as int] == v
        &&& visited[adjacency.sources[inbound[v] as int] as int]
        &&& dist[v] == dist[adjacency.sources[inbound[v] as int] as int] + 1
        &&& route[v] == route[adjacency.sources[inbound[v] as int] as int].push(inbound[v])
    } by {
        assert(is_hung(adjacency, visited, inbound, dist, route, order, head, k, v));
    }
}

/// Any route to the vertex found over the `k`-th edge that leaves the
/// vertex at `head` is the route over that edge or comes after it.
proof fn lemma_route_is_first(
    adjacency: &Adjacency,
    from: usize,
    visited: Seq<bool>,
    inbound: Seq<usize>,
    dist: Seq<nat>,
    route: Seq<Seq<usize>>,
    order: Seq<usize>,
    head: int,
    k: int,
    steps: Seq<usize>,
)
    requires
        adjacency.wf(),
        searching(adjacency, from, visited, inbound, dist, route, order, head, k),
        head < order.len(),
        k < adjacency.outgoing[order[head] as int]@.len(),
        !visited[adjacency.targets[adjacency.outgoing[order[head] as int][k] as int] as int],
        is_walk(
            adjacency.links(),
            from,
            adjacency.targets[adjacency.outgoing[order[head] as int][k] as int],
            steps,
        ),
    ensures
        ({
            let u = order[head];
            let e = adjacency.outgoing[u as int][k];
            &&& steps.len() >= dist[u as int] + 1
            &&& steps.len() == dist[u as int] + 1 ==> steps == route[u as int].push(e) || lex_lt(
                route[u as int].push(e),
                steps,
            )
        }),
{
    let links = adjacency.links();
    let u = order[head];
    assert(0 <= head && 0 <= k && u < adjacency.names.len() && dist.len() == adjacency.names.len()) by {
        reveal(searching);
    }
    assert(adjacency.lists_outgoing(u as int));
    let list = adjacency.outgoing[u as int]@;
    let e = list[k];
    let w = adjacency.targets[e as int];
    let level = dist[u as int];
    if steps.len() <= level {
        lemma_walk_found(adjacency, from, visited, inbound, dist, route, order, head, k, w, steps);
    } else if steps.len() == level + 1 {
        let e2 = steps[steps.len() - 1];
        let shorter = steps.drop_last();
        let u2 = links[e2 as int].0;
        lemma_walk_drop_last(links, from, w, steps);
        lemma_walk_found(
            adjacency,
            from,
            visited,
            inbound,
            dist,
            route,
            order,
            head,
            k,
            u2,
            shorter,
        );
        assert(steps =~= shorter.push(e2));
        reveal(searching);
        assert(order.contains(u2));
        let p = choose|p: int| 0 <= p < order.len() && order[p] == u2;
        assert(order[p] == adjacency.sources[e2 as int]);
        if p < head {
            assert(is_followed(adjacency, order, head, k, e2 as int));
        }
        assert(dist[order[head] as int] <= dist[order[p] as int]);
        assert(shorter.len() == dist[u2 as int]);
        assert(is_walk(links, from, u2, shorter));
        assert(shorter == route[u2 as int] || lex_lt(route[u2 as int], shorter));
        if p > head {
            assert(lex_lt(route[order[head] as int], route[order[p] as int]));
            if shorter == route[u2 as int] {
            } else {
                lemma_lex_trans(route[u as int], route[u2 as int], shorter);
            }
            lemma_lex_extend(route[u as int], shorter, e, e2);
        } else {
            assert(u2 == u);
            if shorter == route[u as int] {
                assert(list.contains(e2));
                let j2 = choose|j: int| 0 <= j < list.len() && list[j] == e2;
                if j2 < k {
                    assert(adjacency.outgoing[adjacency.sources[e2 as int] as int][j2] == e2);
                    assert(is_followed(adjacency, order, head, k, e2 as int));
                }
                if j2 > k {
                    assert(list[k] < list[j2]);
                    lemma_lex_last(route[u as int], e, e2);
                }
            } else {
                lemma_lex_extend(route[u as int], shorter, e, e2);
            }
        }
    }
}

/// The route over the `k`-th edge that leaves the vertex at `head` comes
/// after the routes of the same length that were found before.
proof fn lemma_route_is_later(
    adjacency: &Adjacency,
    from: usize,
    visited: Seq<bool>,
    inbound: Seq<usize>,
    dist: Seq<nat>,
    route: Seq<Seq<usize>>,
    order: Seq<usize>,
    head: int,
    k: int,
    i: int,
)
    requires
        adjacency.wf(),
        searching(adjacency, from, visited, inbound, dist, route, order, head, k),
        head < order.len(),
        k < adjacency.outgoing[order[head] as int]@.len(),
        0 <= i < order.len(),
        dist[order[i] as int] == dist[order[head] as int] + 1,
    ensures
        lex_lt(
            route[order[i] as int],
            route[order[head] as int].push(adjacency.outgoing[order[head] as int][k]),
        ),
{
    reveal(searching);
    let u = order[head];
    assert(adjacency.lists_outgoing(u as int));
    let list = adjacency.outgoing[u as int]@;
    let e = list[k];
    let z = order[i];
    assert(visited[z as int] && z != from);
    assert(is_hung(adjacency, visited, inbound, dist, route, order, head, k, z as int));
    let ez = inbound[z as int];
    let uz = adjacency.sources[ez as int];
    let q = choose|q: int|
        0 <= q < order.len() && #[trigger] order[q] == adjacency.sources[ez as int] && (q < head
            || (q == head && exists|j: int|
            0 <= j < k && #[trigger] adjacency.outgoing[adjacency.sources[ez as int] as int][j]
                == ez));
    if q < head {
        assert(dist[order[q] as int] == dist[order[head] as int]);
        assert(lex_lt(route[order[q] as int], route[order[head] as int]));
        lemma_lex_extend(route[uz as int], route[u as int], ez, e);
    } else {
        let j = choose|j: int|
            0 <= j < k && #[trigger] adjacency.outgoing[adjacency.sources[ez as int] as int][j]
                == ez;
        assert(list[j] < list[k]);
        lemma_lex_last(route[u as int], ez, e);
    }
}

/// The edges followed so far are still followed once one more is, or one
/// more vertex is found.
proof fn lemma_followed_grows(
    adjacency: &Adjacency,
    order: Seq<usize>,
    longer: Seq<usize>,
    head: int,
    k: int,
    e: int,
)
    requires
        adjacency.wf(),
        0 <= head < order.len(),
        order[head] < adjacency.names.len(),
        order.len() <= longer.len(),
        forall|i: int| 0 <= i < order.len() ==> order[i] == longer[i],
        0 <= k < adjacency.outgoing[order[head] as int]@.len(),
        0 <= e < adjacency.sources.len(),
    ensures
        is_followed(adjacency, longer, head, k + 1, e) <==> is_followed(adjacency, order, head, k, e)
            || e == adjacency.outgoing[order[head] as int][k],
{
    let s = adjacency.sources[e];
    let u = order[head];
    assert(adjacency.lists_outgoing(u as int));
    if is_followed(adjacency, order, head, k, e) {
        let q = choose|q: int|
            0 <= q < order.len() && #[trigger] order[q] == s && (q < head || (q == head
                && exists|j: int| 0 <= j < k && #[trigger] adjacency.outgoing[s as int][j] == e));
        assert(longer[q] == s);
        if q == head {
            let j = choose|j: int| 0 <= j < k && #[trigger] adjacency.outgoing[s as int][j] == e;
            assert(0 <= j < k + 1 && adjacency.outgoing[s as int][j] == e);
        }
    }
    if e == adjacency.outgoing[u as int][k] {
        assert(longer[head] == s);
        assert(0 <= k < k + 1 && adjacency.outgoing[s as int][k] == e);
    }
    if is_followed(adjacency, longer, head, k + 1, e) {
        let q = choose|q: int|
            0 <= q < longer.len() && #[trigger] longer[q] == s && (q < head || (q == head
                && exists|j: int| 0 <= j < k + 1 && #[trigger] adjacency.outgoing[s as int][j] == e));
        assert(order[q] == s);
        if q == head {
            let j = choose|j: int|
                0 <= j < k + 1 && #[trigger] adjacency.outgoing[s as int][j] == e;
            if j < k {
                assert(is_followed(adjacency, order, head, k, e));
            }
        } else {
            assert(is_followed(adjacency, order, head, k, e));
        }
    }
}

/// Following the next edge that leaves the vertex at `head` to a vertex
/// that has not been found.
proof fn lemma_discover(
    adjacency: &Adjacency,
    from: usize,
    visited: Seq<bool>,
    inbound: Seq<usize>,
    dist: Seq<nat>,
    route: Seq<Seq<usize>>,
    order: Seq<usize>,
    head: int,
    k: int,
)
    requires
        adjacency.wf(),
        searching(adjacency, from, visited, inbound, dist, route, order, head, k),
        head < order.len(),
        k < adjacency.outgoing[order[head] as int]@.len(),
        !visited[adjacency.targets[adjacency.outgoing[order[head] as int][k] as int] as int],
    ensures
        ({
            let u = order[head];
            let e = adjacency.outgoing[u as int][k];
            let w = adjacency.targets[e as int];
            searching(
                adjacency,
                from,
                visited.update(w as int, true),
                inbound.update(w as int, e),
                dist.update(w as int, dist[u as int] + 1),
                route.update(w as int, route[u as int].push(e)),
                order.push(w),
                head,
                k + 1,
            )
        }),
{
    let n = adjacency.names.len() as int;
    let m = adjacency.sources.len() as int;
    let links = adjacency.links();
    let u = order[head];
    assert(0 <= head && 0 <= k && u < n && visited[u as int] && dist.len() == n && order[0] == from
        && visited[from as int] && visited.len() == n && route.len() == n && inbound.len() == n) by {
        reveal(searching);
    }
    assert(adjacency.lists_outgoing(u as int));
    let list = adjacency.outgoing[u as int]@;
    let e = list[k];
    let w = adjacency.targets[e as int];
    let level = dist[u as int];
    let visited2 = visited.update(w as int, true);
    let inbound2 = inbound.update(w as int, e);
    let dist2 = dist.update(w as int, level + 1);
    let route2 = route.update(w as int, route[u as int].push(e));
    let order2 = order.push(w);
    assert(adjacency.sources[e as int] == u);
    assert(links[e as int] == (u, w));
    assert(w < n);
    assert(w != from && w != u);
    assert forall|x: int| 0 <= x < m implies (is_followed(adjacency, order2, head, k + 1, x)
        <==> is_followed(adjacency, order, head, k, x) || x == e) by {
        lemma_followed_grows(adjacency, order, order2, head, k, x);
    }
    assert forall|v: int, steps: Seq<usize>|
        0 <= v < n && visited2[v] && #[trigger] is_walk(links, from, v as usize, steps) implies dist2[v]
        <= steps.len() && (steps.len() == dist2[v] ==> steps == route2[v] || lex_lt(
        route2[v],
        steps,
    )) by {
        if v == w {
            lemma_route_is_first(
                adjacency,
                from,
                visited,
                inbound,
                dist,
                route,
                order,
                head,
                k,
                steps,
            );
        } else {
            reveal(searching);
        }
    }
    assert forall|i: int, j: int|
        0 <= i < j < order2.len() && dist2[(#[trigger] order2[i]) as int] == dist2[(
        #[trigger] order2[j]) as int] implies lex_lt(
        route2[order2[i] as int],
        route2[order2[j] as int],
    ) by {
        reveal(searching);
        assert(!order.contains(w));
        if j < order.len() {
            assert(order[i] != w && order[j] != w);
            assert(lex_lt(route[order[i] as int], route[order[j] as int]));
        } else {
            assert(order[i] != w);
            lemma_route_is_later(adjacency, from, visited, inbound, dist, route, order, head, k, i);
        }
    }
    reveal(searching);
    assert(!order.contains(w));
    assert forall|i: int| 0 <= i < order.len() implies dist[(#[trigger] order[i]) as int] <= level
        + 1 by {
        if i < head {
            assert(dist[order[i] as int] <= dist[order[head] as int]);
        }
    }
    assert forall|v: int| 0 <= v < n && #[trigger] visited2[v] implies order2.contains(
        v as usize,
    ) by {
        if v == w {
            assert(order2[order.len() as int] == w);
        } else {
            assert(visited[v]);
            let i = choose|i: int| 0 <= i < order.len() && order[i] == v;
            assert(order2[i] == v);
        }
    }
    assert forall|i: int, j: int| 0 <= i <= j < order2.len() implies dist2[(
    #[trigger] order2[i]) as int] <= dist2[(#[trigger] order2[j]) as int] by {
        if j < order.len() {
            assert(dist[order[i] as int] <= dist[order[j] as int]);
        } else if i < order.len() {
            assert(dist[order[i] as int] <= level + 1);
        }
    }
    assert forall|i: int| head <= i < order2.len() implies dist2[(#[trigger] order2[i]) as int]
        <= dist2[order2[head] as int] + 1 by {
        if i < order.len() {
            assert(dist[order[i] as int] <= level + 1);
        }
    }
    assert forall|v: int| 0 <= v < n && #[trigger] visited2[v] && v != from implies is_hung(
        adjacency,
        visited2,
        inbound2,
        dist2,
        route2,
        order2,
        head,
        k + 1,
        v,
    ) by {
        if v != w {
            assert(visited[v]);
            assert(is_hung(adjacency, visited, inbound, dist, route, order, head, k, v));
            assert(adjacency.sources[inbound[v] as int] != w);
        }
    }
    assert forall|x: int|
        0 <= x < m && #[trigger] is_followed(
            adjacency,
            order2,
            head,
            k + 1,
            x,
        ) implies visited2[adjacency.targets[x] as int] && dist2[adjacency.targets[x] as int]
        <= dist2[adjacency.sources[x] as int] + 1 by {
        if x != e {
            assert(is_followed(adjacency, order, head, k, x));
            let q = choose|q: int| 0 <= q < order.len() && #[trigger] order[q] == adjacency.sources[x];
            assert(visited[order[q] as int]);
        }
    }
    assert forall|v: int| 0 <= v < n && #[trigger] visited2[v] implies is_walk(
        links,
        from,
        v as usize,
        route2[v],
    ) && route2[v].len() == dist2[v] by {
        if v == w {
            lemma_walk_push(links, from, u, route[u as int], e);
        } else {
            assert(visited[v]);
        }
    }
}

/// Following the next edge that leaves the vertex at `head` to a vertex
/// that has been found already.
proof fn lemma_pass(
    adjacency: &Adjacency,
    from: usize,
    visited: Seq<bool>,
    inbound: Seq<usize>,
    dist: Seq<nat>,
    route: Seq<Seq<usize>>,
    order: Seq<usize>,
    head: int,
    k: int,
)
    requires
        adjacency.wf(),
        searching(adjacency, from, visited, inbound, dist, route, order, head, k),
        head < order.len(),
        k < adjacency.outgoing[order[head] as int]@.len(),
        visited[adjacency.targets[adjacency.outgoing[order[head] as int][k] as int] as int],
    ensures
        searching(adjacency, from, visited, inbound, dist, route, order, head, k + 1),
{
    reveal(searching);
    let n = adjacency.names.len() as int;
    let m = adjacency.sources.len() as int;
    let u = order[head];
    assert(adjacency.lists_outgoing(u as int));
    let list = adjacency.outgoing[u as int]@;
    let e = list[k];
    let w = adjacency.targets[e as int];
    assert forall|x: int| 0 <= x < m implies (is_followed(adjacency, order, head, k + 1, x)
        <==> is_followed(adjacency, order, head, k, x) || x == e) by {
        lemma_followed_grows(adjacency, order, order, head, k, x);
    }
    assert(order.contains(w));
    let i = choose|i: int| 0 <= i < order.len() && order[i] == w;
    if i < head {
        assert(dist[order[i] as int] <= dist[order[head] as int]);
    }
    assert(dist[w as int] <= dist[u as int] + 1);
    assert forall|v: int| 0 <= v < n && #[trigger] visited[v] && v != from implies is_hung(
        adjacency,
        visited,
        inbound,
        dist,
        route,
        order,
        head,
        k + 1,
        v,
    ) by {
        assert(is_hung(adjacency, visited, inbound, dist, route, order, head, k, v));
        lemma_followed_grows(adjacency, order, order, head, k, inbound[v] as int);
    }
    assert forall|x: int|
        0 <= x < m && #[trigger] is_followed(
            adjacency,
            order,
            head,
            k + 1,
            x,
        ) implies visited[adjacency.targets[x] as int] && dist[adjacency.targets[x] as int]
        <= dist[adjacency.sources[x] as int] + 1 by {
        lemma_followed_grows(adjacency, order, order, head, k, x);
        if x != e {
            assert(is_followed(adjacency, order, head, k, x));
        }
    }
}

/// Once every edge that leaves the vertex at `head` has been followed, the
/// search moves on to the next vertex.
proof fn lemma_advance(
    adjacency: &Adjacency,
    from: usize,
    visited: Seq<bool>,
    inbound: Seq<usize>,
    dist: Seq<nat>,
    route: Seq<Seq<usize>>,
    order: Seq<usize>,
    head: int,
    k: int,
)
    requires
        adjacency.wf(),
        searching(adjacency, from, visited, inbound, dist, route, order, head, k),
        head < order.len(),
        k == adjacency.outgoing[order[head] as int]@.len(),
    ensures
        searching(adjacency, from, visited, inbound, dist, route, order, head + 1, 0),
{
    reveal(searching);
    let n = adjacency.names.len() as int;
    let m = adjacency.sources.len() as int;
    assert forall|i: int| head + 1 <= i < order.len() implies dist[(#[trigger] order[i]) as int]
        <= dist[order[head + 1] as int] + 1 by {
        assert(dist[order[head] as int] <= dist[order[head + 1] as int]);
    }
    assert forall|x: int| 0 <= x < m implies (#[trigger] is_followed(
        adjacency,
        order,
        head + 1,
        0,
        x,
    ) <==> is_followed(adjacency, order, head, k, x)) by {
        let s = adjacency.sources[x];
        if is_followed(adjacency, order, head, k, x) {
            let q = choose|q: int|
                0 <= q < order.len() && #[trigger] order[q] == s && (q < head || (q == head
                    && exists|j: int| 0 <= j < k && #[trigger] adjacency.outgoing[s as int][j] == x));
            assert(q < head + 1);
        }
        if is_followed(adjacency, order, head + 1, 0, x) {
            let q = choose|q: int|
                0 <= q < order.len() && #[trigger] order[q] == s && (q < head + 1 || (q == head + 1
                    && exists|j: int| 0 <= j < 0 && #[trigger] adjacency.outgoing[s as int][j] == x));
            if q == head {
                assert(adjacency.lists_outgoing(s as int));
                assert(adjacency.outgoing[s as int]@.contains(x as usize));
                let j = choose|j: int|
                    0 <= j < adjacency.outgoing[s as int]@.len() && adjacency.outgoing[s as int]@[j]
                        == x as usize;
                assert(adjacency.outgoing[s as int][j] == x);
            }
        }
    }
    assert forall|v: int| 0 <= v < n && #[trigger] visited[v] && v != from implies is_hung(
        adjacency,
        visited,
        inbound,
        dist,
        route,
        order,
        head + 1,
        0,
        v,
    ) by {
        assert(is_hung(adjacency, visited, inbound, dist, route, order, head, k, v));
        assert(is_followed(adjacency, order, head + 1, 0, inbound[v] as int) <==> is_followed(
            adjacency,
            order,
            head,
            k,
            inbound[v] as int,
        ));
    }
    assert forall|x: int|
        0 <= x < m && #[trigger] is_followed(
            adjacency,
            order,
            head + 1,
            0,
            x,
        ) implies visited[adjacency.targets[x] as int] && dist[adjacency.targets[x] as int]
        <= dist[adjacency.sources[x] as int] + 1 by {
        assert(is_followed(adjacency, order, head, k, x));
    }
}

/// The first of the walks with the fewest edges from vertex `from` to vertex
/// `to`, if there is a walk at all.
pub fn breadth_first_search(adjacency: &Adjacency, from: usize, to: usize) -> (hops: Option<
    Vec<usize>,
>)
    requires
        adjacency.wf(),
        from < adjacency.names.len(),
        to < adjacency.names.len(),
    ensures
        match hops {
            Some(steps) => is_first_shortest_walk(adjacency.links(), from, to, steps@),
            None => !reachable(adjacency.links(), from, to),
        },
{
    let n = adjacency.names.len();
    let ghost links = adjacency.links();
    let mut visited: Vec<bool> = filled(n, false);
    let mut inbound: Vec<usize> = filled(n, 0usize);
    let mut queue: VecDeque<usize> = VecDeque::new();
    let ghost mut dist: Seq<nat> = Seq::new(n as nat, |v: int| 0nat);
    let ghost mut route: Seq<Seq<usize>> = Seq::new(n as nat, |v: int| Seq::<usize>::empty());
    let ghost mut order: Seq<usize> = seq![from];
    let ghost mut head: int = 0;
    visited[from] = true;
    queue.push_back(from);
    let mut arrived = false;
    proof {
        assert(queue@ =~= order.subrange(0, 1));
        assert(order[0] == from);
        assert forall|v: int| 0 <= v < n && #[trigger] visited@[v] implies order.contains(
            v as usize,
        ) by {
            assert(v == from);
        }
        assert forall|e: int| 0 <= e < adjacency.sources.len() implies !is_followed(
            adjacency,
            order,
            0,
            0,
            e,
        ) by {}
        assert(is_walk(links, from, from, route[from as int]));
        assert forall|v: int, steps: Seq<usize>|
            0 <= v < n && visited@[v] && #[trigger] is_walk(links, from, v as usize, steps) implies dist[v]
            <= steps.len() && (steps.len() == dist[v] ==> steps == route[v] || lex_lt(
            route[v],
            steps,
        )) by {
            if steps.len() == 0 {
                assert(steps =~= route[v]);
            }
        }
        assert(searching(adjacency, from, visited@, inbound@, dist, route, order, head, 0)) by {
            reveal(searching);
        }
    }
    while !arrived && queue.len() > 0
        invariant
            adjacency.wf(),
            n == adjacency.names.len(),
            links == adjacency.links(),
            from < n,
            to < n,
            searching(adjacency, from, visited@, inbound@, dist, route, order, head, 0),
            queue@ == order.subrange(head, order.len() as int),
            arrived ==> head < order.len() && order[head] == to,
            forall|i: int| 0 <= i < head ==> order[i] != to,
        decreases n - head, if arrived { 0int } else { 1int },
    {
        proof {
            lemma_searching_shape(adjacency, from, visited@, inbound@, dist, route, order, head, 0);
            lemma_distinct_below(order, n as nat);
            assert(queue@[0] == order[head]);
        }
        let current = queue[0];
        if current == to {
            arrived = true;
        } else {
            queue.pop_front();
            let list = &adjacency.outgoing[current];
            let mut k: usize = 0;
            while k < list.len()
                invariant
                    adjacency.wf(),
                    n == adjacency.names.len(),
                    links == adjacency.links(),
                    current < n,
                    current != to,
                    forall|i: int| 0 <= i < head ==> order[i] != to,
                    list == &adjacency.outgoing[current as int],
                    k <= list.len(),
                    0 <= head < order.len(),
                    order[head] == current,
                    searching(adjacency, from, visited@, inbound@, dist, route, order, head, k as int),
                    queue@ == order.subrange(head + 1, order.len() as int),
                decreases list.len() - k,
            {
                assert(adjacency.lists_outgoing(current as int));
                let e = list[k];
                let w = adjacency.targets[e];
                proof {
                    lemma_searching_shape(
                        adjacency,
                        from,
                        visited@,
                        inbound@,
                        dist,
                        route,
                        order,
                        head,
                        k as int,
                    );
                }
                if !visited[w] {
                    proof {
                        lemma_discover(
                            adjacency,
                            from,
                            visited@,
                            inbound@,
                            dist,
                            route,
                            order,
                            head,
                            k as int,
                        );
                        route = route.update(w as int, route[current as int].push(e));
                        dist = dist.update(w as int, dist[current as int] + 1);
                        order = order.push(w);
                    }
                    visited[w] = true;
                    inbound[w] = e;
                    queue.push_back(w);
                    assert(queue@ =~= order.subrange(head + 1, order.len() as int));
                } else {
                    proof {
                        lemma_pass(
                            adjacency,
                            from,
                            visited@,
                            inbound@,
                            dist,
                            route,
                            order,
                            head,
                            k as int,
                        );
                    }
                }
                k = k + 1;
            }
            proof {
                lemma_advance(
                    adjacency,
                    from,
                    visited@,
                    inbound@,
                    dist,
                    route,
                    order,
                    head,
                    k as int,
                );
                head = head + 1;
            }
        }
    }
    proof {
        lemma_searching_shape(adjacency, from, visited@, inbound@, dist, route, order, head, 0);
    }
    if arrived {
        let mut backwards: Vec<usize> = Vec::new();
        let mut v = to;
        assert(route[to as int] + backwards@.reverse() =~= route[to as int]);
        while v != from
            invariant
                adjacency.wf(),
                n == adjacency.names.len(),
                v < n,
                to < n,
                visited[v as int],
                searching(adjacency, from, visited@, inbound@, dist, route, order, head, 0),
                route[v as int] + backwards@.reverse() == route[to as int],
                backwards.len() + dist[v as int] == dist[to as int],
            decreases dist[v as int],
        {
            proof {
                lemma_searching_shape(
                    adjacency,
                    from,
                    visited@,
                    inbound@,
                    dist,
                    route,
                    order,
                    head,
                    0,
                );
            }
            let e = inbound[v];
            let ghost later = backwards@.reverse();
            backwards.push(e);
            proof {
                let u = adjacency.sources[e as int];
                assert(backwards@.reverse() =~= seq![e] + later);
                assert(route[u as int] + (seq![e] + later) =~= route[u as int].push(e) + later);
            }
            v = adjacency.sources[e];
        }
        let steps = reversed(&backwards);
        proof {
            assert(route[from as int] + backwards@.reverse() =~= backwards@.reverse());
        }
        Some(steps)
    } else {
        proof {
            assert(head == order.len());
            assert forall|steps: Seq<usize>| !is_walk(links, from, to, steps) by {
                if is_walk(links, from, to, steps) {
                    lemma_walk_found(
                        adjacency,
                        from,
                        visited@,
                        inbound@,
                        dist,
                        route,
                        order,
                        head,
                        0,
                        to,
                        steps,
                    );
                    let i = choose|i: int| 0 <= i < order.len() && order[i] == to;
                }
            }
        }
        None
    }
}

/// The names of the vertices along the walk `steps` that starts at `from`.
fn names_along(adjacency: &Adjacency, from: usize, steps: &Vec<usize>) -> (path: Vec<String>)
    requires
        adjacency.wf(),
        from < adjacency.names.len(),
        forall|i: int| 0 <= i < steps.len() ==> (#[trigger] steps[i]) < adjacency.targets.len(),
    ensures
        path.len() == steps.len() + 1,
        path[0]@ == adjacency.names[from as int]@,
        forall|i: int|
            0 <= i < steps.len() ==> (#[trigger] path[i + 1])@
                == adjacency.names[adjacency.targets[steps[i] as int] as int]@,
{
    let mut path: Vec<String> = Vec::new();
    path.push(adjacency.names[from].clone());
    let mut i: usize = 0;
    while i < steps.len()
        invariant
            adjacency.wf(),
            i <= steps.len(),
            path.len() == i + 1,
            path[0]@ == adjacency.names[from as int]@,
            forall|k: int| 0 <= k < steps.len() ==> (#[trigger] steps[k]) < adjacency.targets.len(),
            forall|k: int|
                0 <= k < i ==> (#[trigger] path[k + 1])@
                    == adjacency.names[adjacency.targets[steps[k] as int] as int]@,
        decreases steps.len() - i,
    {
        let e = steps[i];
        let w = adjacency.targets[e];
        path.push(adjacency.names[w].clone());
        i = i + 1;
    }
    path
}

/// Searches `graph` for a path from `from` to `to` with the fewest edges.
///
/// Among several such paths the result is the one whose edges, taken as
/// positions in the edge list, come first in dictionary order. A node is a
/// path to itself, whether or not the graph mentions it. The search follows
/// every edge of the graph, also those between identities that were not
/// declared.
pub fn find_path_between_nodes<W>(graph: &Graph<W>, from: &str, to: &str) -> (result: PathResult)
    ensures
        result.answers(graph, from@, to@),
{
    let ghost links = graph.links();
    let source = from.to_owned();
    let target = to.to_owned();
    if source == target {
        let mut path: Vec<String> = Vec::new();
        path.push(source);
        let hops: Vec<usize> = Vec::new();
        proof {
            assert(is_walk(links, from@, to@, hops@));
            assert forall|other: Seq<usize>| #[trigger]
                is_walk(links, from@, to@, other) && other.len() == hops@.len() implies other
                == hops@ by {
                assert(other =~= hops@);
            }
            assert(views(path@) =~= trail(links, from@, hops@));
        }
        return PathResult { path, exists: true, hops };
    }
    let adjacency = Adjacency::build(graph);
    let ghost names = views(adjacency.names@);
    proof {
        lemma_indexes(&adjacency, graph);
        assert forall|steps: Seq<usize>| #[trigger]
            is_walk(links, from@, to@, steps) implies names.contains(from@) && names.contains(
            to@,
        ) by {
            assert(steps.len() > 0);
            lemma_walk_ends(links, from@, to@, steps);
            assert(ends(links).contains(from@) && ends(links).contains(to@));
        }
    }
    let s = match adjacency.lookup(&source) {
        Some(s) => s,
        None => {
            return PathResult { path: Vec::new(), exists: false, hops: Vec::new() };
        },
    };
    let t = match adjacency.lookup(&target) {
        Some(t) => t,
        None => {
            return PathResult { path: Vec::new(), exists: false, hops: Vec::new() };
        },
    };
    proof {
        assert(names[s as int] == from@ && names[t as int] == to@);
        assert forall|steps: Seq<usize>|
            is_walk(adjacency.links(), s, t, steps) == #[trigger] is_walk(
                links,
                from@,
                to@,
                steps,
            ) by {
            lemma_relabel_walk(names, adjacency.links(), links, s, t, steps);
        }
    }
    match breadth_first_search(&adjacency, s, t) {
        Some(steps) => {
            let path = names_along(&adjacency, s, &steps);
            proof {
                assert(is_walk(adjacency.links(), s, t, steps@));
                assert(is_walk(links, from@, to@, steps@));
                assert(is_first_shortest_walk(links, from@, to@, steps@));
                assert forall|i: int| 0 <= i < path.len() implies views(path@)[i] == trail(
                    links,
                    from@,
                    steps@,
                )[i] by {
                    if i > 0 {
                        assert(path[(i - 1) + 1]@
                            == adjacency.names[adjacency.targets[steps[i - 1] as int] as int]@);
                        assert(steps@[i - 1] < links.len());
                        assert(adjacency.links()[steps[i - 1] as int].1
                            == adjacency.targets[steps[i - 1] as int]);
                    }
                }
                assert(views(path@) =~= trail(links, from@, steps@));
            }
            PathResult { path, exists: true, hops: steps }
        },
        None => {
            assert forall|steps: Seq<usize>| !is_walk(links, from@, to@, steps) by {
                assert(!is_walk(adjacency.links(), s, t, steps));
            }
            PathResult { path: Vec::new(), exists: false, hops: Vec::new() }
        },
    }
}

} // verus!
