//! Dependency ordering by repeated removal of vertices without pending
//! incoming edges.
//!
//! The vertices that start without incoming edges are taken in the order of
//! their declaration; after that each vertex is taken in the order in which
//! its last pending incoming edge was removed.

use std::collections::VecDeque;
use vstd::prelude::*;
use crate::adjacency::{lemma_indexes, Adjacency};
use crate::model::{views, Graph, TopologicalSortResult};
use crate::sequences::{
    filled,
    first_occurrences,
    lemma_distinct_below,
    lemma_first_occurrences_prefix,
};
use crate::walks::ends;
use crate::walks::{
    comes_before,
    has_incoming,
    is_dependency_order,
    is_queue_order,
    is_released_by,
    lemma_relabel_order,
    lemma_relabel_queue_order,
};

verus! {

impl TopologicalSortResult {
    /// This is the outcome of ordering `graph`: `sorted` is a dependency
    /// order as far as one exists, in the order in which a queue hands the
    /// nodes out, and `has_cycle` says that it is shorter than the list of
    /// declared nodes.
    pub open spec fn orders<W>(&self, graph: &Graph<W>) -> bool {
        &&& is_dependency_order(graph.links(), graph.labels(), views(self.sorted@))
        &&& is_queue_order(
            graph.links(),
            first_occurrences(graph.labels()),
            views(self.sorted@),
        )
        &&& self.has_cycle == (self.sorted.len() < graph.nodes.len())
    }
}

/// How many of the first `upto` edges end at `v` and are not yet removed.
pub open spec fn pending(targets: Seq<usize>, removed: Seq<bool>, v: usize, upto: int) -> nat
    decreases upto,
{
    if upto <= 0 {
        0
    } else {
        pending(targets, removed, v, upto - 1) + if targets[upto - 1] == v && !removed[upto - 1] {
            1nat
        } else {
            0nat
        }
    }
}

proof fn lemma_pending_bound(targets: Seq<usize>, removed: Seq<bool>, v: usize, upto: int)
    requires
        0 <= upto,
    ensures
        pending(targets, removed, v, upto) <= upto,
    decreases upto,
{
    if upto > 0 {
        lemma_pending_bound(targets, removed, v, upto - 1);
    }
}

/// Removing an edge takes one from the count of its target and leaves the
/// other counts as they were.
proof fn lemma_pending_remove(targets: Seq<usize>, removed: Seq<bool>, e: int, v: usize, upto: int)
    requires
        0 <= e < removed.len(),
        removed.len() == targets.len(),
        0 <= upto <= targets.len(),
        !removed[e],
    ensures
        pending(targets, removed.update(e, true), v, upto) + (if e < upto && targets[e] == v {
            1nat
        } else {
            0nat
        }) == pending(targets, removed, v, upto),
    decreases upto,
{
    if upto > 0 {
        lemma_pending_remove(targets, removed, e, v, upto - 1);
    }
}

/// A count above zero has an edge behind it.
proof fn lemma_pending_witness(targets: Seq<usize>, removed: Seq<bool>, v: usize, upto: int) -> (e: int)
    requires
        pending(targets, removed, v, upto) > 0,
    ensures
        0 <= e < upto,
        targets[e] == v,
        !removed[e],
    decreases upto,
{
    if targets[upto - 1] == v && !removed[upto - 1] {
        upto - 1
    } else {
        lemma_pending_witness(targets, removed, v, upto - 1)
    }
}

/// At a count of zero every edge that ends at the vertex is removed.
proof fn lemma_pending_zero(targets: Seq<usize>, removed: Seq<bool>, v: usize, upto: int, e: int)
    requires
        pending(targets, removed, v, upto) == 0,
        0 <= e < upto,
        targets[e] == v,
    ensures
        removed[e],
    decreases upto,
{
    if e < upto - 1 {
        lemma_pending_zero(targets, removed, v, upto - 1, e);
    }
}

/// Edge `e` has been removed: its source is in `sorted`, and if it is the
/// last vertex there, the edge is among the first `k` that leave it.
spec fn is_removed(adjacency: &Adjacency, sorted: Seq<usize>, k: int, e: int) -> bool {
    exists|i: int|
        0 <= i < sorted.len() && #[trigger] sorted[i] == adjacency.sources[e] && (i < sorted.len()
            - 1 || exists|j: int|
            0 <= j < k && #[trigger] adjacency.outgoing[adjacency.sources[e] as int][j] == e)
}

/// The state of the ordering: `sorted` holds the vertices taken so far,
/// `queue` those that wait to be taken, and of the edges that leave the last
/// vertex taken the first `k` are removed.
#[verifier::opaque]
spec fn peeling(
    adjacency: &Adjacency,
    in_degree: Seq<usize>,
    removed: Seq<bool>,
    sorted: Seq<usize>,
    queue: Seq<usize>,
    k: int,
) -> bool {
    let n = adjacency.names.len() as int;
    let m = adjacency.sources.len() as int;
    let links = adjacency.links();
    let order = sorted + queue;
    &&& in_degree.len() == n
    &&& removed.len() == m
    &&& order.no_duplicates()
    &&& forall|i: int|
        0 <= i < order.len() ==> {
            &&& (#[trigger] order[i]) < n
            &&& in_degree[order[i] as int] == 0
            &&& (order[i] < adjacency.declared || has_incoming(links, order[i]))
        }
    &&& forall|v: int|
        0 <= v < n ==> #[trigger] in_degree[v] == pending(adjacency.targets@, removed, v as usize, m)
    &&& forall|v: int|
        0 <= v < n && #[trigger] in_degree[v] == 0 && (v < adjacency.declared || has_incoming(
            links,
            v as usize,
        )) ==> order.contains(v as usize)
    &&& forall|e: int| 0 <= e < m ==> (#[trigger] removed[e] <==> is_removed(adjacency, sorted, k, e))
    &&& forall|i: int, e: int|
        0 <= i < sorted.len() && 0 <= e < m && (#[trigger] links[e]).1 == #[trigger] sorted[i]
            ==> exists|j: int| 0 <= j < i && sorted[j] == links[e].0
}

/// What the loops need to know of the state.
proof fn lemma_peeling_shape(
    adjacency: &Adjacency,
    in_degree: Seq<usize>,
    removed: Seq<bool>,
    sorted: Seq<usize>,
    queue: Seq<usize>,
    k: int,
)
    requires
        peeling(adjacency, in_degree, removed, sorted, queue, k),
    ensures
        in_degree.len() == adjacency.names.len(),
        (sorted + queue).no_duplicates(),
        sorted.no_duplicates(),
        forall|i: int| 0 <= i < sorted.len() ==> (#[trigger] sorted[i]) < adjacency.names.len(),
        forall|i: int| 0 <= i < queue.len() ==> (#[trigger] queue[i]) < adjacency.names.len(),
        sorted.len() + queue.len() <= adjacency.names.len(),
{
    reveal(peeling);
    let order = sorted + queue;
    assert forall|i: int| 0 <= i < sorted.len() implies (#[trigger] sorted[i])
        < adjacency.names.len() by {
        assert(order[i] == sorted[i]);
    }
    assert forall|i: int| 0 <= i < queue.len() implies (#[trigger] queue[i])
        < adjacency.names.len() by {
        assert(order[sorted.len() + i] == queue[i]);
    }
    assert forall|i: int, j: int| 0 <= i < sorted.len() && 0 <= j < sorted.len() && i != j implies sorted[i]
        != sorted[j] by {
        assert(order[i] == sorted[i] && order[j] == sorted[j]);
    }
    lemma_distinct_below(order, adjacency.names.len() as nat);
}

/// Before anything is taken: every edge is pending, and the declared
/// vertices without incoming edges wait in the order of their declaration.
proof fn lemma_peeling_start(adjacency: &Adjacency, in_degree: Seq<usize>, queue: Seq<usize>)
    requires
        adjacency.wf(),
        in_degree.len() == adjacency.names.len(),
        forall|v: int|
            0 <= v < adjacency.names.len() ==> #[trigger] in_degree[v] == pending(
                adjacency.targets@,
                Seq::new(adjacency.sources.len() as nat, |e: int| false),
                v as usize,
                adjacency.sources.len() as int,
            ),
        queue.no_duplicates(),
        forall|i: int|
            0 <= i < queue.len() ==> (#[trigger] queue[i]) < adjacency.declared
                && in_degree[queue[i] as int] == 0,
        forall|v: int|
            0 <= v < adjacency.declared && #[trigger] in_degree[v] == 0 ==> queue.contains(
                v as usize,
            ),
    ensures
        peeling(
            adjacency,
            in_degree,
            Seq::new(adjacency.sources.len() as nat, |e: int| false),
            Seq::empty(),
            queue,
            0,
        ),
{
    reveal(peeling);
    let n = adjacency.names.len() as int;
    let m = adjacency.sources.len() as int;
    let links = adjacency.links();
    let removed = Seq::new(m as nat, |e: int| false);
    let sorted = Seq::<usize>::empty();
    assert(sorted + queue =~= queue);
    assert forall|v: int|
        0 <= v < n && #[trigger] in_degree[v] == 0 && (v < adjacency.declared || has_incoming(
            links,
            v as usize,
        )) implies queue.contains(v as usize) by {
        if has_incoming(links, v as usize) {
            let e = choose|e: int| 0 <= e < links.len() && (#[trigger] links[e]).1 == v as usize;
            lemma_pending_zero(adjacency.targets@, removed, v as usize, m, e);
        }
    }
}

/// Taking the vertex at the front of the queue.
proof fn lemma_peeling_take(
    adjacency: &Adjacency,
    in_degree: Seq<usize>,
    removed: Seq<bool>,
    sorted: Seq<usize>,
    queue: Seq<usize>,
    k: int,
)
    requires
        adjacency.wf(),
        peeling(adjacency, in_degree, removed, sorted, queue, k),
        sorted.len() > 0 ==> k == adjacency.outgoing[sorted[sorted.len() - 1] as int]@.len(),
        queue.len() > 0,
    ensures
        peeling(
            adjacency,
            in_degree,
            removed,
            sorted.push(queue[0]),
            queue.subrange(1, queue.len() as int),
            0,
        ),
{
    reveal(peeling);
    let n = adjacency.names.len() as int;
    let m = adjacency.sources.len() as int;
    let links = adjacency.links();
    let current = queue[0];
    let sorted2 = sorted.push(current);
    let queue2 = queue.subrange(1, queue.len() as int);
    let order = sorted + queue;
    assert(sorted2 + queue2 =~= order);
    assert(order[sorted.len() as int] == current);
    assert forall|i: int| 0 <= i < sorted.len() implies sorted[i] != current by {
        assert(order[i] == sorted[i]);
    }
    assert forall|e: int| 0 <= e < m implies (#[trigger] removed[e] <==> is_removed(
        adjacency,
        sorted2,
        0,
        e,
    )) by {
        let s = adjacency.sources[e];
        if is_removed(adjacency, sorted, k, e) {
            let i = choose|i: int|
                0 <= i < sorted.len() && #[trigger] sorted[i] == s && (i < sorted.len() - 1
                    || exists|j: int| 0 <= j < k && #[trigger] adjacency.outgoing[s as int][j] == e);
            assert(sorted2[i] == s && i < sorted2.len() - 1);
        }
        if is_removed(adjacency, sorted2, 0, e) {
            let i = choose|i: int|
                0 <= i < sorted2.len() && #[trigger] sorted2[i] == s && (i < sorted2.len() - 1
                    || exists|j: int| 0 <= j < 0 && #[trigger] adjacency.outgoing[s as int][j] == e);
            assert(i < sorted.len());
            assert(sorted[i] == s);
            if i == sorted.len() - 1 {
                assert(adjacency.lists_outgoing(s as int));
                assert(adjacency.outgoing[s as int]@.contains(e as usize));
                let j = choose|j: int|
                    0 <= j < adjacency.outgoing[s as int]@.len() && adjacency.outgoing[s as int]@[j]
                        == e as usize;
                assert(adjacency.outgoing[s as int][j] == e);
            }
        }
    }
    assert forall|i: int, e: int|
        0 <= i < sorted2.len() && 0 <= e < m && (#[trigger] links[e]).1
            == #[trigger] sorted2[i] implies exists|j: int|
        0 <= j < i && sorted2[j] == links[e].0 by {
        if i < sorted.len() {
            assert(sorted[i] == sorted2[i]);
            let j = choose|j: int| 0 <= j < i && sorted[j] == links[e].0;
            assert(sorted2[j] == links[e].0);
        } else {
            assert(in_degree[current as int] == 0);
            lemma_pending_zero(adjacency.targets@, removed, current, m, e);
            assert(is_removed(adjacency, sorted, k, e));
            let j = choose|j: int| 0 <= j < sorted.len() && #[trigger] sorted[j] == adjacency.sources[e];
            assert(sorted2[j] == links[e].0);
        }
    }
}

/// Removing the next edge that leaves the vertex taken last: the count of
/// its target goes down by one, and at zero the target joins the queue.
proof fn lemma_peeling_remove(
    adjacency: &Adjacency,
    in_degree: Seq<usize>,
    removed: Seq<bool>,
    sorted: Seq<usize>,
    queue: Seq<usize>,
    k: int,
)
    requires
        adjacency.wf(),
        peeling(adjacency, in_degree, removed, sorted, queue, k),
        sorted.len() > 0,
        0 <= k < adjacency.outgoing[sorted[sorted.len() - 1] as int]@.len(),
    ensures
        ({
            let e = adjacency.outgoing[sorted[sorted.len() - 1] as int][k];
            let w = adjacency.targets[e as int];
            let less = (in_degree[w as int] - 1) as usize;
            &&& e < adjacency.targets.len()
            &&& w < adjacency.names.len()
            &&& in_degree[w as int] >= 1
            &&& peeling(
                adjacency,
                in_degree.update(w as int, less),
                removed.update(e as int, true),
                sorted,
                if less == 0 {
                    queue.push(w)
                } else {
                    queue
                },
                k + 1,
            )
        }),
{
    reveal(peeling);
    let n = adjacency.names.len() as int;
    let m = adjacency.sources.len() as int;
    let links = adjacency.links();
    let last = sorted.len() - 1;
    let current = sorted[last];
    let order = sorted + queue;
    assert(order[last] == current);
    assert(adjacency.lists_outgoing(current as int));
    let list = adjacency.outgoing[current as int]@;
    let e = list[k];
    let w = adjacency.targets[e as int];
    assert(adjacency.sources[e as int] == current);
    assert(sorted.no_duplicates()) by {
        assert forall|i: int, j: int|
            0 <= i < sorted.len() && 0 <= j < sorted.len() && i != j implies sorted[i]
            != sorted[j] by {
            assert(order[i] == sorted[i] && order[j] == sorted[j]);
        }
    }
    assert(!is_removed(adjacency, sorted, k, e as int)) by {
        if is_removed(adjacency, sorted, k, e as int) {
            let i = choose|i: int|
                0 <= i < sorted.len() && #[trigger] sorted[i] == current && (i < sorted.len() - 1
                    || exists|j: int|
                    0 <= j < k && #[trigger] adjacency.outgoing[current as int][j] == e);
            assert(i == last);
            let j = choose|j: int| 0 <= j < k && #[trigger] adjacency.outgoing[current as int][j] == e;
            assert(list[j] < list[k]);
        }
    }
    assert(!removed[e as int]);
    let removed2 = removed.update(e as int, true);
    lemma_pending_remove(adjacency.targets@, removed, e as int, w, m);
    assert(in_degree[w as int] >= 1);
    let less = (in_degree[w as int] - 1) as usize;
    let in_degree2 = in_degree.update(w as int, less);
    let queue2 = if less == 0 {
        queue.push(w)
    } else {
        queue
    };
    let order2 = sorted + queue2;
    assert forall|i: int| 0 <= i < order.len() implies order[i] != w by {
        assert(in_degree[order[i] as int] == 0);
    }
    assert(has_incoming(links, w)) by {
        assert(links[e as int].1 == w);
    }
    if less == 0 {
        assert(order2 =~= order.push(w));
    } else {
        assert(order2 =~= order);
    }
    assert forall|v: int| 0 <= v < n implies #[trigger] in_degree2[v] == pending(
        adjacency.targets@,
        removed2,
        v as usize,
        m,
    ) by {
        lemma_pending_remove(adjacency.targets@, removed, e as int, v as usize, m);
    }
    assert forall|v: int|
        0 <= v < n && #[trigger] in_degree2[v] == 0 && (v < adjacency.declared || has_incoming(
            links,
            v as usize,
        )) implies order2.contains(v as usize) by {
        if v == w {
            assert(order2[order.len() as int] == w);
        } else {
            assert(in_degree[v] == 0);
            assert(order.contains(v as usize));
            let i = choose|i: int| 0 <= i < order.len() && order[i] == v as usize;
            assert(order2[i] == v as usize);
        }
    }
    assert forall|x: int| 0 <= x < m implies (#[trigger] removed2[x] <==> is_removed(
        adjacency,
        sorted,
        k + 1,
        x,
    )) by {
        let s = adjacency.sources[x];
        if x == e {
            assert(sorted[last] == s && adjacency.outgoing[s as int][k] == x);
        } else {
            if is_removed(adjacency, sorted, k, x) {
                let i = choose|i: int|
                    0 <= i < sorted.len() && #[trigger] sorted[i] == s && (i < sorted.len() - 1
                        || exists|j: int|
                        0 <= j < k && #[trigger] adjacency.outgoing[s as int][j] == x);
                if i == sorted.len() - 1 {
                    let j = choose|j: int| 0 <= j < k && #[trigger] adjacency.outgoing[s as int][j] == x;
                    assert(0 <= j < k + 1);
                }
            }
            if is_removed(adjacency, sorted, k + 1, x) {
                let i = choose|i: int|
                    0 <= i < sorted.len() && #[trigger] sorted[i] == s && (i < sorted.len() - 1
                        || exists|j: int|
                        0 <= j < k + 1 && #[trigger] adjacency.outgoing[s as int][j] == x);
                if i == sorted.len() - 1 {
                    let j = choose|j: int|
                        0 <= j < k + 1 && #[trigger] adjacency.outgoing[s as int][j] == x;
                    assert(j != k);
                }
            }
        }
    }
}

/// Once the queue is empty what has been taken is a dependency order.
proof fn lemma_peeling_end(
    adjacency: &Adjacency,
    in_degree: Seq<usize>,
    removed: Seq<bool>,
    sorted: Seq<usize>,
    k: int,
)
    requires
        adjacency.wf(),
        peeling(adjacency, in_degree, removed, sorted, Seq::empty(), k),
        sorted.len() > 0 ==> k == adjacency.outgoing[sorted[sorted.len() - 1] as int]@.len(),
    ensures
        is_dependency_order(adjacency.links(), adjacency.declared_vertices(), sorted),
{
    reveal(peeling);
    let n = adjacency.names.len() as int;
    let m = adjacency.sources.len() as int;
    let links = adjacency.links();
    let declared = adjacency.declared_vertices();
    assert(sorted + Seq::<usize>::empty() =~= sorted);
    assert forall|i: int| 0 <= i < sorted.len() implies declared.contains(#[trigger] sorted[i])
        || has_incoming(links, sorted[i]) by {
        if sorted[i] < adjacency.declared {
            assert(declared[sorted[i] as int] == sorted[i]);
        }
    }
    assert forall|v: usize|
        !(#[trigger] sorted.contains(v)) && (declared.contains(v) || has_incoming(
            links,
            v,
        )) implies exists|e: int|
        0 <= e < links.len() && (#[trigger] links[e]).1 == v && !sorted.contains(links[e].0) by {
        if has_incoming(links, v) {
            let e = choose|e: int| 0 <= e < links.len() && (#[trigger] links[e]).1 == v;
            assert(adjacency.targets[e] < n);
        }
        assert(v < n);
        assert(in_degree[v as int] > 0);
        let e = lemma_pending_witness(adjacency.targets@, removed, v, m);
        assert(!is_removed(adjacency, sorted, k, e));
        let s = adjacency.sources[e];
        if sorted.contains(s) {
            let i = choose|i: int| 0 <= i < sorted.len() && sorted[i] == s;
            if i == sorted.len() - 1 {
                assert(adjacency.lists_outgoing(s as int));
                assert(adjacency.outgoing[s as int]@.contains(e as usize));
                let j = choose|j: int|
                    0 <= j < adjacency.outgoing[s as int]@.len() && adjacency.outgoing[s as int]@[j]
                        == e as usize;
                assert(adjacency.outgoing[s as int][j] == e);
            }
            assert(false);
        }
        assert(links[e].1 == v && links[e].0 == s);
    }
}

/// What the state says of the edges removed: which they are, and that every
/// edge that leads to a vertex with a count of zero is among them.
proof fn lemma_peeling_removed(
    adjacency: &Adjacency,
    in_degree: Seq<usize>,
    removed: Seq<bool>,
    sorted: Seq<usize>,
    queue: Seq<usize>,
    k: int,
)
    requires
        peeling(adjacency, in_degree, removed, sorted, queue, k),
    ensures
        removed.len() == adjacency.sources.len(),
        forall|e: int|
            0 <= e < adjacency.sources.len() ==> (#[trigger] removed[e] <==> is_removed(
                adjacency,
                sorted,
                k,
                e,
            )),
        forall|e: int|
            0 <= e < adjacency.sources.len() && (#[trigger] adjacency.targets[e])
                < adjacency.names.len() && in_degree[adjacency.targets[e] as int] == 0
                ==> removed[e],
        forall|i: int|
            0 <= i < sorted.len() ==> (#[trigger] sorted[i]) < adjacency.declared || has_incoming(
                adjacency.links(),
                sorted[i],
            ),
{
    reveal(peeling);
    let m = adjacency.sources.len() as int;
    assert forall|e: int|
        0 <= e < m && (#[trigger] adjacency.targets[e]) < adjacency.names.len()
            && in_degree[adjacency.targets[e] as int] == 0 implies removed[e] by {
        let v = adjacency.targets[e];
        assert(in_degree[v as int] == pending(adjacency.targets@, removed, v, m));
        lemma_pending_zero(adjacency.targets@, removed, v, m, e);
    }
    assert forall|i: int| 0 <= i < sorted.len() implies (#[trigger] sorted[i]) < adjacency.declared
        || has_incoming(adjacency.links(), sorted[i]) by {
        assert((sorted + queue)[i] == sorted[i]);
    }
}

/// Edge `e1` was removed no later than edge `e2`: its source stands earlier
/// in `sorted`, or the two leave the same vertex and `e1` is not the later.
spec fn is_no_later(adjacency: &Adjacency, sorted: Seq<usize>, e1: int, e2: int) -> bool {
    exists|i1: int, i2: int|
        0 <= i1 < sorted.len() && 0 <= i2 < sorted.len() && #[trigger] sorted[i1]
            == adjacency.sources[e1] && #[trigger] sorted[i2] == adjacency.sources[e2] && (i1 < i2
            || (i1 == i2 && e1 <= e2))
}

/// Edge `e1` was removed before edge `e2`.
spec fn is_earlier(adjacency: &Adjacency, sorted: Seq<usize>, e1: int, e2: int) -> bool {
    exists|i1: int, i2: int|
        0 <= i1 < sorted.len() && 0 <= i2 < sorted.len() && #[trigger] sorted[i1]
            == adjacency.sources[e1] && #[trigger] sorted[i2] == adjacency.sources[e2] && (i1 < i2
            || (i1 == i2 && e1 < e2))
}

/// Edge `c` released vertex `v`: it leads to `v`, has been removed, and was
/// the last to be removed of the edges that lead to `v`.
spec fn is_cause(adjacency: &Adjacency, sorted: Seq<usize>, k: int, v: usize, c: usize) -> bool {
    &&& c < adjacency.sources.len()
    &&& adjacency.targets[c as int] == v
    &&& is_removed(adjacency, sorted, k, c as int)
    &&& forall|e: int|
        0 <= e < adjacency.sources.len() && #[trigger] adjacency.targets[e] == v ==> is_no_later(
            adjacency,
            sorted,
            e,
            c as int,
        )
}

/// The order of the queue. Of the vertices taken and waiting, those without
/// incoming edges come first, by their numbers; each of the others has in
/// `cause` the edge that released it, and they stand in the order in which
/// those edges were removed.
#[verifier::opaque]
spec fn queueing(
    adjacency: &Adjacency,
    sorted: Seq<usize>,
    queue: Seq<usize>,
    k: int,
    cause: Seq<usize>,
) -> bool {
    let links = adjacency.links();
    let order = sorted + queue;
    &&& cause.len() == adjacency.names.len()
    &&& forall|a: int, b: int|
        0 <= a < b < order.len() && !has_incoming(links, #[trigger] order[b]) ==> !has_incoming(
            links,
            #[trigger] order[a],
        ) && order[a] < order[b]
    &&& forall|b: int|
        0 <= b < order.len() && has_incoming(links, #[trigger] order[b]) ==> is_cause(
            adjacency,
            sorted,
            k,
            order[b],
            cause[order[b] as int],
        )
    &&& forall|a: int, b: int|
        0 <= a < b < order.len() && has_incoming(links, #[trigger] order[a]) && has_incoming(
            links,
            #[trigger] order[b],
        ) ==> is_earlier(adjacency, sorted, cause[order[a] as int] as int, cause[order[b] as int] as int)
}

/// Taking a vertex does not change which edges are removed.
proof fn lemma_removed_take(adjacency: &Adjacency, sorted: Seq<usize>, current: usize, k: int, e: int)
    requires
        adjacency.wf(),
        0 <= e < adjacency.sources.len(),
        forall|i: int| 0 <= i < sorted.len() ==> sorted[i] != current && (#[trigger] sorted[i])
            < adjacency.names.len(),
        sorted.len() > 0 ==> k == adjacency.outgoing[sorted[sorted.len() - 1] as int]@.len(),
    ensures
        is_removed(adjacency, sorted.push(current), 0, e) <==> is_removed(adjacency, sorted, k, e),
{
    let s = adjacency.sources[e];
    let sorted2 = sorted.push(current);
    if is_removed(adjacency, sorted, k, e) {
        let i = choose|i: int|
            0 <= i < sorted.len() && #[trigger] sorted[i] == s && (i < sorted.len() - 1
                || exists|j: int| 0 <= j < k && #[trigger] adjacency.outgoing[s as int][j] == e);
        assert(sorted2[i] == s && i < sorted2.len() - 1);
    }
    if is_removed(adjacency, sorted2, 0, e) {
        let i = choose|i: int|
            0 <= i < sorted2.len() && #[trigger] sorted2[i] == s && (i < sorted2.len() - 1
                || exists|j: int| 0 <= j < 0 && #[trigger] adjacency.outgoing[s as int][j] == e);
        assert(i < sorted.len());
        assert(sorted[i] == s);
        if i == sorted.len() - 1 {
            assert(adjacency.lists_outgoing(s as int));
            assert(adjacency.outgoing[s as int]@.contains(e as usize));
            let j = choose|j: int|
                0 <= j < adjacency.outgoing[s as int]@.len() && adjacency.outgoing[s as int]@[j]
                    == e as usize;
            assert(adjacency.outgoing[s as int][j] == e);
        }
    }
}

/// Removing the next edge that leaves the last vertex taken adds that edge
/// to the removed ones, and no other.
proof fn lemma_removed_next(adjacency: &Adjacency, sorted: Seq<usize>, k: int, e: int)
    requires
        adjacency.wf(),
        0 <= e < adjacency.sources.len(),
        sorted.no_duplicates(),
        sorted.len() > 0,
        sorted[sorted.len() - 1] < adjacency.names.len(),
        0 <= k < adjacency.outgoing[sorted[sorted.len() - 1] as int]@.len(),
    ensures
        is_removed(adjacency, sorted, k + 1, e) <==> is_removed(adjacency, sorted, k, e) || e
            == adjacency.outgoing[sorted[sorted.len() - 1] as int][k],
{
    let s = adjacency.sources[e];
    let last = sorted.len() - 1;
    let current = sorted[last];
    assert(adjacency.lists_outgoing(current as int));
    if is_removed(adjacency, sorted, k, e) {
        let i = choose|i: int|
            0 <= i < sorted.len() && #[trigger] sorted[i] == s && (i < sorted.len() - 1
                || exists|j: int| 0 <= j < k && #[trigger] adjacency.outgoing[s as int][j] == e);
        if i == sorted.len() - 1 {
            let j = choose|j: int| 0 <= j < k && #[trigger] adjacency.outgoing[s as int][j] == e;
            assert(0 <= j < k + 1);
        }
    }
    if e == adjacency.outgoing[current as int][k] {
        assert(sorted[last] == s && adjacency.outgoing[s as int][k] == e);
    }
    if is_removed(adjacency, sorted, k + 1, e) {
        let i = choose|i: int|
            0 <= i < sorted.len() && #[trigger] sorted[i] == s && (i < sorted.len() - 1
                || exists|j: int| 0 <= j < k + 1 && #[trigger] adjacency.outgoing[s as int][j] == e);
        if i == sorted.len() - 1 {
            let j = choose|j: int| 0 <= j < k + 1 && #[trigger] adjacency.outgoing[s as int][j] == e;
            if j < k {
                assert(is_removed(adjacency, sorted, k, e));
            }
        } else {
            assert(is_removed(adjacency, sorted, k, e));
        }
    }
}

/// The order in which two edges were removed stays as it is when a vertex
/// is taken.
proof fn lemma_rank_stable(adjacency: &Adjacency, sorted: Seq<usize>, current: usize, e1: int, e2: int)
    ensures
        is_no_later(adjacency, sorted, e1, e2) ==> is_no_later(
            adjacency,
            sorted.push(current),
            e1,
            e2,
        ),
        is_earlier(adjacency, sorted, e1, e2) ==> is_earlier(adjacency, sorted.push(current), e1, e2),
{
    let sorted2 = sorted.push(current);
    if is_no_later(adjacency, sorted, e1, e2) {
        let (i1, i2) = choose|i1: int, i2: int|
            0 <= i1 < sorted.len() && 0 <= i2 < sorted.len() && #[trigger] sorted[i1]
                == adjacency.sources[e1] && #[trigger] sorted[i2] == adjacency.sources[e2] && (i1
                < i2 || (i1 == i2 && e1 <= e2));
        assert(sorted2[i1] == adjacency.sources[e1] && sorted2[i2] == adjacency.sources[e2]);
    }
    if is_earlier(adjacency, sorted, e1, e2) {
        let (i1, i2) = choose|i1: int, i2: int|
            0 <= i1 < sorted.len() && 0 <= i2 < sorted.len() && #[trigger] sorted[i1]
                == adjacency.sources[e1] && #[trigger] sorted[i2] == adjacency.sources[e2] && (i1
                < i2 || (i1 == i2 && e1 < e2));
        assert(sorted2[i1] == adjacency.sources[e1] && sorted2[i2] == adjacency.sources[e2]);
    }
}

/// An edge that has been removed was removed before the next edge that
/// leaves the last vertex taken.
proof fn lemma_removed_is_earlier(adjacency: &Adjacency, sorted: Seq<usize>, k: int, e: int)
    requires
        adjacency.wf(),
        0 <= e < adjacency.sources.len(),
        sorted.no_duplicates(),
        sorted.len() > 0,
        sorted[sorted.len() - 1] < adjacency.names.len(),
        0 <= k < adjacency.outgoing[sorted[sorted.len() - 1] as int]@.len(),
        is_removed(adjacency, sorted, k, e),
    ensures
        is_earlier(
            adjacency,
            sorted,
            e,
            adjacency.outgoing[sorted[sorted.len() - 1] as int][k] as int,
        ),
{
    let s = adjacency.sources[e];
    let last = sorted.len() - 1;
    let current = sorted[last];
    assert(adjacency.lists_outgoing(current as int));
    let list = adjacency.outgoing[current as int]@;
    let next = list[k];
    assert(adjacency.sources[next as int] == current);
    let i = choose|i: int|
        0 <= i < sorted.len() && #[trigger] sorted[i] == s && (i < sorted.len() - 1 || exists|j: int|
            0 <= j < k && #[trigger] adjacency.outgoing[s as int][j] == e);
    if i == last {
        let j = choose|j: int| 0 <= j < k && #[trigger] adjacency.outgoing[s as int][j] == e;
        assert(list[j] < list[k]);
    }
    assert(sorted[i] == adjacency.sources[e] && sorted[last] == adjacency.sources[next as int]);
}

/// Before anything is taken the queue holds vertices without incoming
/// edges, by their numbers.
proof fn lemma_queueing_start(adjacency: &Adjacency, queue: Seq<usize>, cause: Seq<usize>)
    requires
        cause.len() == adjacency.names.len(),
        forall|i: int| 0 <= i < queue.len() ==> !has_incoming(adjacency.links(), #[trigger] queue[i]),
        forall|i: int, j: int| 0 <= i < j < queue.len() ==> queue[i] < queue[j],
    ensures
        queueing(adjacency, Seq::empty(), queue, 0, cause),
{
    reveal(queueing);
    assert(Seq::<usize>::empty() + queue =~= queue);
}

/// Taking the vertex at the front of the queue keeps the order.
proof fn lemma_queueing_take(
    adjacency: &Adjacency,
    sorted: Seq<usize>,
    queue: Seq<usize>,
    k: int,
    cause: Seq<usize>,
)
    requires
        adjacency.wf(),
        queueing(adjacency, sorted, queue, k, cause),
        (sorted + queue).no_duplicates(),
        forall|i: int| 0 <= i < sorted.len() ==> (#[trigger] sorted[i]) < adjacency.names.len(),
        sorted.len() > 0 ==> k == adjacency.outgoing[sorted[sorted.len() - 1] as int]@.len(),
        queue.len() > 0,
    ensures
        queueing(adjacency, sorted.push(queue[0]), queue.subrange(1, queue.len() as int), 0, cause),
{
    reveal(queueing);
    let links = adjacency.links();
    let m = adjacency.sources.len() as int;
    let current = queue[0];
    let sorted2 = sorted.push(current);
    let queue2 = queue.subrange(1, queue.len() as int);
    let order = sorted + queue;
    assert(sorted2 + queue2 =~= order);
    assert(order[sorted.len() as int] == current);
    assert forall|i: int| 0 <= i < sorted.len() implies sorted[i] != current && (#[trigger] sorted[i])
        < adjacency.names.len() by {
        assert(order[i] == sorted[i]);
    }
    assert forall|b: int| 0 <= b < order.len() && has_incoming(
        links,
        #[trigger] order[b],
    ) implies is_cause(adjacency, sorted2, 0, order[b], cause[order[b] as int]) by {
        let v = order[b];
        let c = cause[v as int];
        assert(is_cause(adjacency, sorted, k, v, c));
        lemma_removed_take(adjacency, sorted, current, k, c as int);
        assert forall|e: int| 0 <= e < m && #[trigger] adjacency.targets[e] == v implies is_no_later(
            adjacency,
            sorted2,
            e,
            c as int,
        ) by {
            lemma_rank_stable(adjacency, sorted, current, e, c as int);
        }
    }
    assert forall|a: int, b: int|
        0 <= a < b < order.len() && has_incoming(links, #[trigger] order[a]) && has_incoming(
            links,
            #[trigger] order[b],
        ) implies is_earlier(
        adjacency,
        sorted2,
        cause[order[a] as int] as int,
        cause[order[b] as int] as int,
    ) by {
        lemma_rank_stable(
            adjacency,
            sorted,
            current,
            cause[order[a] as int] as int,
            cause[order[b] as int] as int,
        );
    }
}

/// Removing the next edge that leaves the last vertex taken keeps the
/// order, also where the edge's target joins the queue: every edge that
/// leads to it has then been removed, and this one last.
proof fn lemma_queueing_remove(
    adjacency: &Adjacency,
    removed: Seq<bool>,
    sorted: Seq<usize>,
    queue: Seq<usize>,
    k: int,
    cause: Seq<usize>,
    joins: bool,
)
    requires
        adjacency.wf(),
        queueing(adjacency, sorted, queue, k, cause),
        sorted.len() > 0,
        sorted.no_duplicates(),
        forall|i: int| 0 <= i < sorted.len() ==> (#[trigger] sorted[i]) < adjacency.names.len(),
        0 <= k < adjacency.outgoing[sorted[sorted.len() - 1] as int]@.len(),
        removed.len() == adjacency.sources.len(),
        forall|e: int|
            0 <= e < adjacency.sources.len() ==> (#[trigger] removed[e] <==> is_removed(
                adjacency,
                sorted,
                k + 1,
                e,
            )),
        joins ==> forall|e: int|
            0 <= e < adjacency.sources.len() && #[trigger] adjacency.targets[e]
                == adjacency.targets[adjacency.outgoing[sorted[sorted.len() - 1] as int][k] as int]
                ==> removed[e],
    ensures
        ({
            let e = adjacency.outgoing[sorted[sorted.len() - 1] as int][k];
            let w = adjacency.targets[e as int];
            queueing(
                adjacency,
                sorted,
                if joins {
                    queue.push(w)
                } else {
                    queue
                },
                k + 1,
                if joins {
                    cause.update(w as int, e)
                } else {
                    cause
                },
            )
        }),
{
    reveal(queueing);
    let links = adjacency.links();
    let m = adjacency.sources.len() as int;
    let last = sorted.len() - 1;
    let current = sorted[last];
    assert(adjacency.lists_outgoing(current as int));
    let list = adjacency.outgoing[current as int]@;
    let e = list[k];
    let w = adjacency.targets[e as int];
    assert(adjacency.sources[e as int] == current);
    assert(w < adjacency.names.len());
    assert(has_incoming(links, w)) by {
        assert(links[e as int].1 == w);
    }
    let order = sorted + queue;
    let queue2 = if joins {
        queue.push(w)
    } else {
        queue
    };
    let cause2 = if joins {
        cause.update(w as int, e)
    } else {
        cause
    };
    let order2 = sorted + queue2;
    if joins {
        assert(order2 =~= order.push(w));
    } else {
        assert(order2 =~= order);
    }
    assert forall|b: int| 0 <= b < order.len() && has_incoming(
        links,
        #[trigger] order[b],
    ) implies is_cause(adjacency, sorted, k + 1, order[b], cause[order[b] as int]) by {
        let c = cause[order[b] as int];
        assert(is_cause(adjacency, sorted, k, order[b], c));
        lemma_removed_next(adjacency, sorted, k, c as int);
    }
    if joins {
        assert forall|x: int| 0 <= x < m && #[trigger] adjacency.targets[x] == w implies is_no_later(
            adjacency,
            sorted,
            x,
            e as int,
        ) by {
            assert(removed[x]);
            assert(is_removed(adjacency, sorted, k + 1, x));
            lemma_removed_next(adjacency, sorted, k, x);
            if x != e {
                lemma_removed_is_earlier(adjacency, sorted, k, x);
                let (i1, i2) = choose|i1: int, i2: int|
                    0 <= i1 < sorted.len() && 0 <= i2 < sorted.len() && #[trigger] sorted[i1]
                        == adjacency.sources[x] && #[trigger] sorted[i2]
                        == adjacency.sources[e as int] && (i1 < i2 || (i1 == i2 && x < e));
                assert(sorted[i1] == adjacency.sources[x] && sorted[i2]
                    == adjacency.sources[e as int] && (i1 < i2 || (i1 == i2 && x <= e)));
            } else {
                assert(sorted[last] == adjacency.sources[x] && sorted[last]
                    == adjacency.sources[e as int]);
            }
        }
        lemma_removed_next(adjacency, sorted, k, e as int);
        assert(is_cause(adjacency, sorted, k + 1, w, e));
        assert forall|b: int| 0 <= b < order.len() && has_incoming(
            links,
            #[trigger] order[b],
        ) implies order[b] != w || cause[order[b] as int] == e by {
            if order[b] == w {
                // the edge that released it was removed before `e` was
                let c = cause[w as int];
                assert(is_cause(adjacency, sorted, k, w, c));
                assert(is_no_later(adjacency, sorted, e as int, c as int));
                lemma_removed_is_earlier(adjacency, sorted, k, c as int);
                let (i1, i2) = choose|i1: int, i2: int|
                    0 <= i1 < sorted.len() && 0 <= i2 < sorted.len() && #[trigger] sorted[i1]
                        == adjacency.sources[e as int] && #[trigger] sorted[i2]
                        == adjacency.sources[c as int] && (i1 < i2 || (i1 == i2 && e <= c));
                let (j1, j2) = choose|j1: int, j2: int|
                    0 <= j1 < sorted.len() && 0 <= j2 < sorted.len() && #[trigger] sorted[j1]
                        == adjacency.sources[c as int] && #[trigger] sorted[j2]
                        == adjacency.sources[e as int] && (j1 < j2 || (j1 == j2 && c < e));
                assert(i1 == j2 && i2 == j1);
            }
        }
        assert forall|b: int| 0 <= b < order2.len() && has_incoming(
            links,
            #[trigger] order2[b],
        ) implies is_cause(adjacency, sorted, k + 1, order2[b], cause2[order2[b] as int]) by {
            if b < order.len() {
                assert(order2[b] == order[b]);
            }
        }
        assert forall|a: int, b: int|
            0 <= a < b < order2.len() && has_incoming(links, #[trigger] order2[a]) && has_incoming(
                links,
                #[trigger] order2[b],
            ) implies is_earlier(
            adjacency,
            sorted,
            cause2[order2[a] as int] as int,
            cause2[order2[b] as int] as int,
        ) by {
            assert(order2[a] == order[a]);
            if b < order.len() {
                assert(order2[b] == order[b]);
                assert(is_earlier(
                    adjacency,
                    sorted,
                    cause[order[a] as int] as int,
                    cause[order[b] as int] as int,
                ));
            } else {
                if order[a] != w {
                    let c = cause[order[a] as int];
                    assert(is_cause(adjacency, sorted, k, order[a], c));
                    lemma_removed_is_earlier(adjacency, sorted, k, c as int);
                }
            }
        }
        assert forall|a: int, b: int|
            0 <= a < b < order2.len() && !has_incoming(links, #[trigger] order2[b]) implies !has_incoming(
            links,
            #[trigger] order2[a],
        ) && order2[a] < order2[b] by {
            assert(order2[a] == order[a] && order2[b] == order[b]);
        }
    }
}

/// Once the queue is empty the vertices taken stand in the order of a
/// queue.
proof fn lemma_queueing_end(adjacency: &Adjacency, sorted: Seq<usize>, k: int, cause: Seq<usize>)
    requires
        adjacency.wf(),
        queueing(adjacency, sorted, Seq::empty(), k, cause),
        sorted.no_duplicates(),
        forall|i: int|
            0 <= i < sorted.len() ==> (#[trigger] sorted[i]) < adjacency.declared || has_incoming(
                adjacency.links(),
                sorted[i],
            ),
    ensures
        is_queue_order(adjacency.links(), adjacency.declared_vertices(), sorted),
{
    reveal(queueing);
    let links = adjacency.links();
    let declared = adjacency.declared_vertices();
    assert(sorted + Seq::<usize>::empty() =~= sorted);
    assert forall|a: int, b: int|
        0 <= a < b < sorted.len() && !has_incoming(links, #[trigger] sorted[b]) implies !has_incoming(
        links,
        #[trigger] sorted[a],
    ) && comes_before(declared, sorted[a], sorted[b]) by {
        assert(sorted[a] < sorted[b] && sorted[b] < adjacency.declared);
        assert(declared[sorted[a] as int] == sorted[a] && declared[sorted[b] as int] == sorted[b]);
    }
    assert forall|a: int, b: int, ia: int, ea: int, ib: int, eb: int|
        0 <= a < b < sorted.len() && #[trigger] is_released_by(links, sorted, a, ia, ea)
            && #[trigger] is_released_by(links, sorted, b, ib, eb) implies ia < ib || (ia == ib && ea
        < eb) by {
        lemma_cause_is_release(adjacency, sorted, k, cause, a, ia, ea);
        lemma_cause_is_release(adjacency, sorted, k, cause, b, ib, eb);
        assert(has_incoming(links, sorted[a])) by {
            assert(links[ea].1 == sorted[a]);
        }
        assert(has_incoming(links, sorted[b])) by {
            assert(links[eb].1 == sorted[b]);
        }
        assert(is_earlier(adjacency, sorted, ea, eb));
        let (i1, i2) = choose|i1: int, i2: int|
            0 <= i1 < sorted.len() && 0 <= i2 < sorted.len() && #[trigger] sorted[i1]
                == adjacency.sources[ea] && #[trigger] sorted[i2] == adjacency.sources[eb] && (i1
                < i2 || (i1 == i2 && ea < eb));
        assert(i1 == ia && i2 == ib);
    }
}

/// The edge that released a vertex is the one kept as its cause.
proof fn lemma_cause_is_release(
    adjacency: &Adjacency,
    sorted: Seq<usize>,
    k: int,
    cause: Seq<usize>,
    j: int,
    i: int,
    e: int,
)
    requires
        adjacency.wf(),
        queueing(adjacency, sorted, Seq::empty(), k, cause),
        sorted.no_duplicates(),
        is_released_by(adjacency.links(), sorted, j, i, e),
    ensures
        cause[sorted[j] as int] == e,
{
    reveal(queueing);
    let links = adjacency.links();
    assert(sorted + Seq::<usize>::empty() =~= sorted);
    let v = sorted[j];
    assert(has_incoming(links, v)) by {
        assert(links[e].1 == v);
    }
    let c = cause[v as int];
    assert(is_cause(adjacency, sorted, k, v, c));
    assert(adjacency.targets[e] == v);
    assert(is_no_later(adjacency, sorted, e, c as int));
    let (i1, i2) = choose|i1: int, i2: int|
        0 <= i1 < sorted.len() && 0 <= i2 < sorted.len() && #[trigger] sorted[i1]
            == adjacency.sources[e] && #[trigger] sorted[i2] == adjacency.sources[c as int] && (i1
            < i2 || (i1 == i2 && e <= c));
    assert(sorted[i] == adjacency.sources[e]);
    assert(i1 == i);
    assert(links[c as int] == (sorted[i2], sorted[j]));
}

/// A dependency order of the vertices, as far as one exists, in the order
/// in which a queue hands them out.
pub fn dependency_order(adjacency: &Adjacency) -> (sorted: Vec<usize>)
    requires
        adjacency.wf(),
    ensures
        is_dependency_order(adjacency.links(), adjacency.declared_vertices(), sorted@),
        is_queue_order(adjacency.links(), adjacency.declared_vertices(), sorted@),
        forall|i: int| 0 <= i < sorted.len() ==> (#[trigger] sorted[i]) < adjacency.names.len(),
{
    let n = adjacency.names.len();
    let m = adjacency.targets.len();
    let ghost none = Seq::new(m as nat, |e: int| false);
    let mut in_degree: Vec<usize> = filled(n, 0usize);
    let mut e: usize = 0;
    while e < m
        invariant
            adjacency.wf(),
            n == adjacency.names.len(),
            m == adjacency.targets.len(),
            e <= m,
            none == Seq::new(m as nat, |e: int| false),
            in_degree.len() == n,
            forall|v: int|
                0 <= v < n ==> #[trigger] in_degree[v] == pending(
                    adjacency.targets@,
                    none,
                    v as usize,
                    e as int,
                ),
        decreases m - e,
    {
        let w = adjacency.targets[e];
        proof {
            lemma_pending_bound(adjacency.targets@, none, w, e as int);
        }
        let ghost counted = in_degree@;
        in_degree[w] = in_degree[w] + 1;
        proof {
            assert(!none[e as int]);
            assert forall|v: int| 0 <= v < n implies #[trigger] in_degree[v] == pending(
                adjacency.targets@,
                none,
                v as usize,
                e + 1,
            ) by {
                assert(counted[v] == pending(adjacency.targets@, none, v as usize, e as int));
            }
        }
        e = e + 1;
    }
    let mut queue: VecDeque<usize> = VecDeque::new();
    let mut v: usize = 0;
    while v < adjacency.declared
        invariant
            adjacency.wf(),
            n == adjacency.names.len(),
            in_degree.len() == n,
            v <= adjacency.declared,
            forall|i: int|
                0 <= i < queue@.len() ==> (#[trigger] queue@[i]) < v && in_degree[queue@[i] as int]
                    == 0,
            forall|i: int, j: int| 0 <= i < j < queue@.len() ==> queue@[i] < queue@[j],
            forall|u: int| 0 <= u < v && #[trigger] in_degree[u] == 0 ==> queue@.contains(u as usize),
        decreases adjacency.declared - v,
    {
        if in_degree[v] == 0 {
            let ghost before = queue@;
            queue.push_back(v);
            assert forall|u: int| 0 <= u < v + 1 && #[trigger] in_degree[u] == 0 implies queue@.contains(
                u as usize,
            ) by {
                if u == v {
                    assert(queue@[before.len() as int] == v);
                } else {
                    let i = choose|i: int| 0 <= i < before.len() && before[i] == u as usize;
                    assert(queue@[i] == u as usize);
                }
            }
        }
        v = v + 1;
    }
    let mut sorted: Vec<usize> = Vec::new();
    let ghost mut removed = none;
    let ghost mut k: int = 0;
    let ghost mut cause: Seq<usize> = Seq::new(n as nat, |v: int| 0usize);
    proof {
        lemma_peeling_start(adjacency, in_degree@, queue@);
        assert forall|i: int| 0 <= i < queue@.len() implies !has_incoming(
            adjacency.links(),
            #[trigger] queue@[i],
        ) by {
            let v = queue@[i];
            if has_incoming(adjacency.links(), v) {
                let e = choose|e: int|
                    0 <= e < adjacency.links().len() && (#[trigger] adjacency.links()[e]).1 == v;
                lemma_pending_zero(adjacency.targets@, none, v, m as int, e);
            }
        }
        lemma_queueing_start(adjacency, queue@, cause);
    }
    while queue.len() > 0
        invariant
            adjacency.wf(),
            n == adjacency.names.len(),
            peeling(adjacency, in_degree@, removed, sorted@, queue@, k),
            queueing(adjacency, sorted@, queue@, k, cause),
            sorted.len() > 0 ==> k == adjacency.outgoing[sorted[sorted.len() - 1] as int]@.len(),
        decreases n - sorted.len(),
    {
        proof {
            lemma_peeling_shape(adjacency, in_degree@, removed, sorted@, queue@, k);
            lemma_queueing_take(adjacency, sorted@, queue@, k, cause);
            lemma_peeling_take(adjacency, in_degree@, removed, sorted@, queue@, k);
        }
        let current = queue[0];
        queue.pop_front();
        sorted.push(current);
        proof {
            k = 0;
        }
        let list = &adjacency.outgoing[current];
        let mut at: usize = 0;
        while at < list.len()
            invariant
                adjacency.wf(),
                n == adjacency.names.len(),
                current < n,
                sorted.len() > 0,
                sorted[sorted.len() - 1] == current,
                list == &adjacency.outgoing[current as int],
                at <= list.len(),
                k == at,
                peeling(adjacency, in_degree@, removed, sorted@, queue@, k),
                queueing(adjacency, sorted@, queue@, k, cause),
            decreases list.len() - at,
        {
            proof {
                lemma_peeling_shape(adjacency, in_degree@, removed, sorted@, queue@, k);
                lemma_peeling_remove(adjacency, in_degree@, removed, sorted@, queue@, k);
            }
            let ghost waiting = queue@;
            let x = list[at];
            let w = adjacency.targets[x];
            let less = in_degree[w] - 1;
            in_degree[w] = less;
            if less == 0 {
                queue.push_back(w);
            }
            proof {
                removed = removed.update(x as int, true);
                lemma_peeling_removed(adjacency, in_degree@, removed, sorted@, queue@, k + 1);
                lemma_queueing_remove(adjacency, removed, sorted@, waiting, k, cause, less == 0);
                if less == 0 {
                    cause = cause.update(w as int, x);
                }
                k = k + 1;
            }
            at = at + 1;
        }
        proof {
            lemma_peeling_shape(adjacency, in_degree@, removed, sorted@, queue@, k);
        }
    }
    proof {
        assert(queue@ =~= Seq::<usize>::empty());
        lemma_peeling_shape(adjacency, in_degree@, removed, sorted@, queue@, k);
        lemma_peeling_removed(adjacency, in_degree@, removed, sorted@, queue@, k);
        lemma_peeling_end(adjacency, in_degree@, removed, sorted@, k);
        lemma_queueing_end(adjacency, sorted@, k, cause);
    }
    sorted
}

/// Orders the nodes of `graph` so that each comes after the nodes from which
/// an edge leads to it, as far as that can be done.
///
/// The nodes without incoming edges come first, in the order of their
/// declaration; each of the others follows once all its incoming edges come
/// from nodes that stand before it, in the order in which that came about.
/// Nodes on a cycle, and those that can only be reached through one, are
/// left out, and so is every node that is reached from an identity that is
/// the source of edges only and was not declared. An identity that was not
/// declared is itself ordered if edges lead to it. `has_cycle` reports that
/// the order is shorter than the list of declared nodes.
pub fn compute_topological_sort<W>(graph: &Graph<W>) -> (result: TopologicalSortResult)
    ensures
        result.orders(graph),
{
    let adjacency = Adjacency::build(graph);
    let order = dependency_order(&adjacency);
    let sorted = adjacency.names_of(&order);
    proof {
        lemma_indexes(&adjacency, graph);
        lemma_relabel_order(
            views(adjacency.names@),
            adjacency.links(),
            graph.links(),
            adjacency.declared as nat,
            graph.labels(),
            order@,
        );
        lemma_relabel_queue_order(
            views(adjacency.names@),
            adjacency.links(),
            graph.links(),
            adjacency.declared as nat,
            order@,
        );
        lemma_first_occurrences_prefix(graph.labels(), ends(graph.links()));
    }
    let has_cycle = sorted.len() < graph.nodes.len();
    TopologicalSortResult { sorted, has_cycle }
}

} // verus!
