//! Walks in a directed multigraph.
//!
//! A graph is its list of edges, each a pair of vertices; a walk is a sequence
//! of positions in that list. Stated this way a walk stays the same object
//! when the vertices are renamed.

use vstd::prelude::*;

verus! {

/// Each step names an edge, and each edge starts where the one before ended.
pub open spec fn is_chain<V>(links: Seq<(V, V)>, steps: Seq<usize>) -> bool {
    &&& forall|i: int| 0 <= i < steps.len() ==> (#[trigger] steps[i]) < links.len()
    &&& forall|i: int|
        0 <= i < steps.len() - 1 ==> links[(#[trigger] steps[i]) as int].1 == links[steps[i
            + 1] as int].0
}

/// A walk from `from` to `to`: a chain between them, or no step at all where
/// the two are the same vertex.
pub open spec fn is_walk<V>(links: Seq<(V, V)>, from: V, to: V, steps: Seq<usize>) -> bool {
    &&& is_chain(links, steps)
    &&& if steps.len() == 0 {
        from == to
    } else {
        links[steps[0] as int].0 == from && links[steps[steps.len() - 1] as int].1 == to
    }
}

/// Some walk leads from `from` to `to`.
pub open spec fn reachable<V>(links: Seq<(V, V)>, from: V, to: V) -> bool {
    exists|steps: Seq<usize>| is_walk(links, from, to, steps)
}

/// Some walk leads to `to` from one of `sources`.
pub open spec fn reachable_from_some<V>(links: Seq<(V, V)>, sources: Seq<V>, to: V) -> bool {
    exists|i: int| 0 <= i < sources.len() && reachable(links, #[trigger] sources[i], to)
}

/// The vertices along a walk that starts at `from`: `from` itself, then the
/// target of each step.
pub open spec fn trail<V>(links: Seq<(V, V)>, from: V, steps: Seq<usize>) -> Seq<V> {
    Seq::new(steps.len() + 1, |i: int| if i == 0 { from } else { links[steps[i - 1] as int].1 })
}

/// The endpoints of the edges in order: source, then target, of each in turn.
pub open spec fn ends<V>(links: Seq<(V, V)>) -> Seq<V> {
    Seq::new(2 * links.len(), |i: int| if i % 2 == 0 { links[i / 2].0 } else { links[i / 2].1 })
}

/// A cycle: a chain of at least one edge that ends where it starts.
pub open spec fn is_cycle<V>(links: Seq<(V, V)>, steps: Seq<usize>) -> bool {
    &&& steps.len() > 0
    &&& is_chain(links, steps)
    &&& links[steps[steps.len() - 1] as int].1 == links[steps[0] as int].0
}

/// The graph has no cycle.
pub open spec fn is_acyclic<V>(links: Seq<(V, V)>) -> bool {
    forall|steps: Seq<usize>| !is_cycle(links, steps)
}

/// Some cycle can be reached from `root`.
pub open spec fn cycle_reachable_from<V>(links: Seq<(V, V)>, root: V) -> bool {
    exists|steps: Seq<usize>|
        #[trigger] is_cycle(links, steps) && reachable(links, root, links[steps[0] as int].0)
}

/// `vertices` are the vertices of a cycle of the graph, in order: one for
/// each edge of the cycle, the edge's source.
pub open spec fn is_cycle_through<V>(links: Seq<(V, V)>, vertices: Seq<V>) -> bool {
    exists|steps: Seq<usize>|
        #[trigger] is_cycle(links, steps) && steps.len() == vertices.len() && forall|i: int|
            0 <= i < steps.len() ==> links[(#[trigger] steps[i]) as int].0 == vertices[i]
}

/// A walk that is as short as any between its ends.
pub open spec fn is_shortest_walk<V>(links: Seq<(V, V)>, from: V, to: V, steps: Seq<usize>) -> bool {
    &&& is_walk(links, from, to, steps)
    &&& forall|other: Seq<usize>| #[trigger]
        is_walk(links, from, to, other) ==> steps.len() <= other.len()
}

/// `a` comes before `b` in dictionary order: where the two first differ, `a`
/// holds the smaller number.
pub open spec fn lex_lt(a: Seq<usize>, b: Seq<usize>) -> bool {
    exists|k: int|
        0 <= k < a.len() && k < b.len() && (forall|i: int| 0 <= i < k ==> a[i] == b[i])
            && #[trigger] a[k] < b[k]
}

/// The first of the shortest walks: a walk with the fewest edges, and among
/// those the one that comes first in dictionary order.
pub open spec fn is_first_shortest_walk<V>(
    links: Seq<(V, V)>,
    from: V,
    to: V,
    steps: Seq<usize>,
) -> bool {
    &&& is_shortest_walk(links, from, to, steps)
    &&& forall|other: Seq<usize>| #[trigger]
        is_walk(links, from, to, other) && other.len() == steps.len() ==> other == steps || lex_lt(
            steps,
            other,
        )
}

/// Some edge ends at `v`.
pub open spec fn has_incoming<V>(links: Seq<(V, V)>, v: V) -> bool {
    exists|e: int| 0 <= e < links.len() && (#[trigger] links[e]).1 == v
}

/// `sorted` is a dependency order of the graph as far as one exists.
///
/// It lists, each once, the vertices that are declared or have an incoming
/// edge and all of whose incoming edges come from vertices listed before
/// them: a vertex is left out exactly when one of its incoming edges comes
/// from a vertex that is left out, or when it is neither declared nor the
/// target of an edge.
pub open spec fn is_dependency_order<V>(links: Seq<(V, V)>, declared: Seq<V>, sorted: Seq<V>) -> bool {
    &&& sorted.no_duplicates()
    &&& forall|i: int|
        0 <= i < sorted.len() ==> declared.contains(#[trigger] sorted[i]) || has_incoming(
            links,
            sorted[i],
        )
    &&& forall|i: int, e: int|
        0 <= i < sorted.len() && 0 <= e < links.len() && (#[trigger] links[e]).1
            == #[trigger] sorted[i] ==> exists|j: int| 0 <= j < i && sorted[j] == links[e].0
    &&& forall|v: V|
        !(#[trigger] sorted.contains(v)) && (declared.contains(v) || has_incoming(links, v))
            ==> exists|e: int|
            0 <= e < links.len() && (#[trigger] links[e]).1 == v && !sorted.contains(links[e].0)
}

/// `x` stands before `y` in `s`.
pub open spec fn comes_before<V>(s: Seq<V>, x: V, y: V) -> bool {
    exists|p: int, q: int| 0 <= p < q < s.len() && #[trigger] s[p] == x && #[trigger] s[q] == y
}

/// Edge `e` leads from `sorted[i]` to `sorted[j]`, and among the edges that
/// lead to `sorted[j]` it is the one whose source stands last in `sorted`, or
/// of several from that source the last in the list of edges: the edge whose
/// removal leaves `sorted[j]` without pending edges.
pub open spec fn is_released_by<V>(links: Seq<(V, V)>, sorted: Seq<V>, j: int, i: int, e: int) -> bool {
    &&& 0 <= i < sorted.len()
    &&& 0 <= j < sorted.len()
    &&& 0 <= e < links.len()
    &&& links[e] == (sorted[i], sorted[j])
    &&& forall|e2: int, i2: int|
        0 <= e2 < links.len() && 0 <= i2 < sorted.len() && #[trigger] links[e2] == (
            #[trigger] sorted[i2],
            sorted[j],
        ) ==> i2 < i || (i2 == i && e2 <= e)
}

/// `sorted` lists its vertices in the order of a queue. First come those
/// without incoming edges, in the order in which `declared` lists them. Then
/// come the others in the order in which they were released: a vertex stands
/// before another if the edge that released it comes from a vertex that
/// stands earlier, or from the same vertex and is earlier in the list of
/// edges.
pub open spec fn is_queue_order<V>(links: Seq<(V, V)>, declared: Seq<V>, sorted: Seq<V>) -> bool {
    &&& forall|a: int, b: int|
        0 <= a < b < sorted.len() && !has_incoming(links, #[trigger] sorted[b]) ==> !has_incoming(
            links,
            #[trigger] sorted[a],
        ) && comes_before(declared, sorted[a], sorted[b])
    &&& forall|a: int, b: int, ia: int, ea: int, ib: int, eb: int|
        0 <= a < b < sorted.len() && #[trigger] is_released_by(links, sorted, a, ia, ea)
            && #[trigger] is_released_by(links, sorted, b, ib, eb) ==> ia < ib || (ia == ib && ea
            < eb)
}

/// `indexed` is `links` with each vertex replaced by its position in `labels`.
pub open spec fn relabels<V>(labels: Seq<V>, indexed: Seq<(usize, usize)>, links: Seq<(V, V)>) -> bool {
    &&& labels.no_duplicates()
    &&& indexed.len() == links.len()
    &&& forall|e: int|
        0 <= e < indexed.len() ==> {
            &&& (#[trigger] indexed[e]).0 < labels.len()
            &&& indexed[e].1 < labels.len()
            &&& links[e] == (labels[indexed[e].0 as int], labels[indexed[e].1 as int])
        }
}

/// A chain grows by an edge that starts where it ends.
pub proof fn lemma_chain_push<V>(links: Seq<(V, V)>, steps: Seq<usize>, e: usize)
    requires
        is_chain(links, steps),
        e < links.len(),
        steps.len() > 0 ==> links[steps[steps.len() - 1] as int].1 == links[e as int].0,
    ensures
        is_chain(links, steps.push(e)),
{
    let longer = steps.push(e);
    assert forall|i: int| 0 <= i < longer.len() - 1 implies links[(#[trigger] longer[i]) as int].1
        == links[longer[i + 1] as int].0 by {
        if i < steps.len() - 1 {
            assert(longer[i] == steps[i]);
            assert(longer[i + 1] == steps[i + 1]);
        }
    }
}

/// Any stretch of a chain is a chain.
pub proof fn lemma_chain_subrange<V>(links: Seq<(V, V)>, steps: Seq<usize>, lo: int, hi: int)
    requires
        is_chain(links, steps),
        0 <= lo <= hi <= steps.len(),
    ensures
        is_chain(links, steps.subrange(lo, hi)),
{
    let part = steps.subrange(lo, hi);
    assert forall|i: int| 0 <= i < part.len() implies (#[trigger] part[i]) < links.len() by {
        assert(part[i] == steps[lo + i]);
    }
    assert forall|i: int| 0 <= i < part.len() - 1 implies links[(#[trigger] part[i]) as int].1
        == links[part[i + 1] as int].0 by {
        assert(part[i] == steps[lo + i]);
        assert(part[i + 1] == steps[lo + i + 1]);
    }
}

/// Two chains join where the first ends at the start of the second.
pub proof fn lemma_chain_join<V>(links: Seq<(V, V)>, first: Seq<usize>, second: Seq<usize>)
    requires
        is_chain(links, first),
        is_chain(links, second),
        first.len() > 0 && second.len() > 0 ==> links[first[first.len() - 1] as int].1
            == links[second[0] as int].0,
    ensures
        is_chain(links, first + second),
{
    let whole = first + second;
    assert forall|i: int| 0 <= i < whole.len() implies (#[trigger] whole[i]) < links.len() by {
        if i < first.len() {
            assert(whole[i] == first[i]);
        } else {
            assert(whole[i] == second[i - first.len()]);
        }
    }
    assert forall|i: int| 0 <= i < whole.len() - 1 implies links[(#[trigger] whole[i]) as int].1
        == links[whole[i + 1] as int].0 by {
        if i < first.len() - 1 {
            assert(whole[i] == first[i]);
            assert(whole[i + 1] == first[i + 1]);
        } else if i == first.len() - 1 {
            assert(whole[i] == first[i]);
            assert(whole[i + 1] == second[0]);
        } else {
            assert(whole[i] == second[i - first.len()]);
            assert(whole[i + 1] == second[i - first.len() + 1]);
        }
    }
}

/// A walk grows by an edge that leaves its end.
pub proof fn lemma_walk_push<V>(links: Seq<(V, V)>, from: V, to: V, steps: Seq<usize>, e: usize)
    requires
        is_walk(links, from, to, steps),
        e < links.len(),
        links[e as int].0 == to,
    ensures
        is_walk(links, from, links[e as int].1, steps.push(e)),
{
    lemma_chain_push(links, steps, e);
    let longer = steps.push(e);
    if steps.len() > 0 {
        assert(longer[0] == steps[0]);
    }
}

/// Walks compose.
pub proof fn lemma_walk_join<V>(
    links: Seq<(V, V)>,
    a: V,
    b: V,
    c: V,
    first: Seq<usize>,
    second: Seq<usize>,
)
    requires
        is_walk(links, a, b, first),
        is_walk(links, b, c, second),
    ensures
        is_walk(links, a, c, first + second),
{
    lemma_chain_join(links, first, second);
    let whole = first + second;
    if first.len() == 0 {
        assert(whole =~= second);
    } else if second.len() == 0 {
        assert(whole =~= first);
    } else {
        assert(whole[0] == first[0]);
        assert(whole[whole.len() - 1] == second[second.len() - 1]);
    }
}

/// What is left of a walk without its last step is a walk to that step's
/// source.
pub proof fn lemma_walk_drop_last<V>(links: Seq<(V, V)>, from: V, to: V, steps: Seq<usize>)
    requires
        is_walk(links, from, to, steps),
        steps.len() > 0,
    ensures
        steps[steps.len() - 1] < links.len(),
        is_walk(links, from, links[steps[steps.len() - 1] as int].0, steps.drop_last()),
{
    let shorter = steps.drop_last();
    lemma_chain_subrange(links, steps, 0, steps.len() - 1);
    if shorter.len() > 0 {
        assert(shorter[0] == steps[0]);
        assert(shorter[shorter.len() - 1] == steps[steps.len() - 2]);
    }
}

/// A walk of at least one edge runs between endpoints of edges.
pub proof fn lemma_walk_ends<V>(links: Seq<(V, V)>, from: V, to: V, steps: Seq<usize>)
    requires
        is_walk(links, from, to, steps),
        steps.len() > 0,
    ensures
        ends(links).contains(from),
        ends(links).contains(to),
{
    let first = steps[0] as int;
    let last = steps[steps.len() - 1] as int;
    assert(first < links.len() && last < links.len());
    assert(ends(links)[2 * first] == from);
    assert(ends(links)[2 * last + 1] == to);
}

/// Sequences in dictionary order stay so when each is extended.
pub proof fn lemma_lex_extend(a: Seq<usize>, b: Seq<usize>, x: usize, y: usize)
    requires
        lex_lt(a, b),
    ensures
        lex_lt(a.push(x), b.push(y)),
{
    let k = choose|k: int|
        0 <= k < a.len() && k < b.len() && (forall|i: int| 0 <= i < k ==> a[i] == b[i])
            && #[trigger] a[k] < b[k];
    let a2 = a.push(x);
    let b2 = b.push(y);
    assert(forall|i: int| 0 <= i < k ==> a2[i] == b2[i]);
    assert(a2[k] < b2[k]);
}

/// A sequence extended by a smaller number comes before the same sequence
/// extended by a larger one.
pub proof fn lemma_lex_last(a: Seq<usize>, x: usize, y: usize)
    requires
        x < y,
    ensures
        lex_lt(a.push(x), a.push(y)),
{
    let a2 = a.push(x);
    let b2 = a.push(y);
    let k = a.len() as int;
    assert(forall|i: int| 0 <= i < k ==> a2[i] == b2[i]);
    assert(a2[k] < b2[k]);
}

/// Dictionary order is transitive.
pub proof fn lemma_lex_trans(a: Seq<usize>, b: Seq<usize>, c: Seq<usize>)
    requires
        lex_lt(a, b),
        lex_lt(b, c),
    ensures
        lex_lt(a, c),
{
    let k1 = choose|k: int|
        0 <= k < a.len() && k < b.len() && (forall|i: int| 0 <= i < k ==> a[i] == b[i])
            && #[trigger] a[k] < b[k];
    let k2 = choose|k: int|
        0 <= k < b.len() && k < c.len() && (forall|i: int| 0 <= i < k ==> b[i] == c[i])
            && #[trigger] b[k] < c[k];
    let k = if k1 <= k2 {
        k1
    } else {
        k2
    };
    assert(forall|i: int| 0 <= i < k ==> a[i] == c[i]);
    assert(a[k] < c[k]);
}

/// Renaming the vertices keeps the chains.
pub proof fn lemma_relabel_chain<V>(
    labels: Seq<V>,
    indexed: Seq<(usize, usize)>,
    links: Seq<(V, V)>,
    steps: Seq<usize>,
)
    requires
        relabels(labels, indexed, links),
    ensures
        is_chain(indexed, steps) <==> is_chain(links, steps),
        is_cycle(indexed, steps) <==> is_cycle(links, steps),
{
    if is_chain(indexed, steps) {
        assert forall|i: int| 0 <= i < steps.len() - 1 implies links[(#[trigger] steps[i]) as int].1
            == links[steps[i + 1] as int].0 by {
            assert(indexed[steps[i] as int].1 == indexed[steps[i + 1] as int].0);
        }
    }
    if is_chain(links, steps) {
        assert forall|i: int| 0 <= i < steps.len() - 1 implies indexed[(#[trigger] steps[i]) as int].1
            == indexed[steps[i + 1] as int].0 by {
            assert(links[steps[i] as int].1 == links[steps[i + 1] as int].0);
            assert(steps[i + 1] < links.len());
        }
    }
    if steps.len() > 0 && (is_chain(indexed, steps) || is_chain(links, steps)) {
        let first = steps[0];
        let last = steps[steps.len() - 1];
        assert(first < links.len() && last < links.len());
        assert(indexed[last as int].1 == indexed[first as int].0 <==> links[last as int].1
            == links[first as int].0);
    }
}

/// Renaming the vertices keeps the walks between two of them.
pub proof fn lemma_relabel_walk<V>(
    labels: Seq<V>,
    indexed: Seq<(usize, usize)>,
    links: Seq<(V, V)>,
    from: usize,
    to: usize,
    steps: Seq<usize>,
)
    requires
        relabels(labels, indexed, links),
        from < labels.len(),
        to < labels.len(),
    ensures
        is_walk(indexed, from, to, steps) <==> is_walk(links, labels[from as int], labels[to as int], steps),
{
    lemma_relabel_chain(labels, indexed, links, steps);
    if steps.len() > 0 && (is_chain(indexed, steps) || is_chain(links, steps)) {
        let first = steps[0];
        let last = steps[steps.len() - 1];
        assert(first < links.len() && last < links.len());
    }
}

/// Renaming the vertices keeps what can be reached, and the cycles that can
/// be reached.
pub proof fn lemma_relabel_cycle_from<V>(
    labels: Seq<V>,
    indexed: Seq<(usize, usize)>,
    links: Seq<(V, V)>,
    root: usize,
)
    requires
        relabels(labels, indexed, links),
        root < labels.len(),
    ensures
        cycle_reachable_from(indexed, root) <==> cycle_reachable_from(links, labels[root as int]),
{
    if cycle_reachable_from(indexed, root) {
        let c = choose|c: Seq<usize>|
            #[trigger] is_cycle(indexed, c) && reachable(indexed, root, indexed[c[0] as int].0);
        let start = indexed[c[0] as int].0;
        let steps = choose|steps: Seq<usize>| is_walk(indexed, root, start, steps);
        lemma_relabel_chain(labels, indexed, links, c);
        lemma_relabel_walk(labels, indexed, links, root, start, steps);
        assert(is_walk(links, labels[root as int], links[c[0] as int].0, steps));
    }
    if cycle_reachable_from(links, labels[root as int]) {
        let c = choose|c: Seq<usize>|
            #[trigger] is_cycle(links, c) && reachable(links, labels[root as int], links[c[0] as int].0);
        let steps = choose|steps: Seq<usize>|
            is_walk(links, labels[root as int], links[c[0] as int].0, steps);
        lemma_relabel_chain(labels, indexed, links, c);
        let start = indexed[c[0] as int].0;
        lemma_relabel_walk(labels, indexed, links, root, start, steps);
        assert(is_walk(indexed, root, start, steps));
    }
}

/// Renaming the vertices of a cycle gives a cycle of the renamed graph.
pub proof fn lemma_relabel_cycle_through<V>(
    labels: Seq<V>,
    indexed: Seq<(usize, usize)>,
    links: Seq<(V, V)>,
    vertices: Seq<usize>,
)
    requires
        relabels(labels, indexed, links),
        is_cycle_through(indexed, vertices),
    ensures
        is_cycle_through(links, Seq::new(vertices.len(), |i: int| labels[vertices[i] as int])),
{
    let steps = choose|steps: Seq<usize>|
        #[trigger] is_cycle(indexed, steps) && steps.len() == vertices.len() && forall|i: int|
            0 <= i < steps.len() ==> indexed[(#[trigger] steps[i]) as int].0 == vertices[i];
    lemma_relabel_chain(labels, indexed, links, steps);
    let named = Seq::new(vertices.len(), |i: int| labels[vertices[i] as int]);
    assert forall|i: int| 0 <= i < steps.len() implies links[(#[trigger] steps[i]) as int].0
        == named[i] by {
        assert(indexed[steps[i] as int].0 == vertices[i]);
    }
}

/// Renaming the vertices keeps a dependency order.
pub proof fn lemma_relabel_order<V>(
    labels: Seq<V>,
    indexed: Seq<(usize, usize)>,
    links: Seq<(V, V)>,
    count: nat,
    declared: Seq<V>,
    sorted: Seq<usize>,
)
    requires
        relabels(labels, indexed, links),
        count <= labels.len(),
        count <= usize::MAX,
        forall|v: int| 0 <= v < count ==> declared.contains(#[trigger] labels[v]),
        forall|i: int|
            0 <= i < declared.len() ==> exists|v: int|
                0 <= v < count && labels[v] == #[trigger] declared[i],
        forall|i: int| 0 <= i < sorted.len() ==> (#[trigger] sorted[i]) < labels.len(),
        is_dependency_order(indexed, Seq::new(count, |v: int| v as usize), sorted),
    ensures
        is_dependency_order(
            links,
            declared,
            Seq::new(sorted.len(), |i: int| labels[sorted[i] as int]),
        ),
{
    let numbered = Seq::new(count, |v: int| v as usize);
    let named = Seq::new(sorted.len(), |i: int| labels[sorted[i] as int]);
    assert forall|i: int| 0 <= i < named.len() implies declared.contains(#[trigger] named[i])
        || has_incoming(links, named[i]) by {
        let v = sorted[i];
        if numbered.contains(v) {
            let at = choose|at: int| 0 <= at < numbered.len() && numbered[at] == v;
            assert(declared.contains(labels[at]));
        } else {
            assert(has_incoming(indexed, v));
            let e = choose|e: int| 0 <= e < indexed.len() && (#[trigger] indexed[e]).1 == v;
            assert(links[e].1 == named[i]);
        }
    }
    assert forall|i: int, e: int|
        0 <= i < named.len() && 0 <= e < links.len() && (#[trigger] links[e]).1
            == #[trigger] named[i] implies exists|j: int| 0 <= j < i && named[j] == links[e].0 by {
        assert(labels[indexed[e].1 as int] == labels[sorted[i] as int]);
        assert(indexed[e].1 == sorted[i]);
        let j = choose|j: int| 0 <= j < i && sorted[j] == indexed[e].0;
        assert(named[j] == links[e].0);
    }
    assert forall|x: V|
        !(#[trigger] named.contains(x)) && (declared.contains(x) || has_incoming(
            links,
            x,
        )) implies exists|e: int|
        0 <= e < links.len() && (#[trigger] links[e]).1 == x && !named.contains(links[e].0) by {
        let v: usize = if declared.contains(x) {
            let i = choose|i: int| 0 <= i < declared.len() && declared[i] == x;
            let v = choose|v: int| 0 <= v < count && labels[v] == #[trigger] declared[i];
            assert(numbered[v] == v as usize);
            v as usize
        } else {
            let e = choose|e: int| 0 <= e < links.len() && (#[trigger] links[e]).1 == x;
            assert(indexed[e].1 < labels.len());
            assert(has_incoming(indexed, indexed[e].1));
            indexed[e].1
        };
        assert(v < labels.len() && labels[v as int] == x);
        if sorted.contains(v) {
            let i = choose|i: int| 0 <= i < sorted.len() && sorted[i] == v;
            assert(named[i] == x);
        }
        assert(numbered.contains(v) || has_incoming(indexed, v));
        let e = choose|e: int|
            0 <= e < indexed.len() && (#[trigger] indexed[e]).1 == v && !sorted.contains(
                indexed[e].0,
            );
        assert(links[e].1 == x);
        if named.contains(links[e].0) {
            let i = choose|i: int| 0 <= i < named.len() && named[i] == links[e].0;
            assert(labels[sorted[i] as int] == labels[indexed[e].0 as int]);
            assert(sorted[i] == indexed[e].0);
        }
    }
    assert forall|i: int, j: int| 0 <= i < named.len() && 0 <= j < named.len() && i != j implies named[i]
        != named[j] by {
        assert(sorted[i] != sorted[j]);
    }
}

/// Renaming the vertices keeps the order of a queue.
pub proof fn lemma_relabel_queue_order<V>(
    labels: Seq<V>,
    indexed: Seq<(usize, usize)>,
    links: Seq<(V, V)>,
    count: nat,
    sorted: Seq<usize>,
)
    requires
        relabels(labels, indexed, links),
        count <= labels.len(),
        count <= usize::MAX,
        forall|i: int| 0 <= i < sorted.len() ==> (#[trigger] sorted[i]) < labels.len(),
        is_queue_order(indexed, Seq::new(count, |v: int| v as usize), sorted),
    ensures
        is_queue_order(
            links,
            labels.subrange(0, count as int),
            Seq::new(sorted.len(), |i: int| labels[sorted[i] as int]),
        ),
{
    let numbered = Seq::new(count, |v: int| v as usize);
    let declared = labels.subrange(0, count as int);
    let named = Seq::new(sorted.len(), |i: int| labels[sorted[i] as int]);
    assert forall|i: int| 0 <= i < sorted.len() && has_incoming(
        links,
        #[trigger] named[i],
    ) implies has_incoming(indexed, sorted[i]) by {
        let e = choose|e: int| 0 <= e < links.len() && (#[trigger] links[e]).1 == named[i];
        assert(labels[indexed[e].1 as int] == labels[sorted[i] as int]);
        assert(indexed[e].1 == sorted[i]);
    }
    assert forall|i: int| 0 <= i < sorted.len() && has_incoming(
        indexed,
        #[trigger] sorted[i],
    ) implies has_incoming(links, named[i]) by {
        let e = choose|e: int| 0 <= e < indexed.len() && (#[trigger] indexed[e]).1 == sorted[i];
        assert(links[e].1 == named[i]);
    }
    assert forall|a: int, b: int|
        0 <= a < b < named.len() && !has_incoming(links, #[trigger] named[b]) implies !has_incoming(
        links,
        #[trigger] named[a],
    ) && comes_before(declared, named[a], named[b]) by {
        assert(!has_incoming(indexed, sorted[b]));
        assert(!has_incoming(indexed, sorted[a]) && comes_before(numbered, sorted[a], sorted[b]));
        let (p, q) = choose|p: int, q: int|
            0 <= p < q < numbered.len() && #[trigger] numbered[p] == sorted[a]
                && #[trigger] numbered[q] == sorted[b];
        assert(declared[p] == named[a] && declared[q] == named[b]);
    }
    assert forall|a: int, i: int, e: int| #[trigger]
        is_released_by(links, named, a, i, e) implies is_released_by(indexed, sorted, a, i, e) by {
        assert(labels[indexed[e].0 as int] == labels[sorted[i] as int]);
        assert(labels[indexed[e].1 as int] == labels[sorted[a] as int]);
        assert forall|e2: int, i2: int|
            0 <= e2 < indexed.len() && 0 <= i2 < sorted.len() && #[trigger] indexed[e2] == (
                #[trigger] sorted[i2],
                sorted[a],
            ) implies i2 < i || (i2 == i && e2 <= e) by {
            assert(links[e2] == (named[i2], named[a]));
        }
    }
}

} // verus!
