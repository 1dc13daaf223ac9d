//! What a search in depth for cycles finds, stated for a graph over any kind
//! of vertex.
//!
//! A search starts from each root in turn that no earlier search has
//! marked. It follows the edges of each vertex in their order and stops at
//! the first lasso: a path from the root and then an edge back to a vertex
//! on it. What it has entered by then stays marked.

use vstd::prelude::*;
use crate::cycle_detection::{
    avoids,
    finds,
    fresh_cycle_from,
    fresh_reachable,
    is_first_lasso,
    is_fresh_path,
    is_fresh_walk,
    is_lasso,
    is_searched_before,
    path_end,
};
use crate::walks::{
    is_chain,
    is_cycle,
    is_walk,
    lemma_chain_push,
    lemma_chain_subrange,
    lemma_lex_trans,
    lemma_relabel_chain,
    lemma_relabel_walk,
    lex_lt,
    relabels,
    trail,
};

verus! {

/// No vertex on the chain is marked.
pub open spec fn avoids_in<V>(links: Seq<(V, V)>, marked: Set<V>, steps: Seq<usize>) -> bool {
    forall|i: int|
        0 <= i < steps.len() ==> !marked.contains(links[(#[trigger] steps[i]) as int].0)
            && !marked.contains(links[steps[i] as int].1)
}

/// A walk from `from` to `to` on which no vertex is marked.
pub open spec fn is_fresh_walk_in<V>(
    links: Seq<(V, V)>,
    marked: Set<V>,
    from: V,
    to: V,
    steps: Seq<usize>,
) -> bool {
    &&& is_walk(links, from, to, steps)
    &&& avoids_in(links, marked, steps)
    &&& !marked.contains(from)
}

/// `to` can be reached from `from` without passing a marked vertex.
pub open spec fn fresh_reachable_in<V>(links: Seq<(V, V)>, marked: Set<V>, from: V, to: V) -> bool {
    exists|steps: Seq<usize>| is_fresh_walk_in(links, marked, from, to, steps)
}

/// The vertex at which a chain from `root` ends.
pub open spec fn end_of<V>(links: Seq<(V, V)>, root: V, steps: Seq<usize>) -> V {
    if steps.len() == 0 {
        root
    } else {
        links[steps[steps.len() - 1] as int].1
    }
}

/// A path from `root`: a walk on which no vertex is marked and none occurs
/// twice.
pub open spec fn is_fresh_path_in<V>(
    links: Seq<(V, V)>,
    marked: Set<V>,
    root: V,
    steps: Seq<usize>,
) -> bool {
    &&& is_fresh_walk_in(links, marked, root, end_of(links, root, steps), steps)
    &&& trail(links, root, steps).no_duplicates()
}

/// A path from `root` and then one edge that leads back to a vertex on it.
pub open spec fn is_lasso_in<V>(
    links: Seq<(V, V)>,
    marked: Set<V>,
    root: V,
    steps: Seq<usize>,
) -> bool {
    &&& steps.len() > 0
    &&& is_fresh_path_in(links, marked, root, steps.drop_last())
    &&& steps[steps.len() - 1] < links.len()
    &&& links[steps[steps.len() - 1] as int].0 == end_of(links, root, steps.drop_last())
    &&& trail(links, root, steps.drop_last()).contains(links[steps[steps.len() - 1] as int].1)
}

/// The lasso that comes first in dictionary order.
pub open spec fn is_first_lasso_in<V>(
    links: Seq<(V, V)>,
    marked: Set<V>,
    root: V,
    steps: Seq<usize>,
) -> bool {
    &&& is_lasso_in(links, marked, root, steps)
    &&& forall|other: Seq<usize>| #[trigger]
        is_lasso_in(links, marked, root, other) ==> other == steps || lex_lt(steps, other)
}

/// Some path from `root` to `v` comes before `lasso` in dictionary order, or
/// is the beginning of it.
pub open spec fn is_searched_before_in<V>(
    links: Seq<(V, V)>,
    marked: Set<V>,
    root: V,
    lasso: Seq<usize>,
    v: V,
) -> bool {
    exists|q: Seq<usize>|
        #[trigger] is_fresh_path_in(links, marked, root, q) && end_of(links, root, q) == v && (
        lex_lt(q, lasso) || q.is_prefix_of(lasso.drop_last()))
}

/// The cycle of a lasso: its path from the vertex at which it closes.
pub open spec fn cycle_of<V>(links: Seq<(V, V)>, root: V, lasso: Seq<usize>) -> Seq<V> {
    let path = trail(links, root, lasso.drop_last());
    path.subrange(path.index_of(links[lasso[lasso.len() - 1] as int].1), path.len() as int)
}

/// What is marked after the searches from the first `upto` of the roots.
pub open spec fn marks_after<V>(links: Seq<(V, V)>, roots: Seq<V>, upto: nat) -> Set<V>
    decreases upto,
{
    if upto == 0 {
        Set::empty()
    } else {
        let before = marks_after(links, roots, (upto - 1) as nat);
        let root = roots[upto - 1];
        if before.contains(root) {
            before
        } else if exists|lasso: Seq<usize>| is_first_lasso_in(links, before, root, lasso) {
            let lasso = choose|lasso: Seq<usize>| is_first_lasso_in(links, before, root, lasso);
            before.union(Set::new(|v: V| is_searched_before_in(links, before, root, lasso, v)))
        } else {
            before.union(Set::new(|v: V| fresh_reachable_in(links, before, root, v)))
        }
    }
}

/// The cycles found by the searches from the first `upto` of the roots: for
/// each root that no earlier search has marked, the cycle of the first lasso
/// from it, if there is a lasso.
pub open spec fn cycles_after<V>(links: Seq<(V, V)>, roots: Seq<V>, upto: nat) -> Seq<Seq<V>>
    decreases upto,
{
    if upto == 0 {
        Seq::empty()
    } else {
        let marked = marks_after(links, roots, (upto - 1) as nat);
        let before = cycles_after(links, roots, (upto - 1) as nat);
        let root = roots[upto - 1];
        if !marked.contains(root) && exists|lasso: Seq<usize>|
            is_first_lasso_in(links, marked, root, lasso) {
            let lasso = choose|lasso: Seq<usize>| is_first_lasso_in(links, marked, root, lasso);
            before.push(cycle_of(links, root, lasso))
        } else {
            before
        }
    }
}

/// The marks on numbered vertices say what the set of marked vertices says
/// of their names.
pub open spec fn marks_agree<V>(labels: Seq<V>, marked: Seq<bool>, set: Set<V>) -> bool {
    &&& marked.len() == labels.len()
    &&& forall|v: int| 0 <= v < labels.len() ==> (#[trigger] marked[v] <==> set.contains(labels[v]))
}

/// There is one first lasso at most.
pub proof fn lemma_first_lasso_is_unique<V>(
    links: Seq<(V, V)>,
    marked: Set<V>,
    root: V,
    a: Seq<usize>,
    b: Seq<usize>,
)
    requires
        is_first_lasso_in(links, marked, root, a),
        is_first_lasso_in(links, marked, root, b),
    ensures
        a == b,
{
    if a != b {
        lemma_lex_trans(a, b, a);
    }
}

/// Naming the vertices keeps what a chain avoids.
pub proof fn lemma_named_avoids<V>(
    labels: Seq<V>,
    indexed: Seq<(usize, usize)>,
    links: Seq<(V, V)>,
    marked: Seq<bool>,
    set: Set<V>,
    steps: Seq<usize>,
)
    requires
        relabels(labels, indexed, links),
        marks_agree(labels, marked, set),
        forall|i: int| 0 <= i < steps.len() ==> (#[trigger] steps[i]) < indexed.len(),
    ensures
        avoids(indexed, marked, steps) <==> avoids_in(links, set, steps),
{
    if avoids(indexed, marked, steps) {
        assert forall|i: int| 0 <= i < steps.len() implies !set.contains(
            links[(#[trigger] steps[i]) as int].0,
        ) && !set.contains(links[steps[i] as int].1) by {
            let e = steps[i] as int;
            assert(!marked[indexed[e].0 as int] && !marked[indexed[e].1 as int]);
        }
    }
    if avoids_in(links, set, steps) {
        assert forall|i: int| 0 <= i < steps.len() implies !marked[indexed[(
        #[trigger] steps[i]) as int].0 as int] && !marked[indexed[steps[i] as int].1 as int] by {
            let e = steps[i] as int;
            assert(!set.contains(links[e].0) && !set.contains(links[e].1));
        }
    }
}

/// Naming the vertices keeps the walks without a marked vertex.
pub proof fn lemma_named_fresh_walk<V>(
    labels: Seq<V>,
    indexed: Seq<(usize, usize)>,
    links: Seq<(V, V)>,
    marked: Seq<bool>,
    set: Set<V>,
    from: usize,
    to: usize,
    steps: Seq<usize>,
)
    requires
        relabels(labels, indexed, links),
        marks_agree(labels, marked, set),
        from < labels.len(),
        to < labels.len(),
    ensures
        is_fresh_walk(indexed, marked, from, to, steps) <==> is_fresh_walk_in(
            links,
            set,
            labels[from as int],
            labels[to as int],
            steps,
        ),
{
    lemma_relabel_walk(labels, indexed, links, from, to, steps);
    if is_walk(indexed, from, to, steps) {
        lemma_named_avoids(labels, indexed, links, marked, set, steps);
    }
}

/// Naming the vertices names the vertices along a chain, and the vertex at
/// which it ends.
pub proof fn lemma_named_trail<V>(
    labels: Seq<V>,
    indexed: Seq<(usize, usize)>,
    links: Seq<(V, V)>,
    root: usize,
    steps: Seq<usize>,
)
    requires
        relabels(labels, indexed, links),
        root < labels.len(),
        forall|i: int| 0 <= i < steps.len() ==> (#[trigger] steps[i]) < indexed.len(),
    ensures
        path_end(indexed, root, steps) < labels.len(),
        end_of(links, labels[root as int], steps) == labels[path_end(indexed, root, steps) as int],
        forall|i: int|
            0 <= i <= steps.len() ==> (#[trigger] trail(indexed, root, steps)[i]) < labels.len()
                && trail(links, labels[root as int], steps)[i] == labels[trail(
                indexed,
                root,
                steps,
            )[i] as int],
        trail(indexed, root, steps).no_duplicates() <==> trail(
            links,
            labels[root as int],
            steps,
        ).no_duplicates(),
        forall|x: usize|
            x < labels.len() ==> (trail(indexed, root, steps).contains(x) <==> trail(
                links,
                labels[root as int],
                steps,
            ).contains(labels[x as int])),
{
    let numbered = trail(indexed, root, steps);
    let named = trail(links, labels[root as int], steps);
    if steps.len() > 0 {
        assert(steps[steps.len() - 1] < indexed.len());
    }
    assert forall|i: int| 0 <= i <= steps.len() implies (#[trigger] numbered[i]) < labels.len()
        && named[i] == labels[numbered[i] as int] by {
        if i > 0 {
            assert(steps[i - 1] < indexed.len());
        }
    }
    if numbered.no_duplicates() {
        assert forall|i: int, j: int|
            0 <= i < named.len() && 0 <= j < named.len() && i != j implies named[i] != named[j] by {
            assert(numbered[i] != numbered[j]);
            assert(named[i] == labels[numbered[i] as int] && named[j] == labels[numbered[j] as int]);
        }
    }
    if named.no_duplicates() {
        assert forall|i: int, j: int|
            0 <= i < numbered.len() && 0 <= j < numbered.len() && i != j implies numbered[i]
            != numbered[j] by {
            assert(named[i] != named[j]);
            assert(named[i] == labels[numbered[i] as int] && named[j] == labels[numbered[j] as int]);
        }
    }
    assert forall|x: usize| x < labels.len() implies (numbered.contains(x) <==> named.contains(
        labels[x as int],
    )) by {
        if numbered.contains(x) {
            let i = choose|i: int| 0 <= i < numbered.len() && numbered[i] == x;
            assert(named[i] == labels[numbered[i] as int]);
        }
        if named.contains(labels[x as int]) {
            let i = choose|i: int| 0 <= i < named.len() && named[i] == labels[x as int];
            assert(named[i] == labels[numbered[i] as int]);
            assert(numbered[i] == x);
        }
    }
}

/// Naming the vertices keeps the paths.
pub proof fn lemma_named_path<V>(
    labels: Seq<V>,
    indexed: Seq<(usize, usize)>,
    links: Seq<(V, V)>,
    marked: Seq<bool>,
    set: Set<V>,
    root: usize,
    steps: Seq<usize>,
)
    requires
        relabels(labels, indexed, links),
        marks_agree(labels, marked, set),
        root < labels.len(),
    ensures
        is_fresh_path(indexed, marked, root, steps) <==> is_fresh_path_in(
            links,
            set,
            labels[root as int],
            steps,
        ),
{
    lemma_relabel_chain(labels, indexed, links, steps);
    if is_chain(indexed, steps) {
        lemma_named_trail(labels, indexed, links, root, steps);
        lemma_named_fresh_walk(
            labels,
            indexed,
            links,
            marked,
            set,
            root,
            path_end(indexed, root, steps),
            steps,
        );
    }
}

/// Naming the vertices keeps the lassos, and which of them is the first.
pub proof fn lemma_named_lasso<V>(
    labels: Seq<V>,
    indexed: Seq<(usize, usize)>,
    links: Seq<(V, V)>,
    marked: Seq<bool>,
    set: Set<V>,
    root: usize,
    steps: Seq<usize>,
)
    requires
        relabels(labels, indexed, links),
        marks_agree(labels, marked, set),
        root < labels.len(),
    ensures
        is_lasso(indexed, marked, root, steps) <==> is_lasso_in(
            links,
            set,
            labels[root as int],
            steps,
        ),
{
    if steps.len() > 0 {
        let body = steps.drop_last();
        let c = steps[steps.len() - 1];
        lemma_named_path(labels, indexed, links, marked, set, root, body);
        lemma_relabel_chain(labels, indexed, links, body);
        if is_chain(indexed, body) && c < indexed.len() {
            lemma_named_trail(labels, indexed, links, root, body);
            assert(indexed[c as int].0 < labels.len() && indexed[c as int].1 < labels.len());
        }
    }
}

/// Naming the vertices keeps the first lasso.
pub proof fn lemma_named_first_lasso<V>(
    labels: Seq<V>,
    indexed: Seq<(usize, usize)>,
    links: Seq<(V, V)>,
    marked: Seq<bool>,
    set: Set<V>,
    root: usize,
    steps: Seq<usize>,
)
    requires
        relabels(labels, indexed, links),
        marks_agree(labels, marked, set),
        root < labels.len(),
    ensures
        is_first_lasso(indexed, marked, root, steps) <==> is_first_lasso_in(
            links,
            set,
            labels[root as int],
            steps,
        ),
{
    lemma_named_lasso(labels, indexed, links, marked, set, root, steps);
    if is_first_lasso(indexed, marked, root, steps) {
        assert forall|other: Seq<usize>| #[trigger]
            is_lasso_in(links, set, labels[root as int], other) implies other == steps || lex_lt(
            steps,
            other,
        ) by {
            lemma_named_lasso(labels, indexed, links, marked, set, root, other);
            assert(is_lasso(indexed, marked, root, other));
        }
    }
    if is_first_lasso_in(links, set, labels[root as int], steps) {
        assert forall|other: Seq<usize>| #[trigger]
            is_lasso(indexed, marked, root, other) implies other == steps || lex_lt(
            steps,
            other,
        ) by {
            lemma_named_lasso(labels, indexed, links, marked, set, root, other);
            assert(is_lasso_in(links, set, labels[root as int], other));
        }
    }
}

/// Naming the vertices keeps what a search has entered before it meets a
/// lasso.
pub proof fn lemma_named_searched<V>(
    labels: Seq<V>,
    indexed: Seq<(usize, usize)>,
    links: Seq<(V, V)>,
    marked: Seq<bool>,
    set: Set<V>,
    root: usize,
    lasso: Seq<usize>,
    v: usize,
)
    requires
        relabels(labels, indexed, links),
        marks_agree(labels, marked, set),
        root < labels.len(),
        v < labels.len(),
    ensures
        is_searched_before(indexed, marked, root, lasso, v) <==> is_searched_before_in(
            links,
            set,
            labels[root as int],
            lasso,
            labels[v as int],
        ),
{
    if is_searched_before(indexed, marked, root, lasso, v) {
        let q = choose|q: Seq<usize>|
            #[trigger] is_fresh_path(indexed, marked, root, q) && path_end(indexed, root, q) == v
                && (lex_lt(q, lasso) || q.is_prefix_of(lasso.drop_last()));
        lemma_named_path(labels, indexed, links, marked, set, root, q);
        lemma_named_trail(labels, indexed, links, root, q);
        assert(is_fresh_path_in(links, set, labels[root as int], q) && end_of(
            links,
            labels[root as int],
            q,
        ) == labels[v as int]);
    }
    if is_searched_before_in(links, set, labels[root as int], lasso, labels[v as int]) {
        let q = choose|q: Seq<usize>|
            #[trigger] is_fresh_path_in(links, set, labels[root as int], q) && end_of(
                links,
                labels[root as int],
                q,
            ) == labels[v as int] && (lex_lt(q, lasso) || q.is_prefix_of(lasso.drop_last()));
        lemma_named_path(labels, indexed, links, marked, set, root, q);
        lemma_relabel_chain(labels, indexed, links, q);
        lemma_named_trail(labels, indexed, links, root, q);
        assert(path_end(indexed, root, q) == v);
        assert(is_fresh_path(indexed, marked, root, q));
    }
}

/// Naming the vertices keeps what can be reached without passing a marked
/// vertex.
pub proof fn lemma_named_reachable<V>(
    labels: Seq<V>,
    indexed: Seq<(usize, usize)>,
    links: Seq<(V, V)>,
    marked: Seq<bool>,
    set: Set<V>,
    root: usize,
    v: usize,
)
    requires
        relabels(labels, indexed, links),
        marks_agree(labels, marked, set),
        root < labels.len(),
        v < labels.len(),
    ensures
        fresh_reachable(indexed, marked, root, v) <==> fresh_reachable_in(
            links,
            set,
            labels[root as int],
            labels[v as int],
        ),
{
    if fresh_reachable(indexed, marked, root, v) {
        let steps = choose|steps: Seq<usize>| is_fresh_walk(indexed, marked, root, v, steps);
        lemma_named_fresh_walk(labels, indexed, links, marked, set, root, v, steps);
    }
    if fresh_reachable_in(links, set, labels[root as int], labels[v as int]) {
        let steps = choose|steps: Seq<usize>|
            is_fresh_walk_in(links, set, labels[root as int], labels[v as int], steps);
        lemma_named_fresh_walk(labels, indexed, links, marked, set, root, v, steps);
    }
}

/// A lasso holds a cycle that can be reached from its root.
pub proof fn lemma_lasso_holds_cycle(
    links: Seq<(usize, usize)>,
    marked: Seq<bool>,
    root: usize,
    lasso: Seq<usize>,
)
    requires
        is_lasso(links, marked, root, lasso),
    ensures
        fresh_cycle_from(links, marked, root),
{
    let body = lasso.drop_last();
    let c = lasso[lasso.len() - 1];
    let x = links[c as int].1;
    let along = trail(links, root, body);
    let i = choose|i: int| 0 <= i < along.len() && along[i] == x;
    let back = body.subrange(i, body.len() as int);
    let cycle = back.push(c);
    lemma_chain_subrange(links, body, i, body.len() as int);
    lemma_chain_subrange(links, body, 0, i);
    if back.len() > 0 {
        assert(back[back.len() - 1] == body[body.len() - 1]);
        assert(back[0] == body[i]);
        if i > 0 {
            assert(links[body[i - 1] as int].1 == links[body[i] as int].0);
        }
    }
    lemma_chain_push(links, back, c);
    assert(cycle[0] == if back.len() > 0 {
        body[i]
    } else {
        c
    });
    assert(links[cycle[0] as int].0 == x);
    assert(is_cycle(links, cycle));
    assert(!marked[x as int]) by {
        if i > 0 {
            assert(!marked[links[body[i - 1] as int].1 as int]);
        }
    }
    assert forall|j: int| 0 <= j < cycle.len() implies !marked[links[(#[trigger] cycle[j]) as int].0 as int]
        && !marked[links[cycle[j] as int].1 as int] by {
        if j < back.len() {
            assert(cycle[j] == body[i + j]);
        } else {
            if body.len() > 0 {
                assert(!marked[links[body[body.len() - 1] as int].1 as int]);
            }
        }
    }
    let lead = body.subrange(0, i);
    assert forall|j: int| 0 <= j < lead.len() implies !marked[links[(#[trigger] lead[j]) as int].0 as int]
        && !marked[links[lead[j] as int].1 as int] by {
        assert(lead[j] == body[j]);
    }
    if lead.len() > 0 {
        assert(lead[0] == body[0]);
        assert(lead[lead.len() - 1] == body[i - 1]);
    }
    assert(is_fresh_walk(links, marked, root, x, lead));
    assert(fresh_reachable(links, marked, root, links[cycle[0] as int].0));
}

/// Naming the vertices names the cycle of a lasso.
pub proof fn lemma_named_cycle<V>(
    labels: Seq<V>,
    indexed: Seq<(usize, usize)>,
    links: Seq<(V, V)>,
    marked: Seq<bool>,
    set: Set<V>,
    root: usize,
    lasso: Seq<usize>,
    cycle: Seq<usize>,
)
    requires
        relabels(labels, indexed, links),
        marks_agree(labels, marked, set),
        root < labels.len(),
        is_lasso(indexed, marked, root, lasso),
        exists|p: int|
            0 <= p <= lasso.len() - 1 && #[trigger] trail(indexed, root, lasso.drop_last())[p]
                == indexed[lasso[lasso.len() - 1] as int].1 && cycle == trail(
                indexed,
                root,
                lasso.drop_last(),
            ).subrange(p, lasso.len() as int),
    ensures
        forall|i: int| 0 <= i < cycle.len() ==> (#[trigger] cycle[i]) < labels.len(),
        cycle_of(links, labels[root as int], lasso) == Seq::new(
            cycle.len(),
            |i: int| labels[cycle[i] as int],
        ),
{
    let body = lasso.drop_last();
    let c = lasso[lasso.len() - 1];
    let numbered = trail(indexed, root, body);
    let named = trail(links, labels[root as int], body);
    let p = choose|p: int|
        0 <= p <= lasso.len() - 1 && #[trigger] numbered[p] == indexed[c as int].1 && cycle
            == numbered.subrange(p, lasso.len() as int);
    lemma_named_path(labels, indexed, links, marked, set, root, body);
    lemma_named_trail(labels, indexed, links, root, body);
    let target = links[c as int].1;
    assert(target == labels[indexed[c as int].1 as int]);
    assert(named[p] == labels[numbered[p] as int]);
    let at = named.index_of(target);
    assert(0 <= at < named.len() && named[at] == target);
    assert(at == p);
    assert forall|i: int| 0 <= i < cycle.len() implies (#[trigger] cycle[i]) < labels.len() by {
        assert(cycle[i] == numbered[p + i]);
    }
    let wanted = Seq::new(cycle.len(), |i: int| labels[cycle[i] as int]);
    assert forall|i: int| 0 <= i < wanted.len() implies named.subrange(p, named.len() as int)[i]
        == wanted[i] by {
        assert(cycle[i] == numbered[p + i]);
        assert(named[p + i] == labels[numbered[p + i] as int]);
    }
    assert(named.subrange(p, named.len() as int) =~= wanted);
}

/// One search more. Where the marks on numbered vertices agree with what is
/// marked after the searches from the first `upto` roots, and the vertex
/// `upto` carries the name of the next root, the outcome of a search from it
/// agrees with what is marked, and found, after one search more.
pub proof fn lemma_search_step<V>(
    labels: Seq<V>,
    indexed: Seq<(usize, usize)>,
    links: Seq<(V, V)>,
    roots: Seq<V>,
    upto: usize,
    marked: Seq<bool>,
    visited: Seq<bool>,
    found: bool,
    path: Seq<usize>,
    cycle: Seq<usize>,
)
    requires
        relabels(labels, indexed, links),
        labels.len() <= usize::MAX,
        upto < roots.len(),
        upto < labels.len(),
        roots[upto as int] == labels[upto as int],
        marks_agree(labels, marked, marks_after(links, roots, upto as nat)),
        visited.len() == labels.len(),
        marked[upto as int] ==> visited == marked && !found,
        !marked[upto as int] ==> (found <==> fresh_cycle_from(indexed, marked, upto)),
        !marked[upto as int] && found ==> exists|lasso: Seq<usize>|
            finds(indexed, marked, upto, lasso, visited, path, cycle),
        !marked[upto as int] && !found ==> forall|v: int|
            0 <= v < labels.len() ==> (#[trigger] visited[v] <==> marked[v] || fresh_reachable(
                indexed,
                marked,
                upto,
                v as usize,
            )),
    ensures
        marks_agree(labels, visited, marks_after(links, roots, (upto + 1) as nat)),
        found ==> forall|i: int| 0 <= i < cycle.len() ==> (#[trigger] cycle[i]) < labels.len(),
        cycles_after(links, roots, (upto + 1) as nat) == if found {
            cycles_after(links, roots, upto as nat).push(
                Seq::new(cycle.len(), |i: int| labels[cycle[i] as int]),
            )
        } else {
            cycles_after(links, roots, upto as nat)
        },
{
    let set = marks_after(links, roots, upto as nat);
    let root = labels[upto as int];
    assert(((upto + 1) as nat - 1) as nat == upto as nat);
    if marked[upto as int] {
        assert(set.contains(root));
    } else if found {
        let lasso = choose|lasso: Seq<usize>|
            finds(indexed, marked, upto, lasso, visited, path, cycle);
        lemma_named_first_lasso(labels, indexed, links, marked, set, upto, lasso);
        let chosen = choose|l: Seq<usize>| is_first_lasso_in(links, set, root, l);
        lemma_first_lasso_is_unique(links, set, root, chosen, lasso);
        let after = marks_after(links, roots, (upto + 1) as nat);
        assert(after == set.union(
            Set::new(|v: V| is_searched_before_in(links, set, root, lasso, v)),
        ));
        assert forall|v: int| 0 <= v < labels.len() implies (#[trigger] visited[v]
            <==> after.contains(labels[v])) by {
            lemma_named_searched(labels, indexed, links, marked, set, upto, lasso, v as usize);
        }
        assert(path.len() == lasso.len()) by {
            assert(trail(indexed, upto, lasso.drop_last()).len() == lasso.len());
        }
        lemma_named_cycle(labels, indexed, links, marked, set, upto, lasso, cycle);
    } else {
        if exists|l: Seq<usize>| is_first_lasso_in(links, set, root, l) {
            let l = choose|l: Seq<usize>| is_first_lasso_in(links, set, root, l);
            lemma_named_lasso(labels, indexed, links, marked, set, upto, l);
            lemma_lasso_holds_cycle(indexed, marked, upto, l);
        }
        let after = marks_after(links, roots, (upto + 1) as nat);
        assert(after == set.union(Set::new(|v: V| fresh_reachable_in(links, set, root, v))));
        assert forall|v: int| 0 <= v < labels.len() implies (#[trigger] visited[v]
            <==> after.contains(labels[v])) by {
            lemma_named_reachable(labels, indexed, links, marked, set, upto, v as usize);
        }
    }
}

} // verus!
