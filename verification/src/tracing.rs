//! The record of a search in depth: which paths it has been through.
//!
//! A path has been passed if it leaves the stack over an edge that the
//! search has followed. While nothing is found no lasso has been passed, so
//! that the first edge back to the stack closes the first lasso.

use vstd::prelude::*;
use crate::adjacency::Adjacency;
use crate::cycle_detection::{
    finds,
    fresh_cycle_from,
    fresh_reachable,
    is_first_lasso,
    is_fresh_path,
    is_fresh_walk,
    is_lasso,
    is_searched_before,
    path_end,
};
use crate::descent::{
    lemma_descending_closed,
    at_start,
    Descent,
    after_enter,
    after_leave,
    after_pass,
    descending,
    has_next,
    is_black,
    is_settled,
    lemma_descending_bounds,
    lemma_descending_cycle,
    lemma_descending_end,
    lemma_descending_enter,
    lemma_descending_leave,
    lemma_descending_off_stack,
    lemma_descending_pass,
    lemma_descending_start,
    lemma_descent_frame,
    lemma_descent_left,
    lemma_leaves_stack,
    lemma_stack_path,
    next_edge,
    next_vertex,
    snapshot,
};
use crate::walks::{
    is_cycle,
    is_cycle_through,
    is_walk,
    lemma_chain_push,
    lemma_chain_subrange,
    lemma_walk_push,
    lex_lt,
    trail,
};

verus! {

/// The chain `q` leaves the stack at the vertex at `t`, over an edge that
/// has been followed from there and is not the one that leads up the stack.
pub(crate) open spec fn passes_at(adjacency: &Adjacency, s: Descent, q: Seq<usize>, t: int) -> bool {
    &&& 0 <= t < s.path.len()
    &&& t < q.len()
    &&& q.subrange(0, t) == s.walk.subrange(0, t)
    &&& exists|j: int|
        0 <= j < s.cursors[t] && #[trigger] adjacency.outgoing[s.path[t] as int][j] == q[t]
    &&& t < s.path.len() - 1 ==> q[t] != s.walk[t]
}

/// The search has been where the chain `q` leads: the chain leaves the stack
/// over an edge that has been followed.
pub(crate) open spec fn is_passed(adjacency: &Adjacency, s: Descent, q: Seq<usize>) -> bool {
    exists|t: int| #[trigger] passes_at(adjacency, s, q, t)
}

/// What the search has been through. For each vertex entered, `tree` holds
/// the path by which it was entered: the stack below it while it is on the
/// stack, a path that has been passed once it is left. While the stack is
/// not empty, every path that has been passed ends at a vertex that has been
/// visited, and no lasso has been passed.
#[verifier::opaque]
pub(crate) open spec fn tracing(adjacency: &Adjacency, s: Descent, tree: Seq<Seq<usize>>) -> bool {
    let n = adjacency.names.len() as int;
    let links = adjacency.links();
    &&& tree.len() == n
    &&& forall|v: int|
        0 <= v < n && #[trigger] s.visited[v] && !s.marked[v] ==> is_fresh_path(
            links,
            s.marked,
            s.root,
            tree[v],
        ) && path_end(links, s.root, tree[v]) == v
    &&& forall|i: int|
        0 <= i < s.path.len() ==> tree[(#[trigger] s.path[i]) as int] == s.walk.subrange(0, i)
    &&& s.path.len() > 0 ==> forall|v: int|
        0 <= v < n && #[trigger] is_black(s.marked, s.visited, s.path, v) ==> is_passed(
            adjacency,
            s,
            tree[v],
        )
    &&& s.path.len() > 0 ==> forall|q: Seq<usize>|
        #[trigger] is_fresh_path(links, s.marked, s.root, q) && is_passed(adjacency, s, q)
            ==> path_end(links, s.root, q) < n && s.visited[path_end(links, s.root, q) as int]
    &&& s.path.len() > 0 ==> forall|q: Seq<usize>|
        #[trigger] is_lasso(links, s.marked, s.root, q) ==> !is_passed(adjacency, s, q)
}

/// At the root nothing has been passed.
pub(crate) proof fn lemma_tracing_start(adjacency: &Adjacency, s: Descent, tree: Seq<Seq<usize>>)
    requires
        adjacency.wf(),
        descending(adjacency, s),
        tree.len() == adjacency.names.len(),
        s.root < adjacency.names.len(),
        !s.marked[s.root as int],
        s.marked.len() == adjacency.names.len(),
        s.visited == s.marked.update(s.root as int, true),
        s.path == seq![s.root],
        s.cursors == seq![0usize],
        s.walk == Seq::<usize>::empty(),
        tree[s.root as int] == Seq::<usize>::empty(),
    ensures
        tracing(adjacency, s, tree),
{
    reveal(tracing);
    let links = adjacency.links();
    let n = adjacency.names.len() as int;
    lemma_stack_path(adjacency, s, 0);
    assert(s.walk.subrange(0, 0) =~= Seq::<usize>::empty());
    assert forall|v: int| 0 <= v < n && #[trigger] s.visited[v] && !s.marked[v] implies is_fresh_path(
        links,
        s.marked,
        s.root,
        tree[v],
    ) && path_end(links, s.root, tree[v]) == v by {
        assert(v == s.root);
    }
    assert forall|v: int| 0 <= v < n implies !#[trigger] is_black(s.marked, s.visited, s.path, v) by {
        if s.visited[v] && !s.marked[v] {
            assert(v == s.root);
            assert(s.path[0] == s.root);
        }
    }
    assert forall|q: Seq<usize>| !is_passed(adjacency, s, q) by {
        if is_passed(adjacency, s, q) {
            let t = choose|t: int| #[trigger] passes_at(adjacency, s, q, t);
            assert(t == 0);
        }
    }
}

/// A lasso is a walk from the root.
pub(crate) proof fn lemma_lasso_walk(links: Seq<(usize, usize)>, marked: Seq<bool>, root: usize, q: Seq<usize>)
    requires
        is_lasso(links, marked, root, q),
    ensures
        is_walk(links, root, path_end(links, root, q), q),
{
    let body = q.drop_last();
    let c = q[q.len() - 1];
    lemma_walk_push(links, root, path_end(links, root, body), body, c);
    assert(body.push(c) =~= q);
}

/// The search passes the same chains after it has entered a vertex as
/// before.
pub(crate) proof fn lemma_passed_enter(adjacency: &Adjacency, s: Descent, q: Seq<usize>)
    requires
        adjacency.wf(),
        descending(adjacency, s),
        has_next(adjacency, s),
    ensures
        is_passed(adjacency, after_enter(adjacency, s), q) <==> is_passed(adjacency, s, q),
{
    lemma_descent_frame(adjacency, s);
    let s2 = after_enter(adjacency, s);
    let top = s.path.len() - 1;
    let k = s.cursors[top];
    let list = adjacency.outgoing[s.path[top] as int]@;
    let bound: usize = adjacency.outgoing[s.path[top] as int].len();
    assert(k < bound);
    if is_passed(adjacency, s, q) {
        let t = choose|t: int| #[trigger] passes_at(adjacency, s, q, t);
        assert(s2.walk.subrange(0, t) =~= s.walk.subrange(0, t));
        let j = choose|j: int|
            0 <= j < s.cursors[t] && #[trigger] adjacency.outgoing[s.path[t] as int][j] == q[t];
        assert(0 <= j < s2.cursors[t] && adjacency.outgoing[s2.path[t] as int][j] == q[t]);
        if t == top {
            assert(list[j] < list[k as int]);
        }
        assert(passes_at(adjacency, s2, q, t));
    }
    if is_passed(adjacency, s2, q) {
        let t = choose|t: int| #[trigger] passes_at(adjacency, s2, q, t);
        assert(t <= top);
        assert(s2.walk.subrange(0, t) =~= s.walk.subrange(0, t));
        let j = choose|j: int|
            0 <= j < s2.cursors[t] && #[trigger] adjacency.outgoing[s2.path[t] as int][j] == q[t];
        assert(s2.path[t] == s.path[t]);
        if t == top {
            assert(j != k);
        }
        assert(0 <= j < s.cursors[t] && adjacency.outgoing[s.path[t] as int][j] == q[t]);
        assert(passes_at(adjacency, s, q, t));
    }
}

/// Entering a vertex keeps the record of the search.
pub(crate) proof fn lemma_tracing_enter(adjacency: &Adjacency, s: Descent, tree: Seq<Seq<usize>>)
    requires
        adjacency.wf(),
        descending(adjacency, s),
        tracing(adjacency, s, tree),
        has_next(adjacency, s),
        !s.visited[next_vertex(adjacency, s) as int],
    ensures
        tracing(
            adjacency,
            after_enter(adjacency, s),
            tree.update(
                next_vertex(adjacency, s) as int,
                s.walk.push(next_edge(adjacency, s)),
            ),
        ),
{
    lemma_descent_frame(adjacency, s);
    let n = adjacency.names.len() as int;
    let links = adjacency.links();
    let s2 = after_enter(adjacency, s);
    let top = s.path.len() - 1;
    let u = s.path[top];
    let e = next_edge(adjacency, s);
    let w = next_vertex(adjacency, s);
    let tree2 = tree.update(w as int, s.walk.push(e));
    assert(adjacency.sources[e as int] == u && w < n);
    assert(links[e as int] == (u, w));
    assert(!s.path.contains(w));
    lemma_stack_path(adjacency, s, top);
    assert(s.walk.subrange(0, top) =~= s.walk);
    lemma_walk_push(links, s.root, u, s.walk, e);
    let longer = s.walk.push(e);
    assert(trail(links, s.root, longer) =~= s.path.push(w)) by {
        assert(trail(links, s.root, s.walk) == s.path.subrange(0, top + 1));
        assert(s.path.subrange(0, top + 1) =~= s.path);
        assert forall|i: int| 0 <= i < longer.len() + 1 implies trail(links, s.root, longer)[i]
            == s.path.push(w)[i] by {
            if 0 < i <= top {
                assert(longer[i - 1] == s.walk[i - 1]);
                assert(trail(links, s.root, s.walk)[i] == s.path[i]);
            }
        }
    }
    assert(is_fresh_path(links, s.marked, s.root, longer)) by {
        assert forall|i: int| 0 <= i < longer.len() implies !s.marked[links[(
        #[trigger] longer[i]) as int].0 as int] && !s.marked[links[longer[i] as int].1 as int] by {
            if i < s.walk.len() {
                assert(longer[i] == s.walk[i]);
            }
        }
    }
    reveal(tracing);
    assert forall|v: int| 0 <= v < n implies (is_black(s.marked, s.visited, s.path, v)
        <==> is_black(s2.marked, s2.visited, s2.path, v)) by {
        if v == w {
            assert(s2.path[top + 1] == w);
        } else if s.path.contains(v as usize) {
            let i = choose|i: int| 0 <= i < s.path.len() && s.path[i] == v as usize;
            assert(s2.path[i] == v as usize);
        } else if s2.path.contains(v as usize) {
            let i = choose|i: int| 0 <= i < s2.path.len() && s2.path[i] == v as usize;
            assert(s.path[i] == v as usize);
        }
    }
    assert forall|i: int| 0 <= i < s2.path.len() implies tree2[(#[trigger] s2.path[i]) as int]
        == s2.walk.subrange(0, i) by {
        if i <= top {
            assert(s2.path[i] == s.path[i]);
            assert(s2.walk.subrange(0, i) =~= s.walk.subrange(0, i));
        } else {
            assert(s2.walk.subrange(0, i) =~= longer);
        }
    }
    assert forall|v: int| 0 <= v < n && #[trigger] is_black(
        s2.marked,
        s2.visited,
        s2.path,
        v,
    ) implies is_passed(adjacency, s2, tree2[v]) by {
        assert(is_black(s.marked, s.visited, s.path, v));
        lemma_passed_enter(adjacency, s, tree[v]);
    }
    assert forall|q: Seq<usize>|
        #[trigger] is_fresh_path(links, s2.marked, s2.root, q) && is_passed(
            adjacency,
            s2,
            q,
        ) implies path_end(links, s2.root, q) < n && s2.visited[path_end(
        links,
        s2.root,
        q,
    ) as int] by {
        lemma_passed_enter(adjacency, s, q);
    }
    assert forall|q: Seq<usize>| #[trigger] is_lasso(links, s2.marked, s2.root, q) implies !is_passed(
        adjacency,
        s2,
        q,
    ) by {
        lemma_passed_enter(adjacency, s, q);
    }
}

/// What is left of a path after its first `from` edges is a walk, without a
/// marked vertex, from the vertex at which those edges end.
pub(crate) proof fn lemma_path_rest(
    links: Seq<(usize, usize)>,
    marked: Seq<bool>,
    root: usize,
    q: Seq<usize>,
    from: int,
)
    requires
        is_fresh_path(links, marked, root, q),
        0 < from <= q.len(),
    ensures
        is_fresh_walk(
            links,
            marked,
            links[q[from - 1] as int].1,
            path_end(links, root, q),
            q.subrange(from, q.len() as int),
        ),
{
    let rest = q.subrange(from, q.len() as int);
    lemma_chain_subrange(links, q, from, q.len() as int);
    assert forall|i: int| 0 <= i < rest.len() implies !marked[links[(#[trigger] rest[i]) as int].0 as int]
        && !marked[links[rest[i] as int].1 as int] by {
        assert(rest[i] == q[from + i]);
    }
    if rest.len() > 0 {
        assert(rest[0] == q[from]);
        assert(rest[rest.len() - 1] == q[q.len() - 1]);
        assert(links[q[from - 1] as int].1 == links[q[from] as int].0);
    }
    assert(!marked[links[q[from - 1] as int].1 as int]);
}

/// Each vertex along a path is unmarked, and is where the edge before it
/// ends and the edge after it starts.
pub(crate) proof fn lemma_path_vertex(
    links: Seq<(usize, usize)>,
    marked: Seq<bool>,
    root: usize,
    q: Seq<usize>,
    i: int,
)
    requires
        is_fresh_path(links, marked, root, q),
        0 <= i <= q.len(),
    ensures
        !marked[trail(links, root, q)[i] as int],
        i < q.len() ==> links[q[i] as int].0 == trail(links, root, q)[i],
        i > 0 ==> links[q[i - 1] as int].1 == trail(links, root, q)[i],
{
    if i > 0 && i < q.len() {
        assert(links[q[i - 1] as int].1 == links[q[i] as int].0);
    }
}

/// Passing over an edge adds to the chains passed those that run along the
/// stack and then over that edge.
pub(crate) proof fn lemma_passed_pass(adjacency: &Adjacency, s: Descent, q: Seq<usize>)
    requires
        adjacency.wf(),
        descending(adjacency, s),
        has_next(adjacency, s),
    ensures
        is_passed(adjacency, after_pass(adjacency, s), q) <==> is_passed(adjacency, s, q) || (
        q.len() > s.walk.len() && q.subrange(0, s.walk.len() as int) == s.walk && q[s.walk.len() as int]
            == next_edge(adjacency, s)),
{
    lemma_descent_frame(adjacency, s);
    let s2 = after_pass(adjacency, s);
    let top = s.path.len() - 1;
    let k = s.cursors[top];
    let bound: usize = adjacency.outgoing[s.path[top] as int].len();
    assert(k < bound);
    assert(s.walk.subrange(0, top) =~= s.walk);
    if is_passed(adjacency, s, q) {
        let t = choose|t: int| #[trigger] passes_at(adjacency, s, q, t);
        let j = choose|j: int|
            0 <= j < s.cursors[t] && #[trigger] adjacency.outgoing[s.path[t] as int][j] == q[t];
        assert(0 <= j < s2.cursors[t] && adjacency.outgoing[s2.path[t] as int][j] == q[t]);
        assert(passes_at(adjacency, s2, q, t));
    }
    if q.len() > top && q.subrange(0, top) == s.walk && q[top] == next_edge(adjacency, s) {
        assert(0 <= k < s2.cursors[top] && adjacency.outgoing[s2.path[top] as int][k as int]
            == q[top]);
        assert(passes_at(adjacency, s2, q, top));
    }
    if is_passed(adjacency, s2, q) {
        let t = choose|t: int| #[trigger] passes_at(adjacency, s2, q, t);
        let j = choose|j: int|
            0 <= j < s2.cursors[t] && #[trigger] adjacency.outgoing[s2.path[t] as int][j] == q[t];
        if t == top && j == k {
        } else {
            assert(0 <= j < s.cursors[t] && adjacency.outgoing[s.path[t] as int][j] == q[t]);
            assert(passes_at(adjacency, s, q, t));
        }
    }
}

/// A path that runs along the stack and then over an edge to a vertex that
/// the search has left ends at a vertex that it has left, and is not the
/// body of a lasso.
pub(crate) proof fn lemma_through_left(adjacency: &Adjacency, s: Descent, q: Seq<usize>, closing: Option<usize>)
    requires
        adjacency.wf(),
        descending(adjacency, s),
        s.path.len() > 0,
        is_fresh_path(adjacency.links(), s.marked, s.root, q),
        q.len() > s.walk.len(),
        q.subrange(0, s.walk.len() as int) == s.walk,
        is_black(
            s.marked,
            s.visited,
            s.path,
            adjacency.links()[q[s.walk.len() as int] as int].1 as int,
        ),
    ensures
        path_end(adjacency.links(), s.root, q) < adjacency.names.len(),
        is_black(s.marked, s.visited, s.path, path_end(adjacency.links(), s.root, q) as int),
        match closing {
            Some(c) => !is_lasso(adjacency.links(), s.marked, s.root, q.push(c)),
            None => true,
        },
{
    lemma_descent_frame(adjacency, s);
    lemma_descent_left(adjacency, s);
    let links = adjacency.links();
    let top = s.path.len() - 1;
    let w = links[q[top] as int].1;
    let end = path_end(links, s.root, q);
    assert(q[top] < links.len());
    assert(w < adjacency.names.len());
    lemma_path_rest(links, s.marked, s.root, q, top + 1);
    lemma_descending_closed(adjacency, s, w, end, q.subrange(top + 1, q.len() as int));
    match closing {
        Some(c) => {
            let whole = q.push(c);
            assert(whole.drop_last() =~= q);
            if is_lasso(links, s.marked, s.root, whole) {
                assert(whole[whole.len() - 1] == c);
                let x = links[c as int].1;
                let along = trail(links, s.root, q);
                let i = choose|i: int| 0 <= i < along.len() && along[i] == x;
                lemma_path_vertex(links, s.marked, s.root, q, i);
                assert(adjacency.sources[c as int] == end);
                assert(is_settled(s.marked, s.visited, s.path, adjacency.targets[c as int] as int));
                assert(is_black(s.marked, s.visited, s.path, x as int));
                if i <= top {
                    if i > 0 {
                        assert(q.subrange(0, top)[i - 1] == q[i - 1]);
                        assert(links[s.walk[i - 1] as int] == (s.path[i - 1], s.path[i]));
                    }
                    assert(along[i] == s.path[i]);
                } else {
                    let back = q.subrange(i, q.len() as int);
                    lemma_chain_subrange(links, q, i, q.len() as int);
                    let cycle = back.push(c);
                    if back.len() > 0 {
                        assert(back[back.len() - 1] == q[q.len() - 1]);
                        assert(back[0] == q[i]);
                    }
                    lemma_chain_push(links, back, c);
                    assert(cycle[0] == if back.len() > 0 {
                        q[i]
                    } else {
                        c
                    });
                    assert(links[cycle[0] as int].0 == x);
                    assert(is_cycle(links, cycle));
                    assert forall|j: int| 0 <= j < cycle.len() implies !s.marked[links[(
                    #[trigger] cycle[j]) as int].0 as int] && !s.marked[links[cycle[j] as int].1 as int] by {
                        if j < back.len() {
                            assert(cycle[j] == q[i + j]);
                        } else {
                            lemma_path_vertex(links, s.marked, s.root, q, q.len() as int);
                        }
                    }
                    assert(!is_black(s.marked, s.visited, s.path, links[cycle[0] as int].0 as int));
                }
            }
        },
        None => {},
    }
}

/// A path that has been passed once the next edge is passed over ends at a
/// vertex that has been visited, if that holds of the paths passed before.
pub(crate) proof fn lemma_pass_visits(adjacency: &Adjacency, s: Descent, q: Seq<usize>)
    requires
        adjacency.wf(),
        descending(adjacency, s),
        has_next(adjacency, s),
        s.visited[next_vertex(adjacency, s) as int],
        !s.path.contains(next_vertex(adjacency, s)),
        is_fresh_path(adjacency.links(), s.marked, s.root, q),
        is_passed(adjacency, after_pass(adjacency, s), q),
        is_passed(adjacency, s, q) ==> path_end(adjacency.links(), s.root, q)
            < adjacency.names.len() && s.visited[path_end(adjacency.links(), s.root, q) as int],
    ensures
        path_end(adjacency.links(), s.root, q) < adjacency.names.len(),
        s.visited[path_end(adjacency.links(), s.root, q) as int],
{
    lemma_passed_pass(adjacency, s, q);
    if !is_passed(adjacency, s, q) {
        lemma_descent_frame(adjacency, s);
        let links = adjacency.links();
        let top = s.path.len() - 1;
        let e = next_edge(adjacency, s);
        assert(links[e as int] == (s.path[top], next_vertex(adjacency, s)));
        assert(q[top] == e);
        assert(!s.marked[links[q[top] as int].1 as int]);
        lemma_through_left(adjacency, s, q, None);
    }
}

/// A lasso that was not passed before the next edge was passed over is not
/// passed after.
pub(crate) proof fn lemma_pass_no_lasso(adjacency: &Adjacency, s: Descent, q: Seq<usize>)
    requires
        adjacency.wf(),
        descending(adjacency, s),
        has_next(adjacency, s),
        s.visited[next_vertex(adjacency, s) as int],
        !s.path.contains(next_vertex(adjacency, s)),
        is_lasso(adjacency.links(), s.marked, s.root, q),
        !is_passed(adjacency, s, q),
    ensures
        !is_passed(adjacency, after_pass(adjacency, s), q),
{
    lemma_passed_pass(adjacency, s, q);
    if is_passed(adjacency, after_pass(adjacency, s), q) {
        lemma_descent_frame(adjacency, s);
        let links = adjacency.links();
        let top = s.path.len() - 1;
        let e = next_edge(adjacency, s);
        assert(links[e as int] == (s.path[top], next_vertex(adjacency, s)));
        let body = q.drop_last();
        let c = q[q.len() - 1];
        assert(body.push(c) =~= q);
        if q.len() == top + 1 {
            assert(body =~= s.walk);
            lemma_stack_path(adjacency, s, top);
            assert(s.walk.subrange(0, top) =~= s.walk);
            assert(s.path.subrange(0, top + 1) =~= s.path);
            assert(trail(links, s.root, body) == s.path);
            assert(c == e);
        } else {
            assert(body[top] == q[top]);
            assert(body.subrange(0, top) =~= q.subrange(0, top));
            assert(!s.marked[links[body[top] as int].1 as int]);
            lemma_through_left(adjacency, s, body, Some(c));
        }
    }
}

/// Passing over an edge to a vertex that has been visited and is not on the
/// stack keeps the record of the search.
pub(crate) proof fn lemma_tracing_pass(adjacency: &Adjacency, s: Descent, tree: Seq<Seq<usize>>)
    requires
        adjacency.wf(),
        descending(adjacency, s),
        tracing(adjacency, s, tree),
        has_next(adjacency, s),
        s.visited[next_vertex(adjacency, s) as int],
        !s.path.contains(next_vertex(adjacency, s)),
    ensures
        tracing(adjacency, after_pass(adjacency, s), tree),
{
    let n = adjacency.names.len() as int;
    let links = adjacency.links();
    let s2 = after_pass(adjacency, s);
    reveal(tracing);
    assert forall|v: int| 0 <= v < n && #[trigger] is_black(
        s2.marked,
        s2.visited,
        s2.path,
        v,
    ) implies is_passed(adjacency, s2, tree[v]) by {
        lemma_passed_pass(adjacency, s, tree[v]);
    }
    assert forall|q: Seq<usize>|
        #[trigger] is_fresh_path(links, s2.marked, s2.root, q) && is_passed(
            adjacency,
            s2,
            q,
        ) implies path_end(links, s2.root, q) < n && s2.visited[path_end(
        links,
        s2.root,
        q,
    ) as int] by {
        lemma_pass_visits(adjacency, s, q);
    }
    assert forall|q: Seq<usize>| #[trigger] is_lasso(links, s2.marked, s2.root, q) implies !is_passed(
        adjacency,
        s2,
        q,
    ) by {
        lemma_pass_no_lasso(adjacency, s, q);
    }
}

/// Leaving the top of the stack adds to the chains passed those that run
/// along the whole stack.
pub(crate) proof fn lemma_passed_leave(adjacency: &Adjacency, s: Descent, q: Seq<usize>)
    requires
        adjacency.wf(),
        descending(adjacency, s),
        s.path.len() > 1,
    ensures
        is_passed(adjacency, after_leave(s), q) <==> is_passed(adjacency, s, q) || (q.len()
            >= s.walk.len() && q.subrange(0, s.walk.len() as int) == s.walk),
{
    lemma_descent_frame(adjacency, s);
    let s2 = after_leave(s);
    let top = s.path.len() - 1;
    assert(s.walk.subrange(0, top) =~= s.walk);
    assert forall|t: int| 0 <= t < top implies s2.walk.subrange(0, t) == s.walk.subrange(0, t) by {
        assert(s2.walk.subrange(0, t) =~= s.walk.subrange(0, t));
    }
    if is_passed(adjacency, s, q) {
        let t = choose|t: int| #[trigger] passes_at(adjacency, s, q, t);
        if t < top {
            assert(s2.path[t] == s.path[t] && s2.cursors[t] == s.cursors[t]);
            assert(passes_at(adjacency, s2, q, t));
        } else {
            assert(q.subrange(0, top - 1) =~= s.walk.subrange(0, top - 1)) by {
                assert forall|i: int| 0 <= i < top - 1 implies q[i] == s.walk[i] by {
                    assert(q.subrange(0, top)[i] == s.walk.subrange(0, top)[i]);
                }
            }
            assert(q.subrange(0, top)[top - 1] == s.walk.subrange(0, top)[top - 1]);
            assert(q[top - 1] == s.walk[top - 1]);
            assert(adjacency.outgoing[s2.path[top - 1] as int][s.cursors[top - 1] - 1] == q[top - 1]);
            assert(passes_at(adjacency, s2, q, top - 1));
        }
    }
    if q.len() >= top && q.subrange(0, top) == s.walk {
        assert(q.subrange(0, top - 1) =~= s.walk.subrange(0, top - 1)) by {
            assert forall|i: int| 0 <= i < top - 1 implies q[i] == s.walk[i] by {
                assert(q.subrange(0, top)[i] == s.walk[i]);
            }
        }
        assert(q.subrange(0, top)[top - 1] == s.walk[top - 1]);
        assert(adjacency.outgoing[s2.path[top - 1] as int][s.cursors[top - 1] - 1] == q[top - 1]);
        assert(passes_at(adjacency, s2, q, top - 1));
    }
    if is_passed(adjacency, s2, q) {
        let t = choose|t: int| #[trigger] passes_at(adjacency, s2, q, t);
        assert(s2.path[t] == s.path[t] && s2.cursors[t] == s.cursors[t]);
        if t < top - 1 || q[t] != s.walk[t] {
            assert(passes_at(adjacency, s, q, t));
        } else {
            assert(q.subrange(0, top) =~= s.walk) by {
                assert forall|i: int| 0 <= i < top implies q[i] == s.walk[i] by {
                    if i < top - 1 {
                        assert(q.subrange(0, top - 1)[i] == s.walk.subrange(0, top - 1)[i]);
                    }
                }
            }
        }
    }
}

/// A path that has been passed once the top of the stack is left ends at a
/// vertex that has been visited, if that holds of the paths passed before.
pub(crate) proof fn lemma_leave_visits(adjacency: &Adjacency, s: Descent, q: Seq<usize>)
    requires
        adjacency.wf(),
        descending(adjacency, s),
        s.path.len() > 1,
        s.cursors[s.path.len() - 1] == adjacency.outgoing[s.path[s.path.len() - 1] as int]@.len(),
        is_fresh_path(adjacency.links(), s.marked, s.root, q),
        is_passed(adjacency, after_leave(s), q),
        is_passed(adjacency, s, q) ==> path_end(adjacency.links(), s.root, q)
            < adjacency.names.len() && s.visited[path_end(adjacency.links(), s.root, q) as int],
    ensures
        path_end(adjacency.links(), s.root, q) < adjacency.names.len(),
        s.visited[path_end(adjacency.links(), s.root, q) as int],
{
    lemma_passed_leave(adjacency, s, q);
    if !is_passed(adjacency, s, q) {
        lemma_descent_frame(adjacency, s);
        let top = s.path.len() - 1;
        if q.len() == top {
            assert(q =~= s.walk);
            assert(s.walk.subrange(0, top) =~= s.walk);
            lemma_stack_path(adjacency, s, top);
        } else {
            assert(s.walk.subrange(0, top) =~= s.walk);
            lemma_leaves_stack(adjacency, s, q, top);
            let list = adjacency.outgoing[s.path[top] as int]@;
            let j = choose|j: int| 0 <= j < list.len() && list[j] == q[top];
            assert(adjacency.outgoing[s.path[top] as int][j] == q[top]);
            assert(passes_at(adjacency, s, q, top));
        }
    }
}

/// A lasso that was not passed before the top of the stack was left is not
/// passed after.
pub(crate) proof fn lemma_leave_no_lasso(adjacency: &Adjacency, s: Descent, q: Seq<usize>)
    requires
        adjacency.wf(),
        descending(adjacency, s),
        s.path.len() > 1,
        s.cursors[s.path.len() - 1] == adjacency.outgoing[s.path[s.path.len() - 1] as int]@.len(),
        is_lasso(adjacency.links(), s.marked, s.root, q),
        !is_passed(adjacency, s, q),
    ensures
        !is_passed(adjacency, after_leave(s), q),
{
    lemma_passed_leave(adjacency, s, q);
    if is_passed(adjacency, after_leave(s), q) {
        lemma_descent_frame(adjacency, s);
        let links = adjacency.links();
        let top = s.path.len() - 1;
        let u = s.path[top];
        lemma_lasso_walk(links, s.marked, s.root, q);
        if q.len() == top {
            let body = q.drop_last();
            assert(body =~= s.walk.subrange(0, top - 1));
            lemma_stack_path(adjacency, s, top - 1);
            assert(q.subrange(0, top)[top - 1] == q[top - 1]);
            assert(q[top - 1] == s.walk[top - 1]);
            assert(links[q[q.len() - 1] as int].1 == u);
            let along = s.path.subrange(0, top);
            let i = choose|i: int| 0 <= i < along.len() && along[i] == u;
            assert(s.path[i] == s.path[top]);
        } else {
            assert(s.walk.subrange(0, top) =~= s.walk);
            lemma_leaves_stack(adjacency, s, q, top);
            let list = adjacency.outgoing[u as int]@;
            let j = choose|j: int| 0 <= j < list.len() && list[j] == q[top];
            assert(adjacency.outgoing[s.path[top] as int][j] == q[top]);
            assert(passes_at(adjacency, s, q, top));
        }
    }
}

/// The vertices on the stack once its top is left are those that were on it
/// before, but for the top.
pub(crate) proof fn lemma_leave_stack(s: Descent, x: usize)
    requires
        s.path.len() > 0,
        s.path.no_duplicates(),
    ensures
        s.path.contains(x) <==> after_leave(s).path.contains(x) || x == s.path[s.path.len() - 1],
        !after_leave(s).path.contains(s.path[s.path.len() - 1]),
{
    let s2 = after_leave(s);
    let top = s.path.len() - 1;
    if s2.path.contains(x) {
        let i = choose|i: int| 0 <= i < s2.path.len() && s2.path[i] == x;
        assert(s.path[i] == x);
    }
    if s.path.contains(x) {
        let i = choose|i: int| 0 <= i < s.path.len() && s.path[i] == x;
        if i < top {
            assert(s2.path[i] == x);
        }
    }
    if s2.path.contains(s.path[top]) {
        let i = choose|i: int| 0 <= i < s2.path.len() && s2.path[i] == s.path[top];
        assert(s.path[i] == s.path[top]);
    }
}

/// Leaving the vertex on top of the stack keeps the record of the search.
pub(crate) proof fn lemma_tracing_leave(adjacency: &Adjacency, s: Descent, tree: Seq<Seq<usize>>)
    requires
        adjacency.wf(),
        descending(adjacency, s),
        tracing(adjacency, s, tree),
        s.path.len() > 0,
        s.cursors[s.path.len() - 1] == adjacency.outgoing[s.path[s.path.len() - 1] as int]@.len(),
    ensures
        tracing(adjacency, after_leave(s), tree),
{
    lemma_descent_frame(adjacency, s);
    let n = adjacency.names.len() as int;
    let links = adjacency.links();
    let s2 = after_leave(s);
    let top = s.path.len() - 1;
    let u = s.path[top];
    reveal(tracing);
    assert forall|i: int| 0 <= i < s2.path.len() implies tree[(#[trigger] s2.path[i]) as int]
        == s2.walk.subrange(0, i) by {
        assert(s2.path[i] == s.path[i]);
        assert(s2.walk.subrange(0, i) =~= s.walk.subrange(0, i));
    }
    if top > 0 {
        assert forall|v: int| 0 <= v < n && #[trigger] is_black(
            s2.marked,
            s2.visited,
            s2.path,
            v,
        ) implies is_passed(adjacency, s2, tree[v]) by {
            lemma_passed_leave(adjacency, s, tree[v]);
            lemma_leave_stack(s, v as usize);
            if v == u {
                assert(tree[s.path[top] as int] == s.walk.subrange(0, top));
                assert(s.walk.subrange(0, top) =~= s.walk);
            } else {
                assert(is_black(s.marked, s.visited, s.path, v));
            }
        }
        assert forall|q: Seq<usize>|
            #[trigger] is_fresh_path(links, s2.marked, s2.root, q) && is_passed(
                adjacency,
                s2,
                q,
            ) implies path_end(links, s2.root, q) < n && s2.visited[path_end(
            links,
            s2.root,
            q,
        ) as int] by {
            lemma_leave_visits(adjacency, s, q);
        }
        assert forall|q: Seq<usize>| #[trigger] is_lasso(links, s2.marked, s2.root, q) implies !is_passed(
            adjacency,
            s2,
            q,
        ) by {
            lemma_leave_no_lasso(adjacency, s, q);
        }
    }
}

/// The lasso that the search meets: the stack and then the next edge, which
/// leads back to a vertex on the stack.
pub(crate) open spec fn met_lasso(adjacency: &Adjacency, s: Descent) -> Seq<usize> {
    s.walk.push(next_edge(adjacency, s))
}

/// A chain that has been passed comes before the lasso that the search
/// meets.
pub(crate) proof fn lemma_passed_is_earlier(adjacency: &Adjacency, s: Descent, q: Seq<usize>)
    requires
        adjacency.wf(),
        descending(adjacency, s),
        has_next(adjacency, s),
        is_passed(adjacency, s, q),
    ensures
        lex_lt(q, met_lasso(adjacency, s)),
{
    lemma_descent_frame(adjacency, s);
    let lasso = met_lasso(adjacency, s);
    let top = s.path.len() - 1;
    let t = choose|t: int| #[trigger] passes_at(adjacency, s, q, t);
    let list = adjacency.outgoing[s.path[t] as int]@;
    let j = choose|j: int|
        0 <= j < s.cursors[t] && #[trigger] adjacency.outgoing[s.path[t] as int][j] == q[t];
    assert forall|i: int| 0 <= i < t implies q[i] == lasso[i] by {
        assert(q.subrange(0, t)[i] == s.walk.subrange(0, t)[i]);
    }
    if t < top {
        assert(lasso[t] == s.walk[t]);
        assert(list[j] < list[s.cursors[t] - 1]);
    } else {
        assert(list[j] < list[s.cursors[t] as int]);
    }
    assert(q[t] < lasso[t]);
}

/// A path that comes before the lasso which the search meets has been
/// passed.
pub(crate) proof fn lemma_earlier_is_passed(adjacency: &Adjacency, s: Descent, q: Seq<usize>)
    requires
        adjacency.wf(),
        descending(adjacency, s),
        has_next(adjacency, s),
        is_walk(adjacency.links(), s.root, path_end(adjacency.links(), s.root, q), q),
        lex_lt(q, met_lasso(adjacency, s)),
    ensures
        is_passed(adjacency, s, q),
{
    lemma_descent_frame(adjacency, s);
    let lasso = met_lasso(adjacency, s);
    let top = s.path.len() - 1;
    let t = choose|t: int|
        0 <= t < q.len() && t < lasso.len() && (forall|i: int| 0 <= i < t ==> q[i] == lasso[i])
            && #[trigger] q[t] < lasso[t];
    assert(q.subrange(0, t) =~= s.walk.subrange(0, t)) by {
        assert forall|i: int| 0 <= i < t implies q[i] == s.walk[i] by {
            assert(lasso[i] == s.walk[i]);
        }
    }
    lemma_leaves_stack(adjacency, s, q, t);
    let list = adjacency.outgoing[s.path[t] as int]@;
    let j = choose|j: int| 0 <= j < list.len() && list[j] == q[t];
    let at = if t < top {
        s.cursors[t] - 1
    } else {
        s.cursors[t] as int
    };
    assert(list[at] == lasso[t]);
    if j >= at {
        if j > at {
            assert(list[at] < list[j]);
        }
    }
    assert(adjacency.outgoing[s.path[t] as int][j] == q[t]);
    assert(passes_at(adjacency, s, q, t));
}

/// A lasso that has not been passed is the one that the search meets, or
/// comes after it. `t` counts the edges in which the two are known to agree.
pub(crate) proof fn lemma_lasso_is_later(adjacency: &Adjacency, s: Descent, other: Seq<usize>, t: int)
    requires
        adjacency.wf(),
        descending(adjacency, s),
        has_next(adjacency, s),
        s.path.contains(next_vertex(adjacency, s)),
        is_lasso(adjacency.links(), s.marked, s.root, other),
        !is_passed(adjacency, s, other),
        0 <= t <= other.len(),
        t <= s.path.len(),
        forall|i: int| 0 <= i < t ==> other[i] == met_lasso(adjacency, s)[i],
    ensures
        other == met_lasso(adjacency, s) || lex_lt(met_lasso(adjacency, s), other),
    decreases s.path.len() - t,
{
    lemma_descent_frame(adjacency, s);
    let links = adjacency.links();
    let lasso = met_lasso(adjacency, s);
    let top = s.path.len() - 1;
    let e = next_edge(adjacency, s);
    let w = next_vertex(adjacency, s);
    let body = other.drop_last();
    assert(links[e as int] == (s.path[top], w));
    if t == other.len() {
        if t == top + 1 {
            assert(other =~= lasso);
        } else {
            // the lasso would close within the stack
            assert(body =~= s.walk.subrange(0, t - 1));
            lemma_stack_path(adjacency, s, t - 1);
            assert(other[t - 1] == s.walk[t - 1]);
            let x = links[other[t - 1] as int].1;
            assert(x == s.path[t]);
            let along = s.path.subrange(0, t);
            let i = choose|i: int| 0 <= i < along.len() && along[i] == x;
            assert(s.path[i] == s.path[t]);
        }
    } else if t == top + 1 {
        // the path of the lasso would pass the vertex where the stack closes twice
        assert(body.len() > top);
        assert(body[top] == e);
        let p = choose|p: int| 0 <= p < s.path.len() && s.path[p] == w;
        let along = trail(links, s.root, body);
        assert(along[top + 1] == w);
        if p > 0 {
            assert(body[p - 1] == s.walk[p - 1]);
            assert(links[s.walk[p - 1] as int] == (s.path[p - 1], s.path[p]));
        }
        assert(along[p] == w);
    } else if other[t] == lasso[t] {
        lemma_lasso_is_later(adjacency, s, other, t + 1);
    } else {
        lemma_lasso_walk(links, s.marked, s.root, other);
        assert(other.subrange(0, t) =~= s.walk.subrange(0, t)) by {
            assert forall|i: int| 0 <= i < t implies other[i] == s.walk[i] by {
                assert(lasso[i] == s.walk[i]);
            }
        }
        lemma_leaves_stack(adjacency, s, other, t);
        let list = adjacency.outgoing[s.path[t] as int]@;
        let j = choose|j: int| 0 <= j < list.len() && list[j] == other[t];
        let at = if t < top {
            s.cursors[t] - 1
        } else {
            s.cursors[t] as int
        };
        assert(list[at] == lasso[t]);
        if j < at {
            assert(adjacency.outgoing[s.path[t] as int][j] == other[t]);
            assert(passes_at(adjacency, s, other, t));
        }
        assert(list[at] < list[j]);
        assert(lasso[t] < other[t]);
    }
}

/// Where the next edge leads back to a vertex on the stack, the stack and
/// that edge are the first lasso, and the search has visited what it entered
/// before it met the lasso.
pub(crate) proof fn lemma_tracing_found(adjacency: &Adjacency, s: Descent, tree: Seq<Seq<usize>>)
    requires
        adjacency.wf(),
        descending(adjacency, s),
        tracing(adjacency, s, tree),
        has_next(adjacency, s),
        s.path.contains(next_vertex(adjacency, s)),
    ensures
        is_first_lasso(adjacency.links(), s.marked, s.root, met_lasso(adjacency, s)),
        met_lasso(adjacency, s).drop_last() == s.walk,
        forall|v: int|
            0 <= v < adjacency.names.len() ==> (#[trigger] s.visited[v] <==> s.marked[v]
                || is_searched_before(
                adjacency.links(),
                s.marked,
                s.root,
                met_lasso(adjacency, s),
                v as usize,
            )),
{
    lemma_descent_frame(adjacency, s);
    let n = adjacency.names.len() as int;
    let links = adjacency.links();
    let lasso = met_lasso(adjacency, s);
    let top = s.path.len() - 1;
    let e = next_edge(adjacency, s);
    let w = next_vertex(adjacency, s);
    assert(links[e as int] == (s.path[top], w));
    assert(lasso.drop_last() =~= s.walk);
    lemma_stack_path(adjacency, s, top);
    assert(s.walk.subrange(0, top) =~= s.walk);
    assert(s.path.subrange(0, top + 1) =~= s.path);
    assert(is_lasso(links, s.marked, s.root, lasso));
    reveal(tracing);
    assert forall|other: Seq<usize>| #[trigger]
        is_lasso(links, s.marked, s.root, other) implies other == lasso || lex_lt(lasso, other) by {
        lemma_lasso_is_later(adjacency, s, other, 0);
    }
    assert forall|v: int| 0 <= v < n implies (#[trigger] s.visited[v] <==> s.marked[v]
        || is_searched_before(links, s.marked, s.root, lasso, v as usize)) by {
        let target = v as usize;
        if s.visited[v] && !s.marked[v] {
            let q = tree[v];
            if s.path.contains(target) {
                let i = choose|i: int| 0 <= i < s.path.len() && s.path[i] == target;
                assert(tree[s.path[i] as int] == s.walk.subrange(0, i));
                assert(q.is_prefix_of(s.walk));
            } else {
                assert(is_black(s.marked, s.visited, s.path, v));
                lemma_passed_is_earlier(adjacency, s, q);
            }
            assert(is_fresh_path(links, s.marked, s.root, q) && path_end(links, s.root, q) == target
                && (lex_lt(q, lasso) || q.is_prefix_of(lasso.drop_last())));
        }
        if is_searched_before(links, s.marked, s.root, lasso, target) {
            let q = choose|q: Seq<usize>|
                #[trigger] is_fresh_path(links, s.marked, s.root, q) && path_end(links, s.root, q)
                    == target && (lex_lt(q, lasso) || q.is_prefix_of(lasso.drop_last()));
            if lex_lt(q, lasso) {
                lemma_earlier_is_passed(adjacency, s, q);
            } else {
                assert(q =~= s.walk.subrange(0, q.len() as int));
                lemma_stack_path(adjacency, s, q.len() as int);
            }
        }
    }
}

/// The state of a search with the record of what it has been through.
#[verifier::opaque]
pub(crate) open spec fn holds(adjacency: &Adjacency, s: Descent, tree: Seq<Seq<usize>>) -> bool {
    descending(adjacency, s) && tracing(adjacency, s, tree)
}

pub(crate) proof fn lemma_holds_start(adjacency: &Adjacency, marked: Seq<bool>, flags: Seq<bool>, root: usize)
    requires
        adjacency.wf(),
        marked.len() == adjacency.names.len(),
        flags.len() == adjacency.names.len(),
        root < adjacency.names.len(),
        !marked[root as int],
    ensures
        holds(
            adjacency,
            at_start(marked, flags, root),
            Seq::new(adjacency.names.len() as nat, |v: int| Seq::<usize>::empty()),
        ),
{
    reveal(holds);
    lemma_descending_start(adjacency, marked, flags, root);
    lemma_tracing_start(
        adjacency,
        at_start(marked, flags, root),
        Seq::new(adjacency.names.len() as nat, |v: int| Seq::<usize>::empty()),
    );
}

/// The sizes of the parts of the state.
pub(crate) proof fn lemma_holds_bounds(adjacency: &Adjacency, s: Descent, tree: Seq<Seq<usize>>)
    requires
        adjacency.wf(),
        holds(adjacency, s, tree),
    ensures
        s.marked.len() == adjacency.names.len(),
        s.visited.len() == adjacency.names.len(),
        s.rec_stack.len() == adjacency.names.len(),
        s.cursors.len() == s.path.len(),
        s.entered.len() <= adjacency.names.len(),
        s.examined.len() <= adjacency.sources.len(),
        forall|i: int|
            0 <= i < s.path.len() ==> (#[trigger] s.path[i]) < adjacency.names.len() && s.cursors[i]
                <= adjacency.outgoing[s.path[i] as int]@.len(),
{
    reveal(holds);
    lemma_descending_bounds(adjacency, s);
    reveal(descending);
}

/// What the state says of the marks: what was marked is visited, what the
/// search has visited can be reached from its root, and the second set of
/// marks tells what is on the stack.
pub(crate) proof fn lemma_holds_marks(adjacency: &Adjacency, s: Descent, tree: Seq<Seq<usize>>)
    requires
        adjacency.wf(),
        holds(adjacency, s, tree),
    ensures
        forall|v: int| 0 <= v < adjacency.names.len() && s.marked[v] ==> #[trigger] s.visited[v],
        forall|v: int|
            0 <= v < adjacency.names.len() && #[trigger] s.visited[v] && !s.marked[v]
                ==> fresh_reachable(adjacency.links(), s.marked, s.root, v as usize),
        forall|v: int|
            0 <= v < adjacency.names.len() ==> #[trigger] s.rec_stack[v] == (if s.visited[v]
                && !s.marked[v] {
                s.path.contains(v as usize)
            } else {
                s.flags[v]
            }),
        s.path.no_duplicates(),
        forall|i: int|
            0 <= i < s.path.len() ==> {
                &&& (#[trigger] s.path[i]) < adjacency.names.len()
                &&& !s.marked[s.path[i] as int]
                &&& s.visited[s.path[i] as int]
            },
{
    reveal(holds);
    reveal(descending);
}

pub(crate) proof fn lemma_holds_enter(adjacency: &Adjacency, s: Descent, tree: Seq<Seq<usize>>)
    requires
        adjacency.wf(),
        holds(adjacency, s, tree),
        has_next(adjacency, s),
        !s.visited[next_vertex(adjacency, s) as int],
    ensures
        holds(
            adjacency,
            after_enter(adjacency, s),
            tree.update(
                next_vertex(adjacency, s) as int,
                s.walk.push(next_edge(adjacency, s)),
            ),
        ),
{
    reveal(holds);
    lemma_descending_enter(adjacency, s);
    lemma_tracing_enter(adjacency, s, tree);
}

pub(crate) proof fn lemma_holds_pass(adjacency: &Adjacency, s: Descent, tree: Seq<Seq<usize>>)
    requires
        adjacency.wf(),
        holds(adjacency, s, tree),
        has_next(adjacency, s),
        s.visited[next_vertex(adjacency, s) as int],
        !s.rec_stack[next_vertex(adjacency, s) as int] || !s.path.contains(next_vertex(adjacency, s)),
    ensures
        holds(adjacency, after_pass(adjacency, s), tree),
{
    reveal(holds);
    lemma_descent_frame(adjacency, s);
    let w = next_vertex(adjacency, s);
    assert(w < adjacency.names.len());
    if !s.rec_stack[w as int] {
        lemma_descending_off_stack(adjacency, s, w,
        );
    }
    lemma_descending_pass(adjacency, s);
    lemma_tracing_pass(adjacency, s, tree);
}

pub(crate) proof fn lemma_holds_leave(adjacency: &Adjacency, s: Descent, tree: Seq<Seq<usize>>)
    requires
        adjacency.wf(),
        holds(adjacency, s, tree),
        s.path.len() > 0,
        s.cursors[s.path.len() - 1] == adjacency.outgoing[s.path[s.path.len() - 1] as int]@.len(),
    ensures
        holds(adjacency, after_leave(s), tree),
{
    reveal(holds);
    lemma_descending_leave(adjacency, s);
    lemma_tracing_leave(adjacency, s, tree);
}

/// What a search has found when the next edge leads to the vertex at `p` on
/// the stack.
pub(crate) proof fn lemma_holds_found(adjacency: &Adjacency, s: Descent, tree: Seq<Seq<usize>>, p: int)
    requires
        adjacency.wf(),
        holds(adjacency, s, tree),
        has_next(adjacency, s),
        0 <= p < s.path.len(),
        s.path[p] == next_vertex(adjacency, s),
    ensures
        fresh_cycle_from(adjacency.links(), s.marked, s.root),
        is_cycle_through(adjacency.links(), s.path.subrange(p, s.path.len() as int)),
        finds(
            adjacency.links(),
            s.marked,
            s.root,
            met_lasso(adjacency, s),
            s.visited,
            s.path,
            s.path.subrange(p, s.path.len() as int),
        ),
{
    reveal(holds);
    lemma_descent_frame(adjacency, s);
    lemma_descending_cycle(adjacency, s, p,
    );
    lemma_tracing_found(adjacency, s, tree);
    let lasso = met_lasso(adjacency, s);
    assert(lasso[lasso.len() - 1] == next_edge(adjacency, s));
}

/// What holds once the stack is empty.
pub(crate) proof fn lemma_holds_end(adjacency: &Adjacency, s: Descent, tree: Seq<Seq<usize>>)
    requires
        adjacency.wf(),
        holds(adjacency, s, tree),
        s.path.len() == 0,
    ensures
        !fresh_cycle_from(adjacency.links(), s.marked, s.root),
        forall|v: int|
            0 <= v < adjacency.names.len() && fresh_reachable(
                adjacency.links(),
                s.marked,
                s.root,
                v as usize,
            ) ==> #[trigger] s.visited[v],
{
    reveal(holds);
    assert(s.path =~= Seq::<usize>::empty());
    lemma_descending_end(adjacency, s);
}

} // verus!
