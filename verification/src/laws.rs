//! Laws that relate the results of the analyses to the graph and to each
//! other.

use vstd::prelude::*;
use crate::model::{
    cycle_names,
    views,
    CycleDetectionResult,
    Graph,
    PathResult,
    TopologicalSortResult,
};
use crate::sequences::{first_occurrences, lemma_first_occurrences_set, lemma_pigeonhole};
use crate::walks::{
    comes_before,
    cycle_reachable_from,
    has_incoming,
    is_acyclic,
    is_chain,
    is_cycle,
    is_dependency_order,
    is_queue_order,
    is_released_by,
    is_walk,
    lemma_chain_push,
    lemma_chain_subrange,
    lemma_lex_trans,
    lex_lt,
    reachable,
};

verus! {

/// A chain of `length` edges that ends at `v`, a vertex that a dependency
/// order leaves out, and starts each edge at a declared vertex.
proof fn lemma_chain_of_left_out<V>(
    links: Seq<(V, V)>,
    declared: Seq<V>,
    sorted: Seq<V>,
    v: V,
    length: nat,
) -> (steps: Seq<usize>)
    requires
        links.len() <= usize::MAX,
        is_dependency_order(links, declared, sorted),
        forall|e: int| 0 <= e < links.len() ==> declared.contains((#[trigger] links[e]).0),
        declared.contains(v),
        !sorted.contains(v),
    ensures
        steps.len() == length,
        is_chain(links, steps),
        length > 0 ==> links[steps[length - 1] as int].1 == v,
        forall|i: int| 0 <= i < length ==> declared.contains(links[(#[trigger] steps[i]) as int].0),
    decreases length,
{
    if length == 0 {
        Seq::empty()
    } else {
        let e = choose|e: int|
            0 <= e < links.len() && (#[trigger] links[e]).1 == v && !sorted.contains(links[e].0);
        let earlier = lemma_chain_of_left_out(links, declared, sorted, links[e].0, (length - 1) as nat);
        lemma_chain_push(links, earlier, e as usize);
        let steps = earlier.push(e as usize);
        assert forall|i: int| 0 <= i < length implies declared.contains(
            links[(#[trigger] steps[i]) as int].0,
        ) by {
            if i < length - 1 {
                assert(steps[i] == earlier[i]);
            }
        }
        steps
    }
}

/// In a graph without a cycle whose edges all start at declared vertices, a
/// dependency order leaves no declared vertex out.
pub proof fn lemma_acyclic_order_is_complete<V>(links: Seq<(V, V)>, declared: Seq<V>, sorted: Seq<V>)
    requires
        links.len() <= usize::MAX,
        is_dependency_order(links, declared, sorted),
        is_acyclic(links),
        forall|e: int| 0 <= e < links.len() ==> declared.contains((#[trigger] links[e]).0),
    ensures
        forall|i: int| 0 <= i < declared.len() ==> sorted.contains(#[trigger] declared[i]),
{
    assert forall|i: int| 0 <= i < declared.len() implies sorted.contains(
        #[trigger] declared[i],
    ) by {
        let v = declared[i];
        if !sorted.contains(v) {
            let length = declared.len() + 1;
            let steps = lemma_chain_of_left_out(links, declared, sorted, v, length);
            let sources = Seq::new(length, |k: int| links[steps[k] as int].0);
            declared.lemma_cardinality_of_set();
            assert forall|k: int| 0 <= k < sources.len() implies declared.to_set().contains(
                #[trigger] sources[k],
            ) by {
                assert(declared.contains(links[steps[k] as int].0));
            }
            lemma_pigeonhole(sources, declared.to_set());
            let (a, b) = choose|a: int, b: int| 0 <= a < b < sources.len() && sources[a] == sources[b];
            let cycle = steps.subrange(a, b);
            lemma_chain_subrange(links, steps, a, b);
            assert(cycle[0] == steps[a]);
            assert(cycle[cycle.len() - 1] == steps[b - 1]);
            assert(links[steps[b - 1] as int].1 == links[steps[b] as int].0);
            assert(is_cycle(links, cycle));
        }
    }
}

/// Two dependency orders of one graph hold the same vertices.
pub proof fn lemma_orders_agree<V>(links: Seq<(V, V)>, declared: Seq<V>, first: Seq<V>, second: Seq<V>)
    requires
        is_dependency_order(links, declared, first),
        is_dependency_order(links, declared, second),
    ensures
        forall|v: V| first.contains(v) <==> second.contains(v),
        first.len() == second.len(),
{
    lemma_order_within(links, declared, first, second, first.len() as int);
    lemma_order_within(links, declared, second, first, second.len() as int);
    assert forall|v: V| first.contains(v) <==> second.contains(v) by {
        if first.contains(v) {
            let i = choose|i: int| 0 <= i < first.len() && first[i] == v;
            assert(second.contains(first[i]));
        }
        if second.contains(v) {
            let i = choose|i: int| 0 <= i < second.len() && second[i] == v;
            assert(first.contains(second[i]));
        }
    }
    first.unique_seq_to_set();
    second.unique_seq_to_set();
    assert(first.to_set() =~= second.to_set());
}

/// The first `upto` vertices of one dependency order occur in any other.
proof fn lemma_order_within<V>(
    links: Seq<(V, V)>,
    declared: Seq<V>,
    first: Seq<V>,
    second: Seq<V>,
    upto: int,
)
    requires
        is_dependency_order(links, declared, first),
        is_dependency_order(links, declared, second),
        0 <= upto <= first.len(),
    ensures
        forall|i: int| 0 <= i < upto ==> second.contains(#[trigger] first[i]),
    decreases upto,
{
    if upto > 0 {
        lemma_order_within(links, declared, first, second, upto - 1);
        let v = first[upto - 1];
        if !second.contains(v) {
            let e = choose|e: int|
                0 <= e < links.len() && (#[trigger] links[e]).1 == v && !second.contains(
                    links[e].0,
                );
            assert(links[e].1 == first[upto - 1]);
            let j = choose|j: int| 0 <= j < upto - 1 && first[j] == links[e].0;
            assert(second.contains(first[j]));
        }
    }
}

/// Among the first `upto` edges one that leads to `sorted[j]` releases it,
/// if any of them leads to it.
proof fn lemma_last_edge<V>(links: Seq<(V, V)>, declared: Seq<V>, sorted: Seq<V>, j: int, upto: int) -> (found:
    Option<(int, int)>)
    requires
        is_dependency_order(links, declared, sorted),
        0 <= j < sorted.len(),
        0 <= upto <= links.len(),
    ensures
        match found {
            Some((i, e)) => {
                &&& 0 <= i < sorted.len()
                &&& 0 <= e < upto
                &&& links[e] == (sorted[i], sorted[j])
                &&& forall|e2: int, i2: int|
                    0 <= e2 < upto && 0 <= i2 < sorted.len() && #[trigger] links[e2] == (
                        #[trigger] sorted[i2],
                        sorted[j],
                    ) ==> i2 < i || (i2 == i && e2 <= e)
            },
            None => forall|e2: int| 0 <= e2 < upto ==> (#[trigger] links[e2]).1 != sorted[j],
        },
    decreases upto,
{
    if upto == 0 {
        None
    } else {
        let earlier = lemma_last_edge(links, declared, sorted, j, upto - 1);
        let e = upto - 1;
        if links[e].1 == sorted[j] {
            let i = choose|i: int| 0 <= i < j && sorted[i] == links[e].0;
            match earlier {
                Some((i0, e0)) => {
                    if i0 <= i {
                        Some((i, e))
                    } else {
                        Some((i0, e0))
                    }
                },
                None => Some((i, e)),
            }
        } else {
            earlier
        }
    }
}

/// Where the two orders agree before position `j` and a vertex stands at
/// `j` in one of them, the edge that released it there releases it in the
/// other too, wherever it stands in that.
proof fn lemma_release_carries_over<V>(
    links: Seq<(V, V)>,
    declared: Seq<V>,
    first: Seq<V>,
    second: Seq<V>,
    j: int,
    at: int,
    i: int,
    e: int,
)
    requires
        is_dependency_order(links, declared, first),
        is_dependency_order(links, declared, second),
        0 <= j < first.len(),
        j <= second.len(),
        forall|p: int| 0 <= p < j ==> first[p] == second[p],
        0 <= at < second.len(),
        second[at] == first[j],
        is_released_by(links, first, j, i, e),
    ensures
        is_released_by(links, second, at, i, e),
{
    let before = choose|before: int| 0 <= before < j && first[before] == links[e].0;
    assert(before == i);
    assert forall|e2: int, i2: int|
        0 <= e2 < links.len() && 0 <= i2 < second.len() && #[trigger] links[e2] == (
            #[trigger] second[i2],
            second[at],
        ) implies i2 < i || (i2 == i && e2 <= e) by {
        assert(links[e2].1 == first[j]);
        let p = choose|p: int| 0 <= p < j && first[p] == links[e2].0;
        assert(second[p] == second[i2]);
        assert(links[e2] == (first[p], first[j]));
    }
}

/// Two dependency orders of one graph that are both in the order of a queue
/// agree in their first `upto` places.
proof fn lemma_queue_orders_agree<V>(
    links: Seq<(V, V)>,
    declared: Seq<V>,
    firsts: Seq<V>,
    first: Seq<V>,
    second: Seq<V>,
    upto: int,
)
    requires
        firsts.no_duplicates(),
        is_dependency_order(links, declared, first),
        is_dependency_order(links, declared, second),
        is_queue_order(links, firsts, first),
        is_queue_order(links, firsts, second),
        0 <= upto <= first.len(),
        first.len() == second.len(),
        forall|v: V| first.contains(v) <==> second.contains(v),
    ensures
        forall|p: int| 0 <= p < upto ==> first[p] == second[p],
    decreases upto,
{
    if upto > 0 {
        lemma_queue_orders_agree(links, declared, firsts, first, second, upto - 1);
        let j = upto - 1;
        let x = first[j];
        let y = second[j];
        if x != y {
            assert(second.contains(x));
            let px = choose|p: int| 0 <= p < second.len() && second[p] == x;
            if px < j {
                assert(first[px] == first[j]);
            }
            assert(first.contains(y));
            let py = choose|p: int| 0 <= p < first.len() && first[p] == y;
            if py < j {
                assert(second[py] == second[j]);
            }
            assert(j < px && j < py);
            if !has_incoming(links, y) {
                assert(!has_incoming(links, first[py]));
                assert(comes_before(firsts, first[j], first[py]));
                assert(!has_incoming(links, first[j]));
                assert(!has_incoming(links, second[px]));
                assert(comes_before(firsts, second[j], second[px]));
                let (x_first, y_after) = choose|p: int, q: int|
                    0 <= p < q < firsts.len() && #[trigger] firsts[p] == x && #[trigger] firsts[q]
                        == y;
                let (y_first, x_after) = choose|p: int, q: int|
                    0 <= p < q < firsts.len() && #[trigger] firsts[p] == y && #[trigger] firsts[q]
                        == x;
                assert(x_first == x_after && y_after == y_first);
            } else if !has_incoming(links, x) {
                assert(!has_incoming(links, second[px]));
                assert(!has_incoming(links, second[j]));
            } else {
                let found_x = lemma_last_edge(links, declared, first, j, links.len() as int);
                let found_y = lemma_last_edge(links, declared, second, j, links.len() as int);
                let ex0 = choose|e: int| 0 <= e < links.len() && (#[trigger] links[e]).1 == x;
                let ey0 = choose|e: int| 0 <= e < links.len() && (#[trigger] links[e]).1 == y;
                assert(links[ex0].1 == first[j]);
                assert(links[ey0].1 == second[j]);
                let (ix, ex) = found_x->0;
                let (iy, ey) = found_y->0;
                assert(is_released_by(links, first, j, ix, ex));
                assert(is_released_by(links, second, j, iy, ey));
                lemma_release_carries_over(links, declared, first, second, j, px, ix, ex);
                assert forall|p: int| 0 <= p < j implies second[p] == first[p] by {}
                lemma_release_carries_over(links, declared, second, first, j, py, iy, ey);
                // in `first`, x stands before y; in `second`, y before x
                assert(ix < iy || (ix == iy && ex < ey));
                assert(iy < ix || (iy == ix && ey < ex));
            }
        }
    }
}

/// A graph has one dependency order in the order of a queue.
pub proof fn lemma_queue_order_is_unique<V>(
    links: Seq<(V, V)>,
    declared: Seq<V>,
    firsts: Seq<V>,
    first: Seq<V>,
    second: Seq<V>,
)
    requires
        firsts.no_duplicates(),
        is_dependency_order(links, declared, first),
        is_dependency_order(links, declared, second),
        is_queue_order(links, firsts, first),
        is_queue_order(links, firsts, second),
    ensures
        first == second,
{
    lemma_orders_agree(links, declared, first, second);
    lemma_queue_orders_agree(links, declared, firsts, first, second, first.len() as int);
    assert(first =~= second);
}

/// A graph without a cycle is ordered in full. Where every node is declared
/// once and every edge runs between declared nodes, the order holds each
/// node exactly once, the cycle flag is not set, and the source of every
/// edge stands before its target.
pub proof fn lemma_acyclic_graph_is_ordered<W>(graph: &Graph<W>, result: &TopologicalSortResult)
    requires
        graph.labels_distinct(),
        graph.endpoints_declared(),
        is_acyclic(graph.links()),
        result.orders(graph),
    ensures
        !result.has_cycle,
        result.sorted.len() == graph.nodes.len(),
        views(result.sorted@).no_duplicates(),
        forall|x: Seq<char>| views(result.sorted@).contains(x) <==> graph.labels().contains(x),
        forall|e: int, i: int, j: int|
            0 <= e < graph.edges.len() && 0 <= i < result.sorted.len() && 0 <= j
                < result.sorted.len() && (#[trigger] result.sorted[i])@
                == (#[trigger] graph.edges[e]).from@ && (#[trigger] result.sorted[j])@
                == graph.edges[e].to@ ==> i < j,
{
    let links = graph.links();
    let labels = graph.labels();
    let sorted = views(result.sorted@);
    assert forall|e: int| 0 <= e < links.len() implies labels.contains((#[trigger] links[e]).0) by {}
    lemma_acyclic_order_is_complete(links, labels, sorted);
    assert forall|x: Seq<char>| sorted.contains(x) <==> labels.contains(x) by {
        if sorted.contains(x) {
            let i = choose|i: int| 0 <= i < sorted.len() && sorted[i] == x;
            if !labels.contains(sorted[i]) {
                let e = choose|e: int| 0 <= e < links.len() && (#[trigger] links[e]).1 == x;
                assert(labels.contains(links[e].1));
            }
        }
        if labels.contains(x) {
            let i = choose|i: int| 0 <= i < labels.len() && labels[i] == x;
            assert(sorted.contains(labels[i]));
        }
    }
    sorted.unique_seq_to_set();
    labels.unique_seq_to_set();
    assert(sorted.to_set() =~= labels.to_set());
    assert forall|e: int, i: int, j: int|
        0 <= e < graph.edges.len() && 0 <= i < result.sorted.len() && 0 <= j < result.sorted.len()
            && (#[trigger] result.sorted[i])@ == (#[trigger] graph.edges[e]).from@ && (
        #[trigger] result.sorted[j])@ == graph.edges[e].to@ implies i < j by {
        assert(links[e].1 == sorted[j]);
        let before = choose|before: int| 0 <= before < j && sorted[before] == links[e].0;
        assert(sorted[i] == sorted[before]);
    }
}

/// The cycle flag is exact. For a graph whose edges all run between declared
/// nodes, the flag is set if and only if the graph has a cycle, and the list
/// of cycles is empty if and only if the flag is not set.
pub proof fn lemma_cycle_flag_is_exact<W>(graph: &Graph<W>, result: &CycleDetectionResult)
    requires
        graph.endpoints_declared(),
        result.detects(graph),
    ensures
        result.has_cycle <==> !is_acyclic(graph.links()),
        result.cycles.len() == 0 <==> !result.has_cycle,
{
    let links = graph.links();
    let labels = graph.labels();
    if result.has_cycle {
        let i = choose|i: int|
            0 <= i < graph.nodes.len() && cycle_reachable_from(links, #[trigger] labels[i]);
        let c = choose|c: Seq<usize>|
            #[trigger] is_cycle(links, c) && reachable(links, labels[i], links[c[0] as int].0);
        assert(!is_acyclic(links));
    }
    if !is_acyclic(links) {
        let c = choose|c: Seq<usize>| is_cycle(links, c);
        let start = links[c[0] as int].0;
        assert(labels.contains(start));
        let i = choose|i: int| 0 <= i < labels.len() && labels[i] == start;
        assert(is_walk(links, labels[i], start, Seq::empty()));
        assert(cycle_reachable_from(links, labels[i]));
    }
}

/// A node is a path to itself: the path is the node alone, and takes no
/// edge.
pub proof fn lemma_path_to_self<W>(graph: &Graph<W>, node: Seq<char>, result: &PathResult)
    requires
        result.answers(graph, node, node),
    ensures
        result.exists,
        result.hops@.len() == 0,
        result.path.len() == 1,
        result.path[0]@ == node,
{
    let links = graph.links();
    assert(is_walk(links, node, node, Seq::empty()));
    assert(views(result.path@).len() == 1);
    assert(views(result.path@)[0] == node);
}

/// Where the target can be reached, the path leads from the source to the
/// target, passes one node more than it takes edges, and takes no more edges
/// than any walk between the two.
pub proof fn lemma_path_is_shortest<W>(
    graph: &Graph<W>,
    from: Seq<char>,
    to: Seq<char>,
    result: &PathResult,
    other: Seq<usize>,
)
    requires
        result.answers(graph, from, to),
        is_walk(graph.links(), from, to, other),
    ensures
        result.exists,
        result.path.len() == result.hops.len() + 1,
        result.path[0]@ == from,
        result.path[result.path.len() - 1]@ == to,
        result.path.len() - 1 <= other.len(),
{
    let links = graph.links();
    let path = views(result.path@);
    assert(path[0] == from);
    assert(path[path.len() - 1] == to);
}

/// Where the target cannot be reached, the result is empty.
pub proof fn lemma_no_path<W>(graph: &Graph<W>, from: Seq<char>, to: Seq<char>, result: &PathResult)
    requires
        result.answers(graph, from, to),
        !reachable(graph.links(), from, to),
    ensures
        !result.exists,
        result.path@.len() == 0,
        result.hops@.len() == 0,
{
}

/// An ordering depends on the graph alone: its cycle flag, and the order
/// itself.
pub proof fn lemma_order_flag_is_determined<W>(
    graph: &Graph<W>,
    first: &TopologicalSortResult,
    second: &TopologicalSortResult,
)
    requires
        first.orders(graph),
        second.orders(graph),
    ensures
        first.has_cycle == second.has_cycle,
        views(first.sorted@) == views(second.sorted@),
{
    lemma_first_occurrences_set(graph.labels());
    lemma_queue_order_is_unique(
        graph.links(),
        graph.labels(),
        first_occurrences(graph.labels()),
        views(first.sorted@),
        views(second.sorted@),
    );
}

/// A search for cycles depends on the graph alone: its flag, and the cycles
/// that it lists.
pub proof fn lemma_cycle_flag_is_determined<W>(
    graph: &Graph<W>,
    first: &CycleDetectionResult,
    second: &CycleDetectionResult,
)
    requires
        first.detects(graph),
        second.detects(graph),
    ensures
        first.has_cycle == second.has_cycle,
        cycle_names(first.cycles@) == cycle_names(second.cycles@),
{
}

/// A path depends on the graph and the two nodes alone: whether it exists,
/// the edges it takes and the nodes it passes.
pub proof fn lemma_path_flag_is_determined<W>(
    graph: &Graph<W>,
    from: Seq<char>,
    to: Seq<char>,
    first: &PathResult,
    second: &PathResult,
)
    requires
        first.answers(graph, from, to),
        second.answers(graph, from, to),
    ensures
        first.exists == second.exists,
        first.hops@ == second.hops@,
        views(first.path@) == views(second.path@),
{
    if first.exists {
        if first.hops@ != second.hops@ {
            lemma_lex_trans(first.hops@, second.hops@, first.hops@);
            assert(!lex_lt(first.hops@, first.hops@));
        }
    } else {
        assert(first.hops@ =~= second.hops@);
        assert(views(first.path@) =~= views(second.path@));
    }
}

} // verus!
