//! What the search for one route keeps true of the nodes that it has
//! visited, and why the first route to reach a node is a cheapest one.

use vstd::prelude::*;
use vstd::multiset::Multiset;
use crate::expand::{all_extended, kept, only_extended};
use crate::frontier::is_least;
use crate::graph::Graph;
use crate::node::{nodes_are_keys, nodes_are_values, Node};
use crate::path::PathView;
use crate::routes::{bounded, priced};

verus! {

/// Nodes are compared as values and can be kept in a hash set: the set of
/// visited nodes holds what was put into it.
pub(crate) open spec fn can_prune<N: Node>() -> bool {
    nodes_are_values::<N>() && nodes_are_keys::<N>()
}

/// Until the start has been visited, the frontier holds the route of the
/// start alone, and nothing else.
pub(crate) open spec fn seeded<N: Node>(
    routes: Multiset<PathView<N>>,
    visited: Set<N>,
    start: N,
) -> bool {
    !visited.contains(start) ==> routes.len() == 1 && forall|q: PathView<N>| #[trigger]
        routes.contains(q) ==> q.nodes == seq![start]
}

/// For every move out of the visited nodes, the frontier holds a route that
/// ends with it and that costs what the first route to the visited node did,
/// and the move.
pub(crate) open spec fn fenced<N: Node>(
    g: Graph<N>,
    routes: Multiset<PathView<N>>,
    visited: Set<N>,
    best: Map<N, N::Cost>,
) -> bool {
    forall|v: N, m: N|
        visited.contains(v) && #[trigger] g.edge(v, m) && !visited.contains(m) ==> exists|
            q: PathView<N>,
        | #[trigger]
            routes.contains(q) && q.last() == m && q.cost == (g.sum)(
                best[v],
                (g.step_cost)(v, m),
            )
}

/// No walk from the start to a visited node whose estimated total is finite
/// costs less than the first route to the node did.
pub(crate) open spec fn settled<N: Node>(
    g: Graph<N>,
    start: N,
    goal: N,
    visited: Set<N>,
    best: Map<N, N::Cost>,
) -> bool {
    forall|v: N, w: Seq<N>|
        visited.contains(v) && #[trigger] g.connects(w, start, v) && (g.finite)(
            g.walk_estimate(w, goal),
        ) ==> g.le(best[v], g.walk_cost(w))
}

/// What [`solve`] keeps true of its state, in the graph `g`.
pub(crate) open spec fn exploring<N: Node>(
    g: Graph<N>,
    start: N,
    goal: N,
    routes: Multiset<PathView<N>>,
    visited: Set<N>,
    best: Map<N, N::Cost>,
) -> bool {
    &&& priced(g, routes)
    &&& fenced(g, routes, visited, best)
    &&& g.prunable(goal) ==> settled(g, start, goal, visited, best)
}

/// No route comes by a node twice, and all its nodes but the last have been
/// visited.
pub(crate) open spec fn unrepeated<N: Node>(
    routes: Multiset<PathView<N>>,
    visited: Set<N>,
) -> bool {
    forall|q: PathView<N>| #[trigger]
        routes.contains(q) ==> q.nodes.no_duplicates() && forall|i: int|
            0 <= i < q.nodes.len() - 1 ==> visited.contains(#[trigger] q.nodes[i])
}

/// The first node of `w` that has not been visited.
pub(crate) proof fn lemma_first_unvisited<N: Node>(w: Seq<N>, visited: Set<N>) -> (j: int)
    requires
        w.len() > 0,
        !visited.contains(w.last()),
    ensures
        0 <= j < w.len(),
        !visited.contains(w[j]),
        forall|i: int| 0 <= i < j ==> visited.contains(#[trigger] w[i]),
    decreases w.len(),
{
    if w.len() == 1 {
        0
    } else if visited.contains(w[w.len() - 2]) && forall|i: int|
        0 <= i < w.len() - 1 ==> visited.contains(#[trigger] w[i]) {
        w.len() - 1
    } else {
        let i = choose|i: int| 0 <= i < w.len() - 1 && !visited.contains(#[trigger] w[i]);
        let head = w.take(i + 1);
        let j = lemma_first_unvisited(head, visited);
        assert(head[j] == w[j]);
        assert forall|k: int| 0 <= k < j implies visited.contains(#[trigger] w[k]) by {
            assert(head[k] == w[k]);
        }
        j
    }
}

/// A route with the lowest estimate in the frontier that ends at a node not
/// yet visited is a cheapest route to that node.
pub(crate) proof fn lemma_cheapest_first<N: Node>(
    g: Graph<N>,
    start: N,
    goal: N,
    routes: Multiset<PathView<N>>,
    visited: Set<N>,
    best: Map<N, N::Cost>,
    expansions: int,
    p: PathView<N>,
    w: Seq<N>,
)
    requires
        g.prunable(goal),
        exploring(g, start, goal, routes, visited, best),
        bounded(routes, start, goal, expansions),
        seeded(routes, visited, start),
        routes.contains(p),
        is_least(g, p, routes),
        !visited.contains(p.last()),
        g.connects(w, start, p.last()),
        (g.finite)(g.walk_estimate(w, goal)),
    ensures
        g.le(p.cost, g.walk_cost(w)),
{
    let j = lemma_first_unvisited(w, visited);
    let reached = w.take(j + 1);
    g.lemma_walk_prefix(w, j + 1);
    assert(w.take(w.len() as int) == w);
    // a route of the frontier that ends where `reached` does, and costs no more
    let q: PathView<N>;
    if j == 0 {
        q = p;
        assert(p.nodes == seq![start]);
        assert(g.walk_cost(p.nodes) == g.zero);
        assert(g.walk_cost(reached) == g.zero);
        g.lemma_le_reflexive(g.zero);
    } else {
        let v = w[j - 1];
        assert(visited.contains(v));
        assert(g.edge(w[j - 1], w[j - 1 + 1]));
        assert(g.edge(v, w[j]));
        q = choose|q: PathView<N>| #[trigger]
            routes.contains(q) && q.last() == w[j] && q.cost == (g.sum)(
                best[v],
                (g.step_cost)(v, w[j]),
            );
        g.lemma_walk_prefix(w, j);
        assert(g.connects(w.take(j), start, v));
        g.lemma_estimates_grow(goal, w, j, w.len() as int);
        assert((g.finite)(g.walk_estimate(w.take(j), goal)));
        assert(g.le(best[v], g.walk_cost(w.take(j))));
        g.lemma_walk_cost_step(w, j);
        let step = (g.step_cost)(v, w[j]);
        assert(g.le((g.sum)(best[v], step), (g.sum)(g.walk_cost(w.take(j)), step)));
    }
    assert(routes.contains(q));
    assert(q.last() == w[j]);
    assert(g.le(q.cost, g.walk_cost(reached)));
    let rest = (g.estimate)(w[j], goal);
    assert(g.le((g.sum)(q.cost, rest), (g.sum)(g.walk_cost(reached), rest)));
    assert(g.le(q.estimate(g), g.walk_estimate(reached, goal)));
    g.lemma_estimates_grow(goal, w, j + 1, w.len() as int);
    assert(g.le(p.estimate(g), q.estimate(g)));
    g.lemma_le_transitive(p.estimate(g), q.estimate(g), g.walk_estimate(reached, goal));
    g.lemma_le_transitive(
        p.estimate(g),
        g.walk_estimate(reached, goal),
        g.walk_estimate(w, goal),
    );
    g.lemma_cheaper(goal, p.cost, g.walk_cost(w), p.last());
}

/// Once the frontier is empty, every walk from the start stays among the
/// visited nodes.
pub(crate) proof fn lemma_enclosed<N: Node>(
    g: Graph<N>,
    start: N,
    routes: Multiset<PathView<N>>,
    visited: Set<N>,
    best: Map<N, N::Cost>,
    w: Seq<N>,
)
    requires
        routes.len() == 0,
        fenced(g, routes, visited, best),
        visited.contains(start),
        g.walk_from(w, start),
    ensures
        visited.contains(w.last()),
    decreases w.len(),
{
    if w.len() > 1 {
        let n = w.len() as int;
        g.lemma_walk_prefix(w, n - 1);
        lemma_enclosed(g, start, routes, visited, best, w.take(n - 1));
        assert(g.edge(w[n - 2], w[n - 2 + 1]));
        if !visited.contains(w.last()) {
            let q = choose|q: PathView<N>| #[trigger]
                routes.contains(q) && q.last() == w.last() && q.cost == (g.sum)(
                    best[w[n - 2]],
                    (g.step_cost)(w[n - 2], w.last()),
                );
            assert(routes.count(q) > 0);
            vstd::multiset::axiom_count_le_len(routes, q);
        }
    }
}

/// The state of [`solve`] after a route has been expanded.
pub(crate) proof fn lemma_expanded<N: Node>(
    g: Graph<N>,
    start: N,
    goal: N,
    before: Multiset<PathView<N>>,
    rest: Multiset<PathView<N>>,
    after: Multiset<PathView<N>>,
    visited: Set<N>,
    best: Map<N, N::Cost>,
    expansions: int,
    p: PathView<N>,
    neighbors: Seq<N>,
)
    requires
        g.describes(),
        exploring(g, start, goal, before, visited, best),
        bounded(before, start, goal, expansions),
        seeded(before, visited, start),
        before == rest.insert(p),
        g.orders() ==> is_least(g, p, before),
        neighbors == (g.neighbors)(p.last()),
        kept(rest, after),
        only_extended(rest, after, p, neighbors, visited.insert(p.last()), neighbors.len() as int),
        all_extended(after, p, neighbors, visited.insert(p.last()), neighbors.len() as int),
    ensures
        exploring(
            g,
            start,
            goal,
            after,
            visited.insert(p.last()),
            if visited.contains(p.last()) {
                best
            } else {
                best.insert(p.last(), p.cost)
            },
        ),
        bounded(after, start, goal, expansions + 1),
        seeded(after, visited.insert(p.last()), start),
{
    broadcast use vstd::multiset::group_multiset_properties;

    let n = p.last();
    let seen = visited.insert(n);
    let known = if visited.contains(n) {
        best
    } else {
        best.insert(n, p.cost)
    };
    assert(before.contains(p));
    assert(forall|q: PathView<N>| #[trigger] rest.contains(q) ==> before.contains(q));
    assert(seen.contains(start)) by {
        if !visited.contains(start) {
            assert(p.nodes == seq![start]);
        }
    }
    assert forall|q: PathView<N>| #[trigger] after.contains(q) implies q.goal == goal && 0
        < q.nodes.len() <= expansions + 2 && q.nodes.first() == start && g.is_walk(q.nodes)
        && q.cost == g.walk_cost(q.nodes) by {
        if !rest.contains(q) {
            let j = choose|j: int|
                0 <= j < neighbors.len() && !seen.contains(#[trigger] neighbors[j]) && q.extends(
                    p,
                    neighbors[j],
                );
            assert(g.edge(n, neighbors[j]));
            g.lemma_walk_push(p.nodes, neighbors[j]);
        }
    }
    assert forall|v: N, m: N|
        seen.contains(v) && #[trigger] g.edge(v, m) && !seen.contains(m) implies exists|
        q: PathView<N>,
    | #[trigger]
        after.contains(q) && q.last() == m && q.cost == (g.sum)(known[v], (g.step_cost)(v, m)) by {
        if v == n && !visited.contains(n) {
            let j = choose|j: int| 0 <= j < neighbors.len() && neighbors[j] == m;
            let q = choose|q: PathView<N>| #[trigger]
                after.contains(q) && q.extends(p, neighbors[j]);
            assert(after.contains(q) && q.last() == m);
        } else {
            assert(visited.contains(v));
            let q = choose|q: PathView<N>| #[trigger]
                before.contains(q) && q.last() == m && q.cost == (g.sum)(
                    best[v],
                    (g.step_cost)(v, m),
                );
            assert(q != p);
            assert(rest.contains(q));
            assert(after.contains(q));
        }
    }
    if g.prunable(goal) {
        assert forall|v: N, w: Seq<N>|
            seen.contains(v) && #[trigger] g.connects(w, start, v) && (g.finite)(
                g.walk_estimate(w, goal),
            ) implies g.le(known[v], g.walk_cost(w)) by {
            if v == n && !visited.contains(n) {
                lemma_cheapest_first(g, start, goal, before, visited, best, expansions, p, w);
            }
        }
    }
}

/// A route extended to nodes that have not been visited comes by no node
/// twice.
pub(crate) proof fn lemma_unrepeated<N: Node>(
    before: Multiset<PathView<N>>,
    rest: Multiset<PathView<N>>,
    after: Multiset<PathView<N>>,
    visited: Set<N>,
    p: PathView<N>,
    neighbors: Seq<N>,
)
    requires
        unrepeated(before, visited),
        before == rest.insert(p),
        p.nodes.len() > 0,
        only_extended(rest, after, p, neighbors, visited.insert(p.last()), neighbors.len() as int),
    ensures
        unrepeated(after, visited.insert(p.last())),
        p.nodes.no_duplicates(),
        forall|i: int| 0 <= i < p.nodes.len() ==> visited.insert(p.last()).contains(
            #[trigger] p.nodes[i],
        ),
{
    broadcast use vstd::multiset::group_multiset_properties;

    let seen = visited.insert(p.last());
    assert(before.contains(p));
    assert forall|i: int| 0 <= i < p.nodes.len() implies seen.contains(#[trigger] p.nodes[i]) by {
        if i < p.nodes.len() - 1 {
            assert(visited.contains(p.nodes[i]));
        }
    }
    assert forall|q: PathView<N>| #[trigger] after.contains(q) implies q.nodes.no_duplicates()
        && forall|i: int| 0 <= i < q.nodes.len() - 1 ==> seen.contains(#[trigger] q.nodes[i]) by {
        if rest.contains(q) {
            assert(before.contains(q));
            assert forall|i: int| 0 <= i < q.nodes.len() - 1 implies seen.contains(
                #[trigger] q.nodes[i],
            ) by {
                assert(visited.contains(q.nodes[i]));
            }
        } else {
            let j = choose|j: int|
                0 <= j < neighbors.len() && !seen.contains(#[trigger] neighbors[j]) && q.extends(
                    p,
                    neighbors[j],
                );
            assert forall|i: int| 0 <= i < q.nodes.len() - 1 implies seen.contains(
                #[trigger] q.nodes[i],
            ) by {
                assert(q.nodes[i] == p.nodes[i]);
            }
            assert forall|a: int, b: int|
                0 <= a < q.nodes.len() && 0 <= b < q.nodes.len() && a != b implies q.nodes[a]
                != q.nodes[b] by {
                if a < p.nodes.len() && b < p.nodes.len() {
                    assert(p.nodes[a] != p.nodes[b]);
                } else if a < p.nodes.len() {
                    assert(seen.contains(p.nodes[a]));
                } else {
                    assert(seen.contains(p.nodes[b]));
                }
            }
        }
    }
}

/// Once a route has left the frontier, the start has been visited.
pub(crate) proof fn lemma_seeded<N: Node>(
    before: Multiset<PathView<N>>,
    rest: Multiset<PathView<N>>,
    after: Multiset<PathView<N>>,
    visited: Set<N>,
    start: N,
    p: PathView<N>,
)
    requires
        seeded(before, visited, start),
        before == rest.insert(p),
    ensures
        seeded(after, visited.insert(p.last()), start),
{
    broadcast use vstd::multiset::group_multiset_properties;

    assert(before.contains(p));
    if !visited.contains(start) {
        assert(p.nodes == seq![start]);
    }
}

} // verus!
