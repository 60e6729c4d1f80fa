//! What both searches keep true of the routes of the frontier.

use vstd::prelude::*;
use vstd::multiset::Multiset;
use crate::expand::only_extended;
use crate::frontier::has_incomparable;
use crate::graph::Graph;
use crate::node::Node;
use crate::path::PathView;

verus! {

/// Every route is a route of this search, from `start` towards `goal`, and
/// no longer than the number of expansions allows.
pub(crate) open spec fn bounded<N: Node>(
    routes: Multiset<PathView<N>>,
    start: N,
    goal: N,
    expansions: int,
) -> bool {
    forall|q: PathView<N>| #[trigger]
        routes.contains(q) ==> q.goal == goal && 0 < q.nodes.len() <= expansions + 1
            && q.nodes.first() == start
}

/// Every route is a walk, and carries what the walk costs.
pub(crate) open spec fn priced<N: Node>(g: Graph<N>, routes: Multiset<PathView<N>>) -> bool {
    forall|q: PathView<N>| #[trigger]
        routes.contains(q) ==> g.is_walk(q.nodes) && q.cost == g.walk_cost(q.nodes)
}

/// Where two routes of the frontier cannot be ordered, two walks from the
/// start cannot.
pub(crate) proof fn lemma_incomparable_walks<N: Node>(
    g: Graph<N>,
    routes: Multiset<PathView<N>>,
    start: N,
    goal: N,
    expansions: int,
)
    requires
        has_incomparable(g, routes),
        bounded(routes, start, goal, expansions),
        priced(g, routes),
    ensures
        g.incomparable_estimates(start, goal),
{
    let (a, b) = choose|a: PathView<N>, b: PathView<N>|
        #![trigger routes.contains(a), routes.contains(b)]
        routes.contains(a) && routes.contains(b) && (g.compare)(a.estimate(g), b.estimate(g))
            is Incomparable;
    assert(g.walk_from(a.nodes, start) && g.walk_from(b.nodes, start));
    assert(a.estimate(g) == g.walk_estimate(a.nodes, goal));
    assert(b.estimate(g) == g.walk_estimate(b.nodes, goal));
}

/// The routes of the frontier after a route has been extended are routes of
/// this search.
pub(crate) proof fn lemma_expanded_bounds<N: Node>(
    start: N,
    goal: N,
    before: Multiset<PathView<N>>,
    rest: Multiset<PathView<N>>,
    after: Multiset<PathView<N>>,
    expansions: int,
    p: PathView<N>,
    neighbors: Seq<N>,
    skipped: Set<N>,
)
    requires
        bounded(before, start, goal, expansions),
        before == rest.insert(p),
        only_extended(rest, after, p, neighbors, skipped, neighbors.len() as int),
    ensures
        bounded(after, start, goal, expansions + 1),
{
    broadcast use vstd::multiset::group_multiset_properties;

    assert(before.contains(p));
    assert forall|q: PathView<N>| #[trigger] after.contains(q) implies q.goal == goal && 0
        < q.nodes.len() <= expansions + 2 && q.nodes.first() == start by {
        if rest.contains(q) {
            assert(before.contains(q));
        } else {
            let j = choose|j: int|
                0 <= j < neighbors.len() && !skipped.contains(#[trigger] neighbors[j])
                    && q.extends(p, neighbors[j]);
        }
    }
}

/// The routes of the frontier after a route has been extended are walks, and
/// carry what the walks cost.
pub(crate) proof fn lemma_expanded_routes<N: Node>(
    g: Graph<N>,
    start: N,
    goal: N,
    before: Multiset<PathView<N>>,
    rest: Multiset<PathView<N>>,
    after: Multiset<PathView<N>>,
    expansions: int,
    p: PathView<N>,
    neighbors: Seq<N>,
    skipped: Set<N>,
)
    requires
        g.describes(),
        priced(g, before),
        bounded(before, start, goal, expansions),
        before == rest.insert(p),
        neighbors == (g.neighbors)(p.last()),
        only_extended(rest, after, p, neighbors, skipped, neighbors.len() as int),
    ensures
        priced(g, after),
        bounded(after, start, goal, expansions + 1),
{
    broadcast use vstd::multiset::group_multiset_properties;

    lemma_expanded_bounds(start, goal, before, rest, after, expansions, p, neighbors, skipped);
    assert(before.contains(p));
    assert forall|q: PathView<N>| #[trigger] after.contains(q) implies g.is_walk(q.nodes)
        && q.cost == g.walk_cost(q.nodes) by {
        if rest.contains(q) {
            assert(before.contains(q));
        } else {
            let j = choose|j: int|
                0 <= j < neighbors.len() && !skipped.contains(#[trigger] neighbors[j])
                    && q.extends(p, neighbors[j]);
            assert(g.edge(p.last(), neighbors[j]));
            g.lemma_walk_push(p.nodes, neighbors[j]);
        }
    }
}

} // verus!
