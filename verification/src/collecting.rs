//! What the search for all routes keeps true of the routes that it has
//! found, and why they are all the cheapest ones.

use vstd::prelude::*;
use vstd::multiset::Multiset;
use crate::expand::{all_extended, kept, only_extended};
use crate::frontier::is_least;
use crate::graph::Graph;
use crate::node::{Node, SearchError};
use crate::path::PathView;
use crate::routes::{bounded, lemma_expanded_routes, priced};
use crate::search::found_all;

verus! {

/// No route comes by `goal` before its end.
pub(crate) open spec fn direct<N: Node>(routes: Multiset<PathView<N>>, goal: N) -> bool {
    forall|q: PathView<N>, i: int|
        #![trigger routes.contains(q), q.nodes[i]]
        routes.contains(q) && 0 <= i < q.nodes.len() - 1 ==> q.nodes[i] != goal
}

/// Each of the routes found leads from `start` to `goal`, and comes by `goal`
/// only at its end.
pub(crate) open spec fn arrived<N: Node>(found: Seq<PathView<N>>, start: N, goal: N) -> bool {
    forall|i: int|
        0 <= i < found.len() ==> {
            &&& (#[trigger] found[i]).nodes.len() > 0
            &&& found[i].nodes.first() == start
            &&& found[i].nodes.last() == goal
            &&& forall|k: int|
                0 <= k < found[i].nodes.len() - 1 ==> #[trigger] found[i].nodes[k] != goal
        }
}

/// A route of the frontier is a beginning of the walk `w`.
pub(crate) open spec fn begun<N: Node>(routes: Multiset<PathView<N>>, w: Seq<N>) -> bool {
    exists|q: PathView<N>, j: int|
        #![trigger routes.contains(q), w.take(j)]
        routes.contains(q) && 0 < j <= w.len() && q.nodes == w.take(j)
}

/// The walk `w` is one of the routes found.
pub(crate) open spec fn among<N: Node>(found: Seq<PathView<N>>, w: Seq<N>) -> bool {
    exists|i: int| 0 <= i < found.len() && (#[trigger] found[i]).nodes == w
}

/// Every walk from `start` that reaches `goal` only at its end either has
/// been found or begins with a route of the frontier.
pub(crate) open spec fn covered<N: Node>(
    g: Graph<N>,
    start: N,
    goal: N,
    routes: Multiset<PathView<N>>,
    found: Seq<PathView<N>>,
) -> bool {
    forall|w: Seq<N>| #[trigger]
        g.connects_directly(w, start, goal) ==> begun(routes, w) || among(found, w)
}

/// What [`solve_all`] keeps true of its state, in the graph `g`.
pub(crate) open spec fn collecting<N: Node>(
    g: Graph<N>,
    start: N,
    goal: N,
    routes: Multiset<PathView<N>>,
    found: Seq<PathView<N>>,
) -> bool {
    &&& priced(g, routes)
    &&& forall|i: int|
        0 <= i < found.len() ==> g.is_walk((#[trigger] found[i]).nodes) && found[i].cost
            == g.walk_cost(found[i].nodes)
    &&& covered(g, start, goal, routes, found)
    &&& g.searchable(goal) && found.len() > 0 ==> {
        &&& g.is_cheapest(found[0].cost, start, goal)
        &&& forall|i: int|
            0 <= i < found.len() ==> g.le((#[trigger] found[i]).cost, found[0].cost)
    }
}

/// The state of [`solve_all`] when the start is the goal: the route of the
/// start alone is the one route of the frontier, or it is the one route
/// found and the frontier is empty.
pub(crate) open spec fn at_once<N: Node>(
    routes: Multiset<PathView<N>>,
    found: Seq<PathView<N>>,
    start: N,
) -> bool {
    ||| {
        &&& routes.len() == 1
        &&& found.len() == 0
        &&& forall|q: PathView<N>| #[trigger] routes.contains(q) ==> q.nodes == seq![start]
    }
    ||| {
        &&& routes.len() == 0
        &&& found.len() == 1
        &&& found[0].nodes == seq![start]
    }
}

/// No walk begins with a route of an empty frontier.
pub(crate) proof fn lemma_not_begun<N: Node>(routes: Multiset<PathView<N>>, w: Seq<N>)
    requires
        routes.len() == 0,
    ensures
        !begun(routes, w),
{
    if begun(routes, w) {
        let (q, j) = choose|q: PathView<N>, j: int|
            #![trigger routes.contains(q), w.take(j)]
            routes.contains(q) && 0 < j <= w.len() && q.nodes == w.take(j);
        assert(routes.count(q) > 0);
        vstd::multiset::axiom_count_le_len(routes, q);
    }
}

/// A walk to `goal` that begins with a route of the frontier costs no less
/// than the lowest estimated route of the frontier, if that route ends at
/// `goal`.
pub(crate) proof fn lemma_lowest_cost<N: Node>(
    g: Graph<N>,
    start: N,
    goal: N,
    routes: Multiset<PathView<N>>,
    expansions: int,
    p: PathView<N>,
    w: Seq<N>,
)
    requires
        g.searchable(goal),
        priced(g, routes),
        bounded(routes, start, goal, expansions),
        is_least(g, p, routes),
        routes.contains(p),
        p.last() == goal,
        g.is_walk(w),
        w.last() == goal,
        (g.finite)(g.walk_estimate(w, goal)),
        begun(routes, w),
    ensures
        g.le(p.cost, g.walk_cost(w)),
{
    let (q, j) = choose|q: PathView<N>, j: int|
        #![trigger routes.contains(q), w.take(j)]
        routes.contains(q) && 0 < j <= w.len() && q.nodes == w.take(j);
    assert(q.estimate(g) == g.walk_estimate(w.take(j), goal));
    assert(g.le(p.estimate(g), q.estimate(g)));
    if g.consistent(goal) {
        g.lemma_estimates_grow(goal, w, j, w.len() as int);
        assert(w.take(w.len() as int) == w);
        g.lemma_le_transitive(p.estimate(g), q.estimate(g), g.walk_estimate(w, goal));
        g.lemma_cheaper(goal, p.cost, g.walk_cost(w), goal);
    } else {
        g.lemma_estimate_at_most_cost(goal, w, j);
        g.lemma_le_transitive(p.estimate(g), q.estimate(g), g.walk_cost(w));
        let at_goal = (g.estimate)(goal, goal);
        assert(g.le((g.sum)(p.cost, g.zero), (g.sum)(p.cost, at_goal)));
        assert((g.sum)(p.cost, g.zero) == p.cost);
        g.lemma_le_transitive(p.cost, p.estimate(g), g.walk_cost(w));
    }
}

/// The first route to `goal` that leaves the frontier is a cheapest route.
pub(crate) proof fn lemma_first_found<N: Node>(
    g: Graph<N>,
    start: N,
    goal: N,
    routes: Multiset<PathView<N>>,
    expansions: int,
    p: PathView<N>,
)
    requires
        g.searchable(goal),
        collecting(g, start, goal, routes, Seq::<PathView<N>>::empty()),
        bounded(routes, start, goal, expansions),
        is_least(g, p, routes),
        routes.contains(p),
        p.last() == goal,
    ensures
        g.is_cheapest(p.cost, start, goal),
{
    assert forall|w: Seq<N>|
        #[trigger] g.connects(w, start, goal) && (g.finite)(
            g.walk_estimate(w, goal),
        ) implies g.le(p.cost, g.walk_cost(w)) by {
        let j = g.lemma_direct_prefix(w, start, goal);
        let reached = w.take(j);
        assert(g.connects_directly(reached, start, goal));
        assert(begun(routes, reached));
        let (q, i) = choose|q: PathView<N>, i: int|
            #![trigger routes.contains(q), reached.take(i)]
            routes.contains(q) && 0 < i <= reached.len() && q.nodes == reached.take(i);
        assert(reached.take(i) == w.take(i));
        assert(routes.contains(q) && 0 < i <= w.len() && q.nodes == w.take(i));
        lemma_lowest_cost(g, start, goal, routes, expansions, p, w);
    }
}

/// The state of [`solve_all`] after a route to `goal` has been recorded.
pub(crate) proof fn lemma_recorded<N: Node>(
    g: Graph<N>,
    start: N,
    goal: N,
    before: Multiset<PathView<N>>,
    rest: Multiset<PathView<N>>,
    found: Seq<PathView<N>>,
    expansions: int,
    p: PathView<N>,
)
    requires
        g.describes(),
        collecting(g, start, goal, before, found),
        bounded(before, start, goal, expansions),
        before == rest.insert(p),
        g.orders() ==> is_least(g, p, before),
        p.last() == goal,
        found.len() > 0 ==> !((g.compare)(found[0].cost, p.cost) is Less) && !((g.compare)(
            found[0].cost,
            p.cost,
        ) is Incomparable),
    ensures
        collecting(g, start, goal, rest, found.push(p)),
{
    broadcast use vstd::multiset::group_multiset_properties;

    let more = found.push(p);
    assert(before.contains(p));
    assert(forall|q: PathView<N>| #[trigger] rest.contains(q) ==> before.contains(q));
    assert forall|i: int| 0 <= i < more.len() implies g.is_walk((#[trigger] more[i]).nodes)
        && more[i].cost == g.walk_cost(more[i].nodes) by {
        if i < found.len() {
            assert(more[i] == found[i]);
        }
    }
    assert forall|w: Seq<N>| #[trigger] g.connects_directly(w, start, goal) implies begun(rest, w)
        || among(more, w) by {
        if among(found, w) {
            let i = choose|i: int| 0 <= i < found.len() && (#[trigger] found[i]).nodes == w;
            assert(more[i].nodes == w);
        } else {
            let (q, j) = choose|q: PathView<N>, j: int|
                #![trigger before.contains(q), w.take(j)]
                before.contains(q) && 0 < j <= w.len() && q.nodes == w.take(j);
            if rest.contains(q) {
                assert(begun(rest, w));
            } else {
                assert(q == p);
                assert(w.take(j).last() == w[j - 1]);
                assert(j == w.len());
                assert(w.take(j) == w);
                assert(more[found.len() as int].nodes == w);
            }
        }
    }
    if g.searchable(goal) {
        assert(g.orders());
        if found.len() == 0 {
            assert(found =~= Seq::<PathView<N>>::empty());
            lemma_first_found(g, start, goal, before, expansions, p);
            g.lemma_le_reflexive(p.cost);
            assert(more[0] == p);
        } else {
            assert(more[0] == found[0]);
            g.lemma_le_total(found[0].cost, p.cost);
            if (g.compare)(found[0].cost, p.cost) is Equal {
                g.lemma_equal_symmetric(found[0].cost, p.cost);
            }
            assert(g.le(p.cost, found[0].cost));
            assert forall|i: int| 0 <= i < more.len() implies g.le(
                (#[trigger] more[i]).cost,
                more[0].cost,
            ) by {
                if i < found.len() {
                    assert(more[i] == found[i]);
                }
            }
        }
    }
}

/// The state of [`solve_all`] after a route has been extended to all the
/// neighbors of its last node.
pub(crate) proof fn lemma_fanned_out<N: Node>(
    g: Graph<N>,
    start: N,
    goal: N,
    before: Multiset<PathView<N>>,
    rest: Multiset<PathView<N>>,
    after: Multiset<PathView<N>>,
    found: Seq<PathView<N>>,
    expansions: int,
    p: PathView<N>,
    neighbors: Seq<N>,
)
    requires
        g.describes(),
        collecting(g, start, goal, before, found),
        bounded(before, start, goal, expansions),
        before == rest.insert(p),
        p.last() != goal,
        neighbors == (g.neighbors)(p.last()),
        kept(rest, after),
        only_extended(rest, after, p, neighbors, Set::<N>::empty(), neighbors.len() as int),
        all_extended(after, p, neighbors, Set::<N>::empty(), neighbors.len() as int),
    ensures
        collecting(g, start, goal, after, found),
{
    broadcast use vstd::multiset::group_multiset_properties;

    lemma_expanded_routes(
        g,
        start,
        goal,
        before,
        rest,
        after,
        expansions,
        p,
        neighbors,
        Set::<N>::empty(),
    );
    assert(before.contains(p));
    assert forall|w: Seq<N>| #[trigger] g.connects_directly(w, start, goal) implies begun(
        after,
        w,
    ) || among(found, w) by {
        if !among(found, w) {
            let (q, j) = choose|q: PathView<N>, j: int|
                #![trigger before.contains(q), w.take(j)]
                before.contains(q) && 0 < j <= w.len() && q.nodes == w.take(j);
            if rest.contains(q) {
                assert(after.contains(q));
                assert(begun(after, w));
            } else {
                assert(q == p);
                assert(w.take(j).last() == w[j - 1]);
                assert(j < w.len());
                assert(g.edge(w[j - 1], w[j - 1 + 1]));
                let k = choose|k: int| 0 <= k < neighbors.len() && neighbors[k] == w[j];
                let longer = choose|longer: PathView<N>| #[trigger]
                    after.contains(longer) && longer.extends(p, neighbors[k]);
                assert(w.take(j).push(w[j]) == w.take(j + 1));
                assert(after.contains(longer) && 0 < j + 1 <= w.len() && longer.nodes == w.take(
                    j + 1,
                ));
            }
        }
    }
}

/// The routes of the frontier after a route that does not end at `goal` has
/// been extended come by `goal` at their ends only.
pub(crate) proof fn lemma_fanned_out_direct<N: Node>(
    goal: N,
    before: Multiset<PathView<N>>,
    rest: Multiset<PathView<N>>,
    after: Multiset<PathView<N>>,
    p: PathView<N>,
    neighbors: Seq<N>,
    skipped: Set<N>,
)
    requires
        direct(before, goal),
        before == rest.insert(p),
        p.nodes.len() > 0,
        p.last() != goal,
        only_extended(rest, after, p, neighbors, skipped, neighbors.len() as int),
    ensures
        direct(after, goal),
{
    broadcast use vstd::multiset::group_multiset_properties;

    assert(before.contains(p));
    assert forall|q: PathView<N>, i: int|
        #![trigger after.contains(q), q.nodes[i]]
        after.contains(q) && 0 <= i < q.nodes.len() - 1 implies q.nodes[i] != goal by {
        if rest.contains(q) {
            assert(before.contains(q));
        } else {
            let j = choose|j: int|
                0 <= j < neighbors.len() && !skipped.contains(#[trigger] neighbors[j])
                    && q.extends(p, neighbors[j]);
            if i < p.nodes.len() - 1 {
                assert(q.nodes[i] == p.nodes[i]);
            }
        }
    }
}

/// Once the frontier is empty, or holds no route that is estimated as low as
/// the routes found cost, the routes found are all the cheapest ones.
pub(crate) proof fn lemma_collected<N: Node>(
    g: Graph<N>,
    start: N,
    goal: N,
    routes: Multiset<PathView<N>>,
    found: Seq<PathView<N>>,
    expansions: int,
    costlier: Option<PathView<N>>,
    result: Result<Vec<(Vec<N>, N::Cost)>, SearchError>,
)
    requires
        g.describes(),
        collecting(g, start, goal, routes, found),
        bounded(routes, start, goal, expansions),
        arrived(found, start, goal),
        match costlier {
            None => routes.len() == 0,
            Some(p) => {
                &&& routes.contains(p)
                &&& p.last() == goal
                &&& found.len() > 0
                &&& g.orders() ==> is_least(g, p, routes)
                &&& (g.compare)(found[0].cost, p.cost) is Less
            },
        },
        g.simple() ==> forall|i: int, j: int|
            0 <= i < j < found.len() ==> (#[trigger] found[i]).nodes != (#[trigger] found[j]).nodes,
        result matches Ok(handed) && handed@.len() == found.len() && forall|i: int|
            0 <= i < found.len() ==> (#[trigger] handed@[i]).0@ == found[i].nodes && handed@[i].1
                == found[i].cost,
    ensures
        found_all(g, start, goal, result),
{
    let handed = result->Ok_0;
    if g.simple() {
        assert forall|i: int, j: int| 0 <= i < j < handed@.len() implies (
        #[trigger] handed@[i]).0@ != (#[trigger] handed@[j]).0@ by {
            assert(found[i].nodes != found[j].nodes);
        }
    }
    assert forall|i: int| 0 <= i < handed@.len() implies {
        &&& g.connects_directly((#[trigger] handed@[i]).0@, start, goal)
        &&& handed@[i].1 == g.walk_cost(handed@[i].0@)
    } by {
        assert(g.is_walk(found[i].nodes));
    }
    if handed@.len() == 0 {
        assert forall|w: Seq<N>| !#[trigger] g.connects(w, start, goal) by {
            if g.connects(w, start, goal) {
                let j = g.lemma_direct_prefix(w, start, goal);
                assert(g.connects_directly(w.take(j), start, goal));
                lemma_not_begun(routes, w.take(j));
            }
        }
    }
    if g.searchable(goal) {
        assert forall|i: int| 0 <= i < handed@.len() implies g.is_cheapest(
            (#[trigger] handed@[i]).1,
            start,
            goal,
        ) by {
            assert(g.le(found[i].cost, found[0].cost));
            assert forall|w: Seq<N>|
                #[trigger] g.connects(w, start, goal) && (g.finite)(
                    g.walk_estimate(w, goal),
                ) implies g.le(found[i].cost, g.walk_cost(w)) by {
                g.lemma_le_transitive(found[i].cost, found[0].cost, g.walk_cost(w));
            }
        }
        assert forall|w: Seq<N>|
            #[trigger] g.connects_directly(w, start, goal) && (g.finite)(
                g.walk_estimate(w, goal),
            ) && g.is_cheapest(g.walk_cost(w), start, goal) implies exists|i: int|
            0 <= i < handed@.len() && (#[trigger] handed@[i]).0@ == w by {
            if !among(found, w) {
                assert(begun(routes, w));
                match costlier {
                    None => {
                        lemma_not_begun(routes, w);
                    },
                    Some(p) => {
                        assert(g.orders());
                        lemma_lowest_cost(g, start, goal, routes, expansions, p, w);
                        assert(g.connects(found[0].nodes, start, goal));
                        assert(g.le(found[0].cost, g.walk_cost(w)));
                        g.lemma_cheaper_estimate(goal, found[0].cost, g.walk_cost(w), goal);
                        assert((g.finite)(g.walk_estimate(found[0].nodes, goal)));
                        assert(g.le(g.walk_cost(w), found[0].cost));
                        g.lemma_le_transitive(p.cost, g.walk_cost(w), found[0].cost);
                        assert((g.compare)(found[0].cost, p.cost) is Less <==> (g.compare)(
                            p.cost,
                            found[0].cost,
                        ) is Greater);
                    },
                }
            }
            let i = choose|i: int| 0 <= i < found.len() && (#[trigger] found[i]).nodes == w;
            assert(handed@[i].0@ == w);
        }
    }
}

} // verus!
