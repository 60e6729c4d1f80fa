//! The two searches: one cheapest route, and all of them.

use vstd::prelude::*;
use std::collections::HashSet;
use crate::census::{
    apart, counting, crowded, lemma_apart_expanded, lemma_apart_joined, lemma_counted,
    lemma_counted_out,
};
use crate::collecting::{
    arrived, at_once, begun, collecting, direct, lemma_collected, lemma_fanned_out,
    lemma_fanned_out_direct, lemma_recorded,
};
use crate::expand::extend_all;
use crate::frontier::{views, Frontier};
use crate::graph::Graph;
use crate::node::{nodes_are_keys, nodes_are_values, CostOrdering, Node, SearchError};
use crate::path::{Path, PathView};
use crate::routes::{
    bounded, lemma_expanded_bounds, lemma_expanded_routes, lemma_incomparable_walks, priced,
};
use crate::visiting::{
    can_prune, exploring, lemma_cheapest_first, lemma_enclosed, lemma_expanded, lemma_seeded,
    lemma_unrepeated, seeded, unrepeated,
};

verus! {

/// The most routes that one search expands. A search that would have to
/// expand one more ends with [`SearchError::ExpansionLimit`]: the count of
/// its expansions, which also bounds the length of its routes, could not be
/// kept any further.
pub const EXPANSION_LIMIT: usize = usize::MAX - 1;

/// What [`solve`] returns, in the graph `g`.
///
/// A route that is handed out leads from `start` to `goal` and comes with
/// what it costs. The search fails on incomparable costs only where two walks
/// from `start` have estimated totals that cannot be ordered.
///
/// The rest holds where nodes can be kept in a hash set, for the search
/// relies on its set of visited nodes. Where the graph is prunable, no walk
/// from `start` to `goal` whose estimated total is finite costs less than
/// the route handed out. `None` is handed out only where no walk leads from
/// `start` to `goal`. The search fails at the expansion limit only where, if
/// no node has the same neighbor twice, as many walks as the limit allows
/// expansions lead from `start`, none of them by `goal` nor by any node
/// twice.
pub open spec fn found_one<N: Node>(
    g: Graph<N>,
    start: N,
    goal: N,
    result: Result<Option<(Vec<N>, N::Cost)>, SearchError>,
) -> bool {
    match result {
        Ok(Some(found)) => {
            &&& g.is_route(found.0@, found.1, start, goal)
            &&& nodes_are_keys::<N>() && g.prunable(goal) ==> g.is_cheapest(found.1, start, goal)
        },
        Ok(None) => nodes_are_keys::<N>() ==> g.unreachable(start, goal),
        Err(SearchError::IncomparableCosts) => g.incomparable_estimates(start, goal),
        Err(SearchError::ExpansionLimit) => nodes_are_keys::<N>() && g.simple() ==> g.has_paths(
            start,
            goal,
            EXPANSION_LIMIT as nat,
        ),
    }
}

/// What [`solve_all`] returns, in the graph `g`.
///
/// Each route that is handed out leads from `start` to `goal` without coming
/// by `goal` on the way, and comes with what it costs. Where the graph is
/// searchable, none of the walks from `start` to `goal` whose estimated total
/// is finite costs less than any of the routes, and each of these walks that
/// costs no more than the others, and reaches `goal` only at its end, is
/// among the routes. Where no node has the same neighbor twice, no route is
/// handed out twice. No route is handed out only where no walk leads from
/// `start` to `goal`.
///
/// The search fails on incomparable costs only where two walks from `start`
/// have estimated totals, or two walks from `start` to `goal` have costs,
/// that cannot be ordered. It fails at the expansion limit only where, if no
/// node has the same neighbor twice, as many walks as the limit allows
/// expansions lead from `start`, none of them by `goal`.
pub open spec fn found_all<N: Node>(
    g: Graph<N>,
    start: N,
    goal: N,
    result: Result<Vec<(Vec<N>, N::Cost)>, SearchError>,
) -> bool {
    match result {
        Ok(routes) => {
            &&& forall|i: int|
                0 <= i < routes@.len() ==> {
                    &&& g.connects_directly((#[trigger] routes@[i]).0@, start, goal)
                    &&& routes@[i].1 == g.walk_cost(routes@[i].0@)
                }
            &&& g.searchable(goal) ==> forall|i: int|
                0 <= i < routes@.len() ==> g.is_cheapest((#[trigger] routes@[i]).1, start, goal)
            &&& g.searchable(goal) ==> forall|w: Seq<N>|
                #[trigger] g.connects_directly(w, start, goal) && (g.finite)(
                    g.walk_estimate(w, goal),
                ) && g.is_cheapest(g.walk_cost(w), start, goal) ==> exists|i: int|
                    0 <= i < routes@.len() && (#[trigger] routes@[i]).0@ == w
            &&& g.simple() ==> forall|i: int, j: int|
                0 <= i < j < routes@.len() ==> (#[trigger] routes@[i]).0@ != (
                #[trigger] routes@[j]).0@
            &&& routes@.len() == 0 ==> g.unreachable(start, goal)
        },
        Err(SearchError::IncomparableCosts) => g.incomparable_estimates(start, goal)
            || g.incomparable_costs(start, goal),
        Err(SearchError::ExpansionLimit) => g.simple() ==> g.has_walks(
            start,
            goal,
            EXPANSION_LIMIT as nat,
        ),
    }
}

/// Whether two nodes are equal.
fn same_node<N: Node>(a: &N, b: &N) -> (same: bool)
    ensures
        nodes_are_values::<N>() ==> same == (*a == *b),
{
    proof {
        reveal(vstd::laws_eq::obeys_concrete_eq);
    }
    *a == *b
}

/// The routes found, each laid out from the start and with what it costs.
fn hand_out<N: Node>(found: &Vec<Path<N>>) -> (handed: Vec<(Vec<N>, N::Cost)>)
    ensures
        handed@.len() == found@.len(),
        forall|i: int|
            0 <= i < found@.len() ==> (#[trigger] handed@[i]).0@ == found@[i]@.nodes
                && handed@[i].1 == found@[i]@.cost,
{
    let mut handed: Vec<(Vec<N>, N::Cost)> = Vec::new();
    let mut i: usize = 0;
    while i < found.len()
        invariant
            i <= found@.len(),
            handed@.len() == i,
            forall|k: int|
                0 <= k < i ==> (#[trigger] handed@[k]).0@ == found@[k]@.nodes && handed@[k].1
                    == found@[k]@.cost,
        decreases found@.len() - i,
    {
        let path = &found[i];
        handed.push((path.as_vec(), path.cost()));
        i = i + 1;
    }
    handed
}

/// Finds a cheapest route from `start` to `goal`.
///
/// Returns the nodes of the route, from `start` to `goal`, with what the
/// route costs, or `None` when no route leads to `goal`. When `start` is
/// `goal` the route is `start` alone, and nothing is expanded or ordered.
///
/// The search takes the route with the lowest estimated total out of the
/// frontier, marks its last node as visited, and, unless that node is `goal`,
/// puts the route back extended to each neighbor that has not been visited.
/// With an estimate that is consistent the route found is a cheapest one; an
/// estimate that is only admissible can make it miss the cheapest.
///
/// The search ends with [`SearchError::IncomparableCosts`] as soon as two
/// costs that it has to order cannot be, and with
/// [`SearchError::ExpansionLimit`] rather than expand more than
/// [`EXPANSION_LIMIT`] routes. It does not end on its own in a space without
/// end in which `goal` cannot be reached.
pub fn solve<N: Node>(start: N, goal: N) -> (result: Result<
    Option<(Vec<N>, N::Cost)>,
    SearchError,
>)
    ensures
        forall|g: Graph<N>| #[trigger] g.describes() ==> found_one(g, start, goal, result),
        nodes_are_values::<N>() && start == goal ==> (result matches Ok(Some(found)) && found.0@
            == seq![start] && forall|g: Graph<N>| #[trigger] g.describes() ==> found.1 == g.zero),
{
    let mut frontier: Frontier<N> = Frontier::new();
    let mut visited: HashSet<N> = HashSet::new();
    let mut expansions: usize = 0;
    let ghost mut best: Map<N, N::Cost> = Map::empty();
    let ghost mut expanded: Set<Seq<N>> = Set::empty();
    let first = Path::new(start, goal);
    match frontier.push(first) {
        Ok(()) => {},
        Err(error) => {
            return Err(error);
        },
    }
    proof {
        broadcast use vstd::multiset::group_multiset_properties;
        broadcast use vstd::multiset::group_multiset_axioms;

        assert(frontier@.len() == 1);
        assert forall|g: Graph<N>| #[trigger] g.describes() implies exploring(
            g,
            start,
            goal,
            frontier@,
            visited@,
            best,
        ) by {
            assert(g.walk_cost(seq![start]) == g.zero);
        }
        assert(crowded(frontier@, expanded, 0));
    }
    loop
        invariant
            frontier.well_formed(),
            expansions <= EXPANSION_LIMIT,
            bounded(frontier@, start, goal, expansions as int),
            expansions == 0 ==> seeded(frontier@, Set::<N>::empty(), start),
            nodes_are_values::<N>() && start == goal ==> expansions == 0,
            can_prune::<N>() ==> !visited@.contains(goal),
            can_prune::<N>() ==> seeded(frontier@, visited@, start),
            can_prune::<N>() ==> unrepeated(frontier@, visited@),
            forall|g: Graph<N>| #[trigger] g.describes() ==> priced(g, frontier@),
            forall|g: Graph<N>| #[trigger]
                g.describes() ==> (nodes_are_keys::<N>() ==> exploring(
                    g,
                    start,
                    goal,
                    frontier@,
                    visited@,
                    best,
                )),
            forall|g: Graph<N>| #[trigger]
                g.describes() ==> (nodes_are_keys::<N>() ==> counting(
                    g,
                    start,
                    goal,
                    frontier@,
                    expanded,
                    expansions as int,
                    true,
                )),
        decreases EXPANSION_LIMIT - expansions,
    {
        let ghost before = frontier@;
        let ghost seen = visited@;
        let path = match frontier.pop() {
            Ok(Some(path)) => path,
            Ok(None) => {
                proof {
                    assert forall|g: Graph<N>| #[trigger]
                        g.describes() && nodes_are_keys::<N>() implies g.unreachable(
                        start,
                        goal,
                    ) by {
                        assert(exploring(g, start, goal, before, seen, best));
                        assert forall|w: Seq<N>| !#[trigger] g.connects(w, start, goal) by {
                            if g.connects(w, start, goal) {
                                lemma_enclosed(g, start, before, seen, best, w);
                            }
                        }
                    }
                }
                return Ok(None);
            },
            Err(error) => {
                proof {
                    assert forall|g: Graph<N>| #[trigger]
                        g.describes() implies g.incomparable_estimates(start, goal) by {
                        lemma_incomparable_walks(g, before, start, goal, expansions as int);
                    }
                }
                return Err(error);
            },
        };
        let ghost rest = frontier@;
        proof {
            broadcast use vstd::multiset::group_multiset_properties;

            assert(before.contains(path@));
        }
        let current = path.last();
        visited.insert(current);
        if same_node(&current, &goal) {
            let nodes = path.as_vec();
            let cost = path.cost();
            proof {
                assert forall|g: Graph<N>| #[trigger] g.describes() implies found_one(
                    g,
                    start,
                    goal,
                    Ok::<Option<(Vec<N>, N::Cost)>, SearchError>(Some((nodes, cost))),
                ) && (start == goal ==> cost == g.zero) by {
                    assert(g.is_route(nodes@, cost, start, goal));
                    if start == goal {
                        assert(g.walk_cost(seq![start]) == g.zero);
                    }
                    if nodes_are_keys::<N>() && g.prunable(goal) {
                        assert(g.orders());
                        assert(exploring(g, start, goal, before, seen, best));
                        assert forall|w: Seq<N>|
                            #[trigger] g.connects(w, start, goal) && (g.finite)(
                                g.walk_estimate(w, goal),
                            ) implies g.le(cost, g.walk_cost(w)) by {
                            lemma_cheapest_first(
                                g,
                                start,
                                goal,
                                before,
                                seen,
                                best,
                                expansions as int,
                                path@,
                                w,
                            );
                        }
                    }
                }
            }
            return Ok(Some((nodes, cost)));
        }
        if expansions >= EXPANSION_LIMIT {
            proof {
                assert forall|g: Graph<N>| #[trigger]
                    g.describes() && nodes_are_keys::<N>() && g.simple() implies g.has_paths(
                    start,
                    goal,
                    EXPANSION_LIMIT as nat,
                ) by {
                    assert(counting(g, start, goal, before, expanded, expansions as int, true));
                    assert(expanded.finite() && expanded.len() >= EXPANSION_LIMIT as nat);
                }
            }
            return Err(SearchError::ExpansionLimit);
        }
        let neighbors = current.adjacent();
        let (extended, Ghost(added)) = extend_all(&mut frontier, &path, &neighbors, Some(&visited));
        proof {
            lemma_expanded_bounds(
                start,
                goal,
                before,
                rest,
                frontier@,
                expansions as int,
                path@,
                neighbors@,
                Set::<N>::empty(),
            );
            assert forall|g: Graph<N>| #[trigger] g.describes() implies priced(g, frontier@) by {
                lemma_expanded_routes(
                    g,
                    start,
                    goal,
                    before,
                    rest,
                    frontier@,
                    expansions as int,
                    path@,
                    neighbors@,
                    Set::<N>::empty(),
                );
            }
        }
        match extended {
            Ok(()) => {},
            Err(error) => {
                proof {
                    assert forall|g: Graph<N>| #[trigger]
                        g.describes() implies g.incomparable_estimates(start, goal) by {
                        lemma_incomparable_walks(g, frontier@, start, goal, expansions + 1);
                    }
                }
                return Err(error);
            },
        }
        proof {
            let ghost known = if seen.contains(current) {
                best
            } else {
                best.insert(current, path@.cost)
            };
            if can_prune::<N>() {
                assert(visited@ == seen.insert(current));
                lemma_unrepeated(before, rest, frontier@, seen, path@, neighbors@);
            }
            assert forall|g: Graph<N>| #[trigger]
                g.describes() && nodes_are_keys::<N>() implies exploring(
                g,
                start,
                goal,
                frontier@,
                visited@,
                known,
            ) && seeded(frontier@, visited@, start) && counting(
                g,
                start,
                goal,
                frontier@,
                expanded.insert(path@.nodes),
                expansions + 1,
                true,
            ) by {
                assert(exploring(g, start, goal, before, seen, best));
                lemma_expanded(
                    g,
                    start,
                    goal,
                    before,
                    rest,
                    frontier@,
                    seen,
                    best,
                    expansions as int,
                    path@,
                    neighbors@,
                );
                if g.simple() {
                    assert(counting(g, start, goal, before, expanded, expansions as int, true));
                    lemma_counted(
                        g,
                        start,
                        goal,
                        before,
                        rest,
                        frontier@,
                        added,
                        expanded,
                        expansions as int,
                        path@,
                        neighbors@,
                        visited@,
                    );
                    assert(!path@.nodes.contains(goal)) by {
                        if path@.nodes.contains(goal) {
                            let i = choose|i: int|
                                0 <= i < path@.nodes.len() && path@.nodes[i] == goal;
                            assert(visited@.contains(path@.nodes[i]));
                        }
                    }
                }
            }
            if can_prune::<N>() {
                lemma_seeded(before, rest, frontier@, seen, start, path@);
            }
            best = known;
            expanded = expanded.insert(path@.nodes);
        }
        expansions = expansions + 1;
    }
}

/// Finds every cheapest route from `start` to `goal`.
///
/// Returns each route as its nodes, from `start` to `goal`, with what it
/// costs; the routes come in no particular order, and there is none when no
/// route leads to `goal`. When `start` is `goal` the one route is `start`
/// alone.
///
/// The search keeps no set of visited nodes, so that routes that share a
/// node are all found, and it follows no route beyond `goal`. It records the
/// routes to `goal` as they leave the frontier, and stops at the first one
/// that costs more than the first one recorded, or when the frontier is
/// empty. With an estimate that is admissible the routes are the cheapest
/// ones.
///
/// The search ends with [`SearchError::IncomparableCosts`] as soon as two
/// costs that it has to order cannot be, and with
/// [`SearchError::ExpansionLimit`] rather than expand more than
/// [`EXPANSION_LIMIT`] routes. It does not end on its own where the cheapest
/// routes are without number, or `goal` cannot be reached in a space without
/// end.
pub fn solve_all<N: Node>(start: N, goal: N) -> (result: Result<
    Vec<(Vec<N>, N::Cost)>,
    SearchError,
>)
    ensures
        forall|g: Graph<N>| #[trigger] g.describes() ==> found_all(g, start, goal, result),
        nodes_are_values::<N>() && start == goal ==> (result matches Ok(routes) && routes@.len()
            == 1 && routes@[0].0@ == seq![start]),
{
    let mut frontier: Frontier<N> = Frontier::new();
    let mut solutions: Vec<Path<N>> = Vec::new();
    let mut expansions: usize = 0;
    let ghost mut expanded: Set<Seq<N>> = Set::empty();
    let first = Path::new(start, goal);
    match frontier.push(first) {
        Ok(()) => {},
        Err(error) => {
            return Err(error);
        },
    }
    proof {
        broadcast use vstd::multiset::group_multiset_properties;
        broadcast use vstd::multiset::group_multiset_axioms;

        assert(views(solutions@) =~= Seq::<PathView<N>>::empty());
        assert forall|g: Graph<N>| #[trigger] g.describes() implies collecting(
            g,
            start,
            goal,
            frontier@,
            views(solutions@),
        ) by {
            assert(g.walk_cost(seq![start]) == g.zero);
            assert forall|w: Seq<N>| #[trigger] g.connects_directly(w, start, goal) implies begun(
                frontier@,
                w,
            ) by {
                assert(w.take(1) == seq![start]);
                assert(frontier@.contains(first@));
            }
        }
        assert(crowded(frontier@, expanded, 0));
    }
    loop
        invariant
            frontier.well_formed(),
            expansions <= EXPANSION_LIMIT,
            bounded(frontier@, start, goal, expansions as int),
            nodes_are_values::<N>() ==> direct(frontier@, goal),
            nodes_are_values::<N>() ==> arrived(views(solutions@), start, goal),
            nodes_are_values::<N>() && start == goal ==> at_once(
                frontier@,
                views(solutions@),
                start,
            ),
            forall|g: Graph<N>| #[trigger]
                g.describes() ==> collecting(g, start, goal, frontier@, views(solutions@)),
            forall|g: Graph<N>| #[trigger]
                g.describes() ==> counting(
                    g,
                    start,
                    goal,
                    frontier@,
                    expanded,
                    expansions as int,
                    false,
                ),
            forall|g: Graph<N>| #[trigger]
                g.describes() ==> (g.simple() ==> apart(views(solutions@), frontier@, expanded)),
        decreases EXPANSION_LIMIT - expansions, frontier@.len(),
    {
        let ghost before = frontier@;
        let ghost found = views(solutions@);
        let path = match frontier.pop() {
            Ok(Some(path)) => path,
            Ok(None) => {
                let handed = hand_out(&solutions);
                proof {
                    let result = Ok::<Vec<(Vec<N>, N::Cost)>, SearchError>(handed);
                    assert forall|g: Graph<N>| #[trigger] g.describes() implies found_all(
                        g,
                        start,
                        goal,
                        result,
                    ) by {
                        lemma_collected(
                            g,
                            start,
                            goal,
                            before,
                            found,
                            expansions as int,
                            None,
                            result,
                        );
                    }
                }
                return Ok(handed);
            },
            Err(error) => {
                proof {
                    assert forall|g: Graph<N>| #[trigger]
                        g.describes() implies g.incomparable_estimates(start, goal) by {
                        lemma_incomparable_walks(g, before, start, goal, expansions as int);
                    }
                }
                return Err(error);
            },
        };
        let ghost rest = frontier@;
        proof {
            broadcast use vstd::multiset::group_multiset_properties;

            assert(before.contains(path@));
            assert(before.len() == rest.len() + 1);
        }
        let current = path.last();
        if same_node(&current, &goal) {
            if solutions.len() > 0 {
                match solutions[0].cost_against_route(&path) {
                    CostOrdering::Less => {
                        let handed = hand_out(&solutions);
                        proof {
                            let result = Ok::<Vec<(Vec<N>, N::Cost)>, SearchError>(handed);
                            assert forall|g: Graph<N>| #[trigger] g.describes() implies found_all(
                                g,
                                start,
                                goal,
                                result,
                            ) by {
                                lemma_collected(
                                    g,
                                    start,
                                    goal,
                                    before,
                                    found,
                                    expansions as int,
                                    Some(path@),
                                    result,
                                );
                            }
                        }
                        return Ok(handed);
                    },
                    CostOrdering::Incomparable => {
                        proof {
                            assert forall|g: Graph<N>| #[trigger]
                                g.describes() implies g.incomparable_costs(start, goal) by {
                                assert(g.connects(found[0].nodes, start, goal));
                                assert(g.connects(path@.nodes, start, goal));
                            }
                        }
                        return Err(SearchError::IncomparableCosts);
                    },
                    _ => {},
                }
            }
            proof {
                assert forall|g: Graph<N>| #[trigger] g.describes() implies collecting(
                    g,
                    start,
                    goal,
                    rest,
                    found.push(path@),
                ) by {
                    lemma_recorded(g, start, goal, before, rest, found, expansions as int, path@);
                }
                assert(views(solutions@.push(path)) =~= found.push(path@));
                if nodes_are_values::<N>() {
                    if start == goal {
                        assert(found.len() == 0);
                        assert(rest.len() == 0);
                        assert(found.push(path@)[0] == path@);
                    }
                    assert forall|q: PathView<N>, i: int|
                        #![trigger rest.contains(q), q.nodes[i]]
                        rest.contains(q) && 0 <= i < q.nodes.len() - 1 implies q.nodes[i]
                        != goal by {
                        assert(before.contains(q));
                    }
                    assert(arrived(found.push(path@), start, goal)) by {
                        assert forall|i: int| 0 <= i < found.push(path@).len() implies {
                            &&& (#[trigger] found.push(path@)[i]).nodes.len() > 0
                            &&& found.push(path@)[i].nodes.first() == start
                            &&& found.push(path@)[i].nodes.last() == goal
                            &&& forall|k: int|
                                0 <= k < found.push(path@)[i].nodes.len() - 1
                                    ==> #[trigger] found.push(path@)[i].nodes[k] != goal
                        } by {
                            if i < found.len() {
                                assert(found.push(path@)[i] == found[i]);
                            }
                        }
                    }
                }
                assert(bounded(rest, start, goal, expansions as int)) by {
                    assert(forall|q: PathView<N>| #[trigger]
                        rest.contains(q) ==> before.contains(q));
                }
                assert forall|g: Graph<N>| #[trigger] g.describes() implies counting(
                    g,
                    start,
                    goal,
                    rest,
                    expanded,
                    expansions as int,
                    false,
                ) by {
                    if g.simple() {
                        assert(counting(
                            g,
                            start,
                            goal,
                            before,
                            expanded,
                            expansions as int,
                            false,
                        ));
                        lemma_counted_out(before, rest, expanded, expansions as int, path@);
                    }
                }
                assert forall|g: Graph<N>| #[trigger] g.describes() && g.simple() implies apart(
                    found.push(path@),
                    rest,
                    expanded,
                ) by {
                    assert(counting(g, start, goal, before, expanded, expansions as int, false));
                    assert(collecting(g, start, goal, before, found));
                    lemma_apart_joined(
                        g,
                        start,
                        goal,
                        before,
                        rest,
                        found,
                        expanded,
                        expansions as int,
                        path@,
                    );
                }
            }
            solutions.push(path);
        } else {
            if expansions >= EXPANSION_LIMIT {
                proof {
                    assert forall|g: Graph<N>| #[trigger]
                        g.describes() && g.simple() implies g.has_walks(
                        start,
                        goal,
                        EXPANSION_LIMIT as nat,
                    ) by {
                        assert(counting(
                            g,
                            start,
                            goal,
                            before,
                            expanded,
                            expansions as int,
                            false,
                        ));
                        assert(expanded.finite() && expanded.len() >= EXPANSION_LIMIT as nat);
                    }
                }
                return Err(SearchError::ExpansionLimit);
            }
            let neighbors = current.adjacent();
            let (extended, Ghost(added)) = extend_all(&mut frontier, &path, &neighbors, None);
            match extended {
                Ok(()) => {},
                Err(error) => {
                    proof {
                        assert forall|g: Graph<N>| #[trigger]
                            g.describes() implies g.incomparable_estimates(start, goal) by {
                            lemma_expanded_routes(
                                g,
                                start,
                                goal,
                                before,
                                rest,
                                frontier@,
                                expansions as int,
                                path@,
                                neighbors@,
                                Set::<N>::empty(),
                            );
                            lemma_incomparable_walks(g, frontier@, start, goal, expansions + 1);
                        }
                    }
                    return Err(error);
                },
            }
            proof {
                assert forall|g: Graph<N>| #[trigger] g.describes() implies collecting(
                    g,
                    start,
                    goal,
                    frontier@,
                    found,
                ) by {
                    lemma_fanned_out(
                        g,
                        start,
                        goal,
                        before,
                        rest,
                        frontier@,
                        found,
                        expansions as int,
                        path@,
                        neighbors@,
                    );
                }
                lemma_expanded_bounds(
                    start,
                    goal,
                    before,
                    rest,
                    frontier@,
                    expansions as int,
                    path@,
                    neighbors@,
                    Set::<N>::empty(),
                );
                if nodes_are_values::<N>() {
                    lemma_fanned_out_direct(
                        goal,
                        before,
                        rest,
                        frontier@,
                        path@,
                        neighbors@,
                        Set::<N>::empty(),
                    );
                }
                assert forall|g: Graph<N>| #[trigger] g.describes() implies counting(
                    g,
                    start,
                    goal,
                    frontier@,
                    expanded.insert(path@.nodes),
                    expansions + 1,
                    false,
                ) by {
                    if g.simple() {
                        assert(counting(
                            g,
                            start,
                            goal,
                            before,
                            expanded,
                            expansions as int,
                            false,
                        ));
                        assert(collecting(g, start, goal, before, found));
                        lemma_counted(
                            g,
                            start,
                            goal,
                            before,
                            rest,
                            frontier@,
                            added,
                            expanded,
                            expansions as int,
                            path@,
                            neighbors@,
                            Set::<N>::empty(),
                        );
                        assert(!path@.nodes.contains(goal)) by {
                            if path@.nodes.contains(goal) {
                                let i = choose|i: int|
                                    0 <= i < path@.nodes.len() && path@.nodes[i] == goal;
                                if i < path@.nodes.len() - 1 {
                                    assert(before.contains(path@));
                                    assert(path@.nodes[i] != goal);
                                }
                            }
                        }
                    }
                }
                assert forall|g: Graph<N>| #[trigger] g.describes() && g.simple() implies apart(
                    found,
                    frontier@,
                    expanded.insert(path@.nodes),
                ) by {
                    assert(counting(g, start, goal, before, expanded, expansions as int, false));
                    lemma_apart_expanded(
                        before,
                        rest,
                        frontier@,
                        found,
                        expanded,
                        expansions as int,
                        path@,
                        neighbors@,
                        Set::<N>::empty(),
                    );
                }
                expanded = expanded.insert(path@.nodes);
            }
            expansions = expansions + 1;
        }
    }
}

/// The two searches agree, where nodes can be kept in a hash set. Whatever
/// [`solve`] and [`solve_all`] return for one `start` and one `goal` in a
/// graph that describes the node type, if `solve_all` hands out routes then `solve`
/// does not say that there is none, and if a walk leads from `start` to
/// `goal` then `solve_all` hands out at least one route. Where the graph is
/// prunable and the route that `solve` hands out has a finite estimated
/// total, every route that `solve_all` hands out costs the same as that
/// route: the two costs are equal in the order of the costs, and the same
/// cost where that order is exact.
pub proof fn lemma_searches_agree<N: Node>(
    g: Graph<N>,
    start: N,
    goal: N,
    one: Result<Option<(Vec<N>, N::Cost)>, SearchError>,
    all: Result<Vec<(Vec<N>, N::Cost)>, SearchError>,
)
    requires
        nodes_are_keys::<N>(),
        found_one(g, start, goal, one),
        found_all(g, start, goal, all),
    ensures
        all matches Ok(routes) ==> (routes@.len() > 0 ==> !(one matches Ok(None))),
        all matches Ok(routes) ==> (!g.unreachable(start, goal) ==> routes@.len() > 0),
        all matches Ok(routes) ==> (one matches Ok(Some(found)) ==> (g.prunable(goal) && (
        g.finite)(g.walk_estimate(found.0@, goal)) ==> forall|i: int|
            0 <= i < routes@.len() ==> (g.compare)((#[trigger] routes@[i]).1, found.1) is Equal)),
        all matches Ok(routes) ==> (one matches Ok(Some(found)) ==> (g.prunable(goal) && (
        g.finite)(g.walk_estimate(found.0@, goal)) && g.exact_costs() ==> forall|i: int|
            0 <= i < routes@.len() ==> (#[trigger] routes@[i]).1 == found.1)),
{
    if let Ok(routes) = all {
        if routes@.len() > 0 {
            assert(g.connects(routes@[0].0@, start, goal));
        }
        if let Ok(Some(found)) = one {
            if g.prunable(goal) && (g.finite)(g.walk_estimate(found.0@, goal)) {
                assert forall|i: int| 0 <= i < routes@.len() implies (g.compare)(
                    (#[trigger] routes@[i]).1,
                    found.1,
                ) is Equal by {
                    assert(g.connects(routes@[i].0@, start, goal));
                    assert(g.connects(found.0@, start, goal));
                    assert(g.is_cheapest(routes@[i].1, start, goal));
                    assert(g.le(routes@[i].1, found.1));
                    g.lemma_cheaper_estimate(goal, routes@[i].1, found.1, goal);
                    assert(g.le(found.1, routes@[i].1));
                    g.lemma_le_antisymmetric(routes@[i].1, found.1);
                }
            }
        }
    }
}

} // verus!
