//! A count of the routes that a search has expanded.

use vstd::prelude::*;
use vstd::multiset::Multiset;
use crate::expand::{extensions, lemma_extensions, only_extended};
use crate::graph::Graph;
use crate::node::Node;
use crate::path::PathView;
use crate::routes::{bounded, priced};

verus! {

/// The routes expanded so far are as many as the expansions counted, each
/// route of the frontier is there once, none of them has been expanded, and
/// each route but that of the start alone extends a route that has been
/// expanded.
pub(crate) open spec fn crowded<N: Node>(
    routes: Multiset<PathView<N>>,
    expanded: Set<Seq<N>>,
    expansions: int,
) -> bool {
    &&& expanded.finite()
    &&& expanded.len() == expansions
    &&& forall|t: Seq<N>| #[trigger]
        expanded.contains(t) ==> t.len() == 1 || expanded.contains(t.drop_last())
    &&& forall|q: PathView<N>| #[trigger]
        routes.contains(q) ==> {
            &&& routes.count(q) == 1
            &&& !expanded.contains(q.nodes)
            &&& q.nodes.len() == 1 || expanded.contains(q.nodes.drop_last())
        }
}

/// Each route expanded so far is a walk from `start` that does not come by
/// `goal`, nor, where only paths count, by any node twice.
pub(crate) open spec fn trodden<N: Node>(
    g: Graph<N>,
    start: N,
    goal: N,
    expanded: Set<Seq<N>>,
    paths_only: bool,
) -> bool {
    forall|t: Seq<N>| #[trigger]
        expanded.contains(t) ==> g.walk_from(t, start) && !t.contains(goal) && (paths_only
            ==> t.no_duplicates())
}

/// What a search keeps true of the routes that it has expanded, in a graph
/// `g` in which no node has the same neighbor twice.
pub(crate) open spec fn counting<N: Node>(
    g: Graph<N>,
    start: N,
    goal: N,
    routes: Multiset<PathView<N>>,
    expanded: Set<Seq<N>>,
    expansions: int,
    paths_only: bool,
) -> bool {
    g.simple() ==> crowded(routes, expanded, expansions) && trodden(
        g,
        start,
        goal,
        expanded,
        paths_only,
    )
}

/// The routes expanded, and those of the frontier, after one more route has
/// been expanded.
pub(crate) proof fn lemma_counted<N: Node>(
    g: Graph<N>,
    start: N,
    goal: N,
    before: Multiset<PathView<N>>,
    rest: Multiset<PathView<N>>,
    after: Multiset<PathView<N>>,
    added: Seq<PathView<N>>,
    expanded: Set<Seq<N>>,
    expansions: int,
    p: PathView<N>,
    neighbors: Seq<N>,
    skipped: Set<N>,
)
    requires
        g.simple(),
        crowded(before, expanded, expansions),
        priced(g, before),
        bounded(before, start, goal, expansions),
        before == rest.insert(p),
        after == rest.add(added.to_multiset()),
        extensions(added, p, neighbors, skipped, neighbors.len() as int),
        neighbors == (g.neighbors)(p.last()),
    ensures
        crowded(after, expanded.insert(p.nodes), expansions + 1),
{
    broadcast use vstd::multiset::group_multiset_properties;
    broadcast use vstd::multiset::group_multiset_axioms;
    broadcast use vstd::seq_lib::group_to_multiset_ensures;

    let more = expanded.insert(p.nodes);
    assert(before.contains(p));
    assert(before.count(p) == rest.count(p) + 1);
    assert(rest.count(p) == 0);
    vstd::set::axiom_set_insert_finite(expanded, p.nodes);
    vstd::set::axiom_set_insert_len(expanded, p.nodes);
    lemma_extensions(added, p, neighbors, skipped, neighbors.len() as int);
    added.lemma_multiset_has_no_duplicates();
    assert forall|t: Seq<N>| #[trigger] more.contains(t) implies t.len() == 1 || more.contains(
        t.drop_last(),
    ) by {}
    assert forall|q: PathView<N>| #[trigger] after.contains(q) implies {
        &&& after.count(q) == 1
        &&& !more.contains(q.nodes)
        &&& q.nodes.len() == 1 || more.contains(q.nodes.drop_last())
    } by {
        assert(after.count(q) == rest.count(q) + added.to_multiset().count(q));
        if added.contains(q) {
            let i = choose|i: int| 0 <= i < added.len() && added[i] == q;
            let j = choose|j: int|
                0 <= j < neighbors.len() && added[i].nodes == p.nodes.push(
                    #[trigger] neighbors[j],
                );
            assert(q.nodes.drop_last() == p.nodes);
            assert(added.to_multiset().contains(q));
            if rest.contains(q) {
                assert(before.contains(q));
                assert(expanded.contains(q.nodes.drop_last()));
            }
            if expanded.contains(q.nodes) {
                assert(expanded.contains(q.nodes.drop_last()));
            }
            assert(q.nodes != p.nodes);
        } else {
            assert(added.to_multiset().count(q) == 0);
            assert(rest.contains(q));
            assert(before.contains(q));
            assert(before.count(q) == rest.count(q) + if q == p {
                1int
            } else {
                0int
            });
            assert(q != p);
            if q.nodes == p.nodes {
                assert(q.cost == p.cost);
                assert(q.goal == p.goal);
            }
        }
    }
}

/// The routes expanded, and those of the frontier, after a route has left
/// the frontier without being expanded.
pub(crate) proof fn lemma_counted_out<N: Node>(
    before: Multiset<PathView<N>>,
    rest: Multiset<PathView<N>>,
    expanded: Set<Seq<N>>,
    expansions: int,
    p: PathView<N>,
)
    requires
        crowded(before, expanded, expansions),
        before == rest.insert(p),
    ensures
        crowded(rest, expanded, expansions),
{
    broadcast use vstd::multiset::group_multiset_properties;

    assert forall|q: PathView<N>| #[trigger] rest.contains(q) implies {
        &&& rest.count(q) == 1
        &&& !expanded.contains(q.nodes)
        &&& q.nodes.len() == 1 || expanded.contains(q.nodes.drop_last())
    } by {
        assert(before.contains(q));
        assert(before.count(q) == rest.count(q) + if q == p {
            1int
        } else {
            0int
        });
    }
}

/// The routes found differ from one another and from the routes of the
/// frontier, and each but that of the start alone extends a route that has
/// been expanded.
pub(crate) open spec fn apart<N: Node>(
    found: Seq<PathView<N>>,
    routes: Multiset<PathView<N>>,
    expanded: Set<Seq<N>>,
) -> bool {
    &&& forall|i: int|
        0 <= i < found.len() ==> (#[trigger] found[i]).nodes.len() == 1 || expanded.contains(
            found[i].nodes.drop_last(),
        )
    &&& forall|i: int, q: PathView<N>|
        0 <= i < found.len() && #[trigger] routes.contains(q) ==> q.nodes != (
        #[trigger] found[i]).nodes
    &&& forall|i: int, j: int|
        0 <= i < j < found.len() ==> (#[trigger] found[i]).nodes != (#[trigger] found[j]).nodes
}

/// The routes found, after one more route has left the frontier and joined
/// them.
pub(crate) proof fn lemma_apart_joined<N: Node>(
    g: Graph<N>,
    start: N,
    goal: N,
    before: Multiset<PathView<N>>,
    rest: Multiset<PathView<N>>,
    found: Seq<PathView<N>>,
    expanded: Set<Seq<N>>,
    expansions: int,
    p: PathView<N>,
)
    requires
        crowded(before, expanded, expansions),
        priced(g, before),
        bounded(before, start, goal, expansions),
        before == rest.insert(p),
        apart(found, before, expanded),
    ensures
        apart(found.push(p), rest, expanded),
{
    broadcast use vstd::multiset::group_multiset_properties;

    let more = found.push(p);
    assert(before.contains(p));
    assert(before.count(p) == rest.count(p) + 1);
    assert forall|i: int| 0 <= i < more.len() implies (#[trigger] more[i]).nodes.len() == 1
        || expanded.contains(more[i].nodes.drop_last()) by {
        if i < found.len() {
            assert(more[i] == found[i]);
        }
    }
    assert forall|i: int, q: PathView<N>|
        0 <= i < more.len() && #[trigger] rest.contains(q) implies q.nodes != (
    #[trigger] more[i]).nodes by {
        assert(before.contains(q));
        if i < found.len() {
            assert(more[i] == found[i]);
        } else if q.nodes == p.nodes {
            assert(q.cost == p.cost && q.goal == p.goal);
            assert(q == p);
        }
    }
    assert forall|i: int, j: int| 0 <= i < j < more.len() implies (#[trigger] more[i]).nodes != (
    #[trigger] more[j]).nodes by {
        assert(more[i] == found[i]);
        if j < found.len() {
            assert(more[j] == found[j]);
        }
    }
}

/// The routes found, after a route of the frontier has been expanded.
pub(crate) proof fn lemma_apart_expanded<N: Node>(
    before: Multiset<PathView<N>>,
    rest: Multiset<PathView<N>>,
    after: Multiset<PathView<N>>,
    found: Seq<PathView<N>>,
    expanded: Set<Seq<N>>,
    expansions: int,
    p: PathView<N>,
    neighbors: Seq<N>,
    skipped: Set<N>,
)
    requires
        crowded(before, expanded, expansions),
        before == rest.insert(p),
        p.nodes.len() > 0,
        only_extended(rest, after, p, neighbors, skipped, neighbors.len() as int),
        apart(found, before, expanded),
    ensures
        apart(found, after, expanded.insert(p.nodes)),
{
    broadcast use vstd::multiset::group_multiset_properties;

    assert(before.contains(p));
    assert forall|i: int, q: PathView<N>|
        0 <= i < found.len() && #[trigger] after.contains(q) implies q.nodes != (
    #[trigger] found[i]).nodes by {
        if rest.contains(q) {
            assert(before.contains(q));
        } else {
            let j = choose|j: int|
                0 <= j < neighbors.len() && !skipped.contains(#[trigger] neighbors[j])
                    && q.extends(p, neighbors[j]);
            assert(q.nodes.drop_last() == p.nodes);
            assert(!expanded.contains(p.nodes));
            if q.nodes == found[i].nodes {
                assert(found[i].nodes.len() == 1 || expanded.contains(found[i].nodes.drop_last()));
            }
        }
    }
}

} // verus!
