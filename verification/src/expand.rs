//! Extending a route to the neighbors of its last node.

use vstd::prelude::*;
use vstd::multiset::Multiset;
use std::collections::HashSet;
use crate::frontier::{has_incomparable, Frontier};
use crate::graph::Graph;
use crate::node::{nodes_are_keys, Node, SearchError};
use crate::path::{Path, PathView};

verus! {

/// Every route in `before` is in `after`.
pub(crate) open spec fn kept<N: Node>(
    before: Multiset<PathView<N>>,
    after: Multiset<PathView<N>>,
) -> bool {
    forall|q: PathView<N>| #[trigger] before.contains(q) ==> after.contains(q)
}

/// Every route in `after` is in `before`, or extends `from` to one of the
/// first `upto` of `neighbors` that is not in `skipped`.
pub(crate) open spec fn only_extended<N: Node>(
    before: Multiset<PathView<N>>,
    after: Multiset<PathView<N>>,
    from: PathView<N>,
    neighbors: Seq<N>,
    skipped: Set<N>,
    upto: int,
) -> bool {
    forall|q: PathView<N>| #[trigger]
        after.contains(q) ==> before.contains(q) || exists|j: int|
            0 <= j < upto && !skipped.contains(#[trigger] neighbors[j]) && q.extends(
                from,
                neighbors[j],
            )
}

/// For each of the first `upto` of `neighbors` that is not in `skipped`,
/// `after` holds a route that extends `from` to it.
pub(crate) open spec fn all_extended<N: Node>(
    after: Multiset<PathView<N>>,
    from: PathView<N>,
    neighbors: Seq<N>,
    skipped: Set<N>,
    upto: int,
) -> bool {
    forall|j: int|
        0 <= j < upto && !skipped.contains(#[trigger] neighbors[j]) ==> exists|q: PathView<N>|
            #[trigger] after.contains(q) && q.extends(from, neighbors[j])
}

/// `added` holds, in their order, one route for each of the first `upto` of
/// `neighbors` that is not in `skipped`: the route that extends `from` to it.
pub(crate) open spec fn extensions<N: Node>(
    added: Seq<PathView<N>>,
    from: PathView<N>,
    neighbors: Seq<N>,
    skipped: Set<N>,
    upto: int,
) -> bool
    decreases upto,
{
    if upto <= 0 {
        added.len() == 0
    } else if skipped.contains(neighbors[upto - 1]) {
        extensions(added, from, neighbors, skipped, upto - 1)
    } else {
        &&& added.len() > 0
        &&& added.last().extends(from, neighbors[upto - 1])
        &&& extensions(added.drop_last(), from, neighbors, skipped, upto - 1)
    }
}

/// The set `skip`, if there is one, can be asked which nodes it holds.
pub(crate) open spec fn can_skip<N: Node>(skip: Option<&HashSet<N>>) -> bool {
    skip is Some ==> nodes_are_keys::<N>()
}

/// The nodes of `skip`, or none where there is no set.
pub(crate) open spec fn skipped_nodes<N: Node>(skip: Option<&HashSet<N>>) -> Set<N> {
    match skip {
        Some(set) => set@,
        None => Set::empty(),
    }
}

/// Puts into `frontier` the route `path` extended to each of `neighbors`,
/// but for the neighbors in `skip`.
pub(crate) fn extend_all<N: Node>(
    frontier: &mut Frontier<N>,
    path: &Path<N>,
    neighbors: &Vec<N>,
    skip: Option<&HashSet<N>>,
) -> (out: (Result<(), SearchError>, Ghost<Seq<PathView<N>>>))
    requires
        old(frontier).well_formed(),
        path@.nodes.len() < usize::MAX,
    ensures
        final(frontier).well_formed(),
        kept(old(frontier)@, final(frontier)@),
        only_extended(
            old(frontier)@,
            final(frontier)@,
            path@,
            neighbors@,
            Set::<N>::empty(),
            neighbors@.len() as int,
        ),
        out.0 is Ok ==> final(frontier)@ == old(frontier)@.add(out.1@.to_multiset()),
        can_skip(skip) ==> only_extended(
            old(frontier)@,
            final(frontier)@,
            path@,
            neighbors@,
            skipped_nodes(skip),
            neighbors@.len() as int,
        ),
        can_skip(skip) && out.0 is Ok ==> extensions(
            out.1@,
            path@,
            neighbors@,
            skipped_nodes(skip),
            neighbors@.len() as int,
        ) && all_extended(
            final(frontier)@,
            path@,
            neighbors@,
            skipped_nodes(skip),
            neighbors@.len() as int,
        ),
        out.0 is Err ==> out.0 == Err::<(), SearchError>(SearchError::IncomparableCosts)
            && forall|g: Graph<N>| #[trigger]
            g.describes() ==> has_incomparable(g, final(frontier)@),
{
    let ghost skipped = skipped_nodes(skip);
    let ghost none = Set::<N>::empty();
    let ghost mut added: Seq<PathView<N>> = Seq::empty();
    let mut k: usize = 0;
    proof {
        broadcast use vstd::seq_lib::group_to_multiset_ensures;
        broadcast use vstd::multiset::group_multiset_axioms;

        assert(added.to_multiset().len() == 0);
        assert(frontier@ =~= frontier@.add(added.to_multiset()));
    }
    while k < neighbors.len()
        invariant
            k <= neighbors@.len(),
            frontier.well_formed(),
            path@.nodes.len() < usize::MAX,
            skipped == skipped_nodes(skip),
            none == Set::<N>::empty(),
            frontier@ == old(frontier)@.add(added.to_multiset()),
            kept(old(frontier)@, frontier@),
            only_extended(old(frontier)@, frontier@, path@, neighbors@, none, k as int),
            can_skip(skip) ==> extensions(added, path@, neighbors@, skipped, k as int),
            can_skip(skip) ==> only_extended(
                old(frontier)@,
                frontier@,
                path@,
                neighbors@,
                skipped,
                k as int,
            ),
            can_skip(skip) ==> all_extended(frontier@, path@, neighbors@, skipped, k as int),
        decreases neighbors@.len() - k,
    {
        let next = neighbors[k];
        let wanted = match skip {
            Some(set) => !set.contains(&next),
            None => true,
        };
        if wanted {
            let longer = path.next_move(next);
            let ghost before = frontier@;
            let pushed = frontier.push(longer);
            proof {
                broadcast use vstd::multiset::group_multiset_properties;

                assert(frontier@ == old(frontier)@.add(added.push(longer@).to_multiset())) by {
                    broadcast use vstd::seq_lib::group_to_multiset_ensures;
                    broadcast use vstd::multiset::group_multiset_axioms;

                    assert(frontier@ =~= old(frontier)@.add(added.push(longer@).to_multiset()));
                }
                assert(added.push(longer@).drop_last() == added);
                added = added.push(longer@);

                assert(only_extended(
                    old(frontier)@,
                    frontier@,
                    path@,
                    neighbors@,
                    none,
                    k + 1,
                )) by {
                    assert forall|q: PathView<N>| #[trigger] frontier@.contains(q) implies old(
                        frontier,
                    )@.contains(q) || exists|j: int|
                        0 <= j < k + 1 && !none.contains(#[trigger] neighbors@[j]) && q.extends(
                            path@,
                            neighbors@[j],
                        ) by {
                        if q == longer@ {
                            assert(!none.contains(neighbors@[k as int]));
                        } else {
                            assert(before.contains(q));
                        }
                    }
                }
                assert(can_skip(skip) ==> only_extended(
                    old(frontier)@,
                    frontier@,
                    path@,
                    neighbors@,
                    skipped,
                    k + 1,
                )) by {
                    if can_skip(skip) {
                        assert forall|q: PathView<N>| #[trigger] frontier@.contains(q) implies old(
                            frontier,
                        )@.contains(q) || exists|j: int|
                            0 <= j < k + 1 && !skipped.contains(#[trigger] neighbors@[j])
                                && q.extends(path@, neighbors@[j]) by {
                            if q == longer@ {
                                assert(!skipped.contains(neighbors@[k as int]));
                            } else {
                                assert(before.contains(q));
                            }
                        }
                    }
                }
                assert(can_skip(skip) ==> all_extended(
                    frontier@,
                    path@,
                    neighbors@,
                    skipped,
                    k + 1,
                )) by {
                    if can_skip(skip) {
                        assert forall|j: int|
                            0 <= j < k + 1 && !skipped.contains(
                                #[trigger] neighbors@[j],
                            ) implies exists|q: PathView<N>| #[trigger]
                            frontier@.contains(q) && q.extends(path@, neighbors@[j]) by {
                            if j == k {
                                assert(frontier@.contains(longer@));
                            } else {
                                let q = choose|q: PathView<N>| #[trigger]
                                    before.contains(q) && q.extends(path@, neighbors@[j]);
                                assert(frontier@.contains(q));
                            }
                        }
                    }
                }
            }
            match pushed {
                Ok(()) => {},
                Err(error) => {
                    proof {
                        lemma_more_neighbors(
                            old(frontier)@,
                            frontier@,
                            path@,
                            neighbors@,
                            none,
                            k + 1,
                        );
                        if can_skip(skip) {
                            lemma_more_neighbors(
                                old(frontier)@,
                                frontier@,
                                path@,
                                neighbors@,
                                skipped,
                                k + 1,
                            );
                        }
                    }
                    return (Err(error), Ghost(added));
                },
            }
        } else {
            proof {
                assert(can_skip(skip) ==> skipped.contains(neighbors@[k as int]));
                lemma_neighbor_passed(
                    old(frontier)@,
                    frontier@,
                    path@,
                    neighbors@,
                    none,
                    k as int,
                );
            }
        }
        k = k + 1;
    }
    (Ok(()), Ghost(added))
}

/// What holds of the first few neighbors holds with one more neighbor, to
/// which no route was added.
pub(crate) proof fn lemma_neighbor_passed<N: Node>(
    before: Multiset<PathView<N>>,
    after: Multiset<PathView<N>>,
    from: PathView<N>,
    neighbors: Seq<N>,
    skipped: Set<N>,
    upto: int,
)
    requires
        only_extended(before, after, from, neighbors, skipped, upto),
    ensures
        only_extended(before, after, from, neighbors, skipped, upto + 1),
{
    assert forall|q: PathView<N>| #[trigger] after.contains(q) implies before.contains(q)
        || exists|j: int|
        0 <= j < upto + 1 && !skipped.contains(#[trigger] neighbors[j]) && q.extends(
            from,
            neighbors[j],
        ) by {
        if !before.contains(q) {
            let j = choose|j: int|
                0 <= j < upto && !skipped.contains(#[trigger] neighbors[j]) && q.extends(
                    from,
                    neighbors[j],
                );
            assert(0 <= j < upto + 1);
        }
    }
}

/// What holds of the first few neighbors holds of them all.
pub(crate) proof fn lemma_more_neighbors<N: Node>(
    before: Multiset<PathView<N>>,
    after: Multiset<PathView<N>>,
    from: PathView<N>,
    neighbors: Seq<N>,
    skipped: Set<N>,
    upto: int,
)
    requires
        only_extended(before, after, from, neighbors, skipped, upto),
        upto <= neighbors.len(),
    ensures
        only_extended(before, after, from, neighbors, skipped, neighbors.len() as int),
{
    assert forall|q: PathView<N>| #[trigger] after.contains(q) implies before.contains(q)
        || exists|j: int|
        0 <= j < neighbors.len() && !skipped.contains(#[trigger] neighbors[j]) && q.extends(
            from,
            neighbors[j],
        ) by {
        if !before.contains(q) {
            let j = choose|j: int|
                0 <= j < upto && !skipped.contains(#[trigger] neighbors[j]) && q.extends(
                    from,
                    neighbors[j],
                );
            assert(0 <= j < neighbors.len());
        }
    }
}

/// Where no neighbor comes twice, the routes added for the neighbors of a
/// node differ, and each of them extends the route to that node.
pub(crate) proof fn lemma_extensions<N: Node>(
    added: Seq<PathView<N>>,
    from: PathView<N>,
    neighbors: Seq<N>,
    skipped: Set<N>,
    upto: int,
)
    requires
        extensions(added, from, neighbors, skipped, upto),
        0 <= upto <= neighbors.len(),
        neighbors.no_duplicates(),
    ensures
        added.no_duplicates(),
        forall|i: int|
            0 <= i < added.len() ==> exists|j: int|
                0 <= j < upto && (#[trigger] added[i]).nodes == from.nodes.push(
                    #[trigger] neighbors[j],
                ),
    decreases upto,
{
    if upto <= 0 {
    } else if skipped.contains(neighbors[upto - 1]) {
        lemma_extensions(added, from, neighbors, skipped, upto - 1);
    } else {
        let earlier = added.drop_last();
        lemma_extensions(earlier, from, neighbors, skipped, upto - 1);
        assert forall|i: int| 0 <= i < added.len() implies exists|j: int|
            0 <= j < upto && (#[trigger] added[i]).nodes == from.nodes.push(
                #[trigger] neighbors[j],
            ) by {
            if i < earlier.len() {
                assert(added[i] == earlier[i]);
                let j = choose|j: int|
                    0 <= j < upto - 1 && earlier[i].nodes == from.nodes.push(
                        #[trigger] neighbors[j],
                    );
                assert(0 <= j < upto && added[i].nodes == from.nodes.push(neighbors[j]));
            } else {
                assert(added[i].nodes == from.nodes.push(neighbors[upto - 1]));
            }
        }
        assert forall|i: int, k: int| 0 <= i < added.len() && 0 <= k < added.len() && i
            != k implies added[i] != added[k] by {
            if i < earlier.len() && k < earlier.len() {
                assert(earlier[i] != earlier[k]);
            } else {
                let low = if i < k {
                    i
                } else {
                    k
                };
                let j = choose|j: int|
                    0 <= j < upto - 1 && earlier[low].nodes == from.nodes.push(
                        #[trigger] neighbors[j],
                    );
                assert(from.nodes.push(neighbors[j]).last() == neighbors[j]);
                assert(from.nodes.push(neighbors[upto - 1]).last() == neighbors[upto - 1]);
                assert(neighbors[j] != neighbors[upto - 1]);
            }
        }
    }
}

} // verus!
