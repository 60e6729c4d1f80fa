//! The frontier of a search: the routes still to be explored, cheapest
//! estimated total first.
//!
//! The routes are kept in a binary heap, laid out in a vector. Routes with
//! equal estimates leave in no particular order.

use vstd::prelude::*;
use vstd::multiset::Multiset;
use crate::graph::Graph;
use crate::node::{CostOrdering, Node, SearchError};
use crate::path::{Path, PathView};

verus! {

/// What the routes in `items` stand for, in the same order.
pub open spec fn views<N: Node>(items: Seq<Path<N>>) -> Seq<PathView<N>> {
    items.map_values(|path: Path<N>| path@)
}

/// The slot above slot `i` in the heap.
pub open spec fn parent(i: int) -> int {
    (i - 1) / 2
}

/// No route in `routes` has a lower estimate than `least`.
pub open spec fn is_least<N: Node>(
    g: Graph<N>,
    least: PathView<N>,
    routes: Multiset<PathView<N>>,
) -> bool {
    forall|other: PathView<N>| #[trigger]
        routes.contains(other) ==> g.le(least.estimate(g), other.estimate(g))
}

/// The estimate of `route` cannot be ordered against that of any of the
/// `routes`.
pub open spec fn has_no_order<N: Node>(
    g: Graph<N>,
    route: PathView<N>,
    routes: Multiset<PathView<N>>,
) -> bool {
    forall|other: PathView<N>| #[trigger]
        routes.contains(other) ==> (g.compare)(route.estimate(g), other.estimate(g))
            is Incomparable
}

/// Two of the routes have estimates that cannot be ordered.
pub open spec fn has_incomparable<N: Node>(g: Graph<N>, routes: Multiset<PathView<N>>) -> bool {
    exists|a: PathView<N>, b: PathView<N>|
        #![trigger routes.contains(a), routes.contains(b)]
        routes.contains(a) && routes.contains(b) && (g.compare)(a.estimate(g), b.estimate(g))
            is Incomparable
}

/// Every slot holds a route that is estimated at least as high as the one
/// above it.
spec fn ordered<N: Node>(g: Graph<N>, s: Seq<PathView<N>>) -> bool {
    forall|j: int| 0 < j < s.len() ==> g.le(s[parent(j)].estimate(g), (#[trigger] s[j]).estimate(g))
}

/// The heap is in order but for the route in slot `i`, which may belong
/// higher up.
spec fn rising<N: Node>(g: Graph<N>, s: Seq<PathView<N>>, i: int) -> bool {
    &&& forall|j: int|
        0 < j < s.len() && j != i ==> g.le(
            s[parent(j)].estimate(g),
            (#[trigger] s[j]).estimate(g),
        )
    &&& forall|j: int|
        0 < j < s.len() && parent(j) == i && i > 0 ==> g.le(
            s[parent(i)].estimate(g),
            (#[trigger] s[j]).estimate(g),
        )
}

/// The heap is in order but for the route in slot `i`, which may belong
/// lower down.
spec fn sinking<N: Node>(g: Graph<N>, s: Seq<PathView<N>>, i: int) -> bool {
    &&& forall|j: int|
        0 < j < s.len() && parent(j) != i ==> g.le(
            s[parent(j)].estimate(g),
            (#[trigger] s[j]).estimate(g),
        )
    &&& forall|j: int|
        0 < j < s.len() && parent(j) == i && i > 0 ==> g.le(
            s[parent(i)].estimate(g),
            (#[trigger] s[j]).estimate(g),
        )
}

/// `s` with the routes in slots `a` and `b` exchanged.
spec fn exchanged<A>(s: Seq<A>, a: int, b: int) -> Seq<A> {
    s.update(a, s[b]).update(b, s[a])
}

proof fn lemma_exchanged_views<N: Node>(items: Seq<Path<N>>, a: int, b: int)
    requires
        0 <= a < items.len(),
        0 <= b < items.len(),
    ensures
        views(exchanged(items, a, b)) == exchanged(views(items), a, b),
        exchanged(views(items), a, b).to_multiset() == views(items).to_multiset(),
{
    let s = views(items);
    assert(views(exchanged(items, a, b)) =~= exchanged(s, a, b));
    broadcast use vstd::seq_lib::group_to_multiset_ensures;
    broadcast use vstd::multiset::group_multiset_properties;
    broadcast use vstd::multiset::group_multiset_axioms;

    let mid = s.update(a, s[b]);
    assert(mid.to_multiset() == s.to_multiset().insert(s[b]).remove(s[a]));
    assert(mid[b] == if a == b { s[b] } else { s[b] });
    assert(exchanged(s, a, b).to_multiset() == mid.to_multiset().insert(s[a]).remove(mid[b]));
    assert(s.contains(s[a]) && s.contains(s[b]));
    assert(exchanged(s, a, b).to_multiset() =~= s.to_multiset());
}

/// In an ordered heap no route is estimated lower than the one in slot 0.
proof fn lemma_root_is_least<N: Node>(g: Graph<N>, s: Seq<PathView<N>>, j: int)
    requires
        g.ordered_costs(),
        ordered(g, s),
        0 <= j < s.len(),
    ensures
        g.le(s[0].estimate(g), s[j].estimate(g)),
    decreases j,
{
    if j == 0 {
        g.lemma_le_reflexive(s[0].estimate(g));
    } else {
        lemma_root_is_least(g, s, parent(j));
        g.lemma_le_transitive(s[0].estimate(g), s[parent(j)].estimate(g), s[j].estimate(g));
    }
}

/// The route in slot `i` is estimated lower than the one above it: once the
/// two are exchanged, only the slot above may still be out of place.
proof fn lemma_rise<N: Node>(g: Graph<N>, s: Seq<PathView<N>>, i: int)
    requires
        g.ordered_costs(),
        rising(g, s, i),
        0 < i < s.len(),
        (g.compare)(s[i].estimate(g), s[parent(i)].estimate(g)) is Less,
    ensures
        rising(g, exchanged(s, i, parent(i)), parent(i)),
{
    let up = parent(i);
    let t = exchanged(s, i, up);
    assert forall|j: int| 0 < j < t.len() && j != up implies g.le(
        t[parent(j)].estimate(g),
        (#[trigger] t[j]).estimate(g),
    ) by {
        if j == i {
        } else if parent(j) == up {
            assert(g.le(s[up].estimate(g), s[j].estimate(g)));
            g.lemma_le_transitive(s[i].estimate(g), s[up].estimate(g), s[j].estimate(g));
        } else if parent(j) == i {
            assert(g.le(s[up].estimate(g), s[j].estimate(g)));
        } else {
            assert(g.le(s[parent(j)].estimate(g), s[j].estimate(g)));
        }
    }
    assert forall|j: int| 0 < j < t.len() && parent(j) == up && up > 0 implies g.le(
        t[parent(up)].estimate(g),
        (#[trigger] t[j]).estimate(g),
    ) by {
        assert(g.le(s[parent(up)].estimate(g), s[up].estimate(g)));
        if j != i {
            assert(g.le(s[up].estimate(g), s[j].estimate(g)));
            g.lemma_le_transitive(
                s[parent(up)].estimate(g),
                s[up].estimate(g),
                s[j].estimate(g),
            );
        }
    }
}

/// The route in slot `i` is not estimated lower than the one above it: the
/// heap is in order.
proof fn lemma_risen<N: Node>(g: Graph<N>, s: Seq<PathView<N>>, i: int)
    requires
        g.ordered_costs(),
        rising(g, s, i),
        0 <= i < s.len(),
        i > 0 ==> !((g.compare)(s[i].estimate(g), s[parent(i)].estimate(g)) is Less),
    ensures
        ordered(g, s),
{
    if i > 0 {
        g.lemma_le_total(s[parent(i)].estimate(g), s[i].estimate(g));
    }
    assert forall|j: int| 0 < j < s.len() implies g.le(
        s[parent(j)].estimate(g),
        (#[trigger] s[j]).estimate(g),
    ) by {}
}

/// The route in slot `child`, the lowest estimated below slot `i`, is
/// estimated lower than the one in slot `i`: once the two are exchanged, only
/// slot `child` may still be out of place.
proof fn lemma_sink<N: Node>(g: Graph<N>, s: Seq<PathView<N>>, i: int, child: int)
    requires
        g.ordered_costs(),
        sinking(g, s, i),
        0 <= i < child < s.len(),
        parent(child) == i,
        (g.compare)(s[child].estimate(g), s[i].estimate(g)) is Less,
        forall|j: int|
            0 < j < s.len() && parent(j) == i ==> g.le(
                s[child].estimate(g),
                (#[trigger] s[j]).estimate(g),
            ),
    ensures
        sinking(g, exchanged(s, i, child), child),
{
    let t = exchanged(s, i, child);
    assert forall|j: int| 0 < j < t.len() && parent(j) != child implies g.le(
        t[parent(j)].estimate(g),
        (#[trigger] t[j]).estimate(g),
    ) by {
        if j == child {
        } else if parent(j) == i {
            assert(g.le(s[child].estimate(g), s[j].estimate(g)));
        } else if j == i {
            assert(g.le(s[parent(i)].estimate(g), s[child].estimate(g)));
        } else {
            assert(g.le(s[parent(j)].estimate(g), s[j].estimate(g)));
        }
    }
    assert forall|j: int| 0 < j < t.len() && parent(j) == child && child > 0 implies g.le(
        t[parent(child)].estimate(g),
        (#[trigger] t[j]).estimate(g),
    ) by {
        assert(g.le(s[child].estimate(g), s[j].estimate(g)));
    }
}

/// No route below slot `i` is estimated lower than the one in slot `i`: the
/// heap is in order.
proof fn lemma_sunk<N: Node>(g: Graph<N>, s: Seq<PathView<N>>, i: int)
    requires
        g.ordered_costs(),
        sinking(g, s, i),
        0 <= i < s.len(),
        forall|j: int|
            0 < j < s.len() && parent(j) == i ==> g.le(
                s[i].estimate(g),
                (#[trigger] s[j]).estimate(g),
            ),
    ensures
        ordered(g, s),
{
    assert forall|j: int| 0 < j < s.len() implies g.le(
        s[parent(j)].estimate(g),
        (#[trigger] s[j]).estimate(g),
    ) by {}
}

/// The two routes in slots `a` and `b` are among the routes of the heap.
proof fn lemma_slots_are_members<N: Node>(items: Seq<Path<N>>, a: int, b: int)
    requires
        0 <= a < items.len(),
        0 <= b < items.len(),
    ensures
        views(items).to_multiset().contains(items[a]@),
        views(items).to_multiset().contains(items[b]@),
{
    broadcast use vstd::seq_lib::group_to_multiset_ensures;

    let s = views(items);
    assert(s[a] == items[a]@ && s[b] == items[b]@);
    assert(s.contains(s[a]) && s.contains(s[b]));
}

/// Moves the route in slot `from` up to where it belongs.
fn sift_up<N: Node>(items: &mut Vec<Path<N>>, from: usize) -> (result: Result<(), SearchError>)
    requires
        from < old(items)@.len(),
        forall|g: Graph<N>| #[trigger] g.orders() ==> rising(g, views(old(items)@), from as int),
    ensures
        views(final(items)@).to_multiset() == views(old(items)@).to_multiset(),
        result is Ok ==> forall|g: Graph<N>| #[trigger]
            g.orders() ==> ordered(g, views(final(items)@)),
        result is Err ==> result == Err::<(), SearchError>(SearchError::IncomparableCosts)
            && forall|g: Graph<N>| #[trigger]
            g.describes() ==> has_incomparable(g, views(old(items)@).to_multiset()),
        from == 0 ==> result is Ok,
        forall|g: Graph<N>|
            #[trigger] g.describes() && from > 0 && (g.compare)(
                old(items)@[from as int]@.estimate(g),
                old(items)@[parent(from as int)]@.estimate(g),
            ) is Incomparable ==> result is Err,
{
    let mut i = from;
    while i > 0
        invariant
            i < items@.len(),
            i <= from,
            views(items@).to_multiset() == views(old(items)@).to_multiset(),
            forall|g: Graph<N>| #[trigger] g.orders() ==> rising(g, views(items@), i as int),
            i == from ==> items@ == old(items)@,
            i < from ==> forall|g: Graph<N>| #[trigger]
                g.describes() ==> !((g.compare)(
                    old(items)@[from as int]@.estimate(g),
                    old(items)@[parent(from as int)]@.estimate(g),
                ) is Incomparable),
        decreases i,
    {
        let up = (i - 1) / 2;
        let order = items[i].compare(&items[up]);
        let ghost before = items@;
        match order {
            CostOrdering::Less => {
                items.swap(i, up);
                proof {
                    lemma_exchanged_views(before, i as int, up as int);
                    assert(items@ == exchanged(before, i as int, up as int));
                    assert forall|g: Graph<N>| #[trigger] g.orders() implies rising(
                        g,
                        views(items@),
                        up as int,
                    ) by {
                        lemma_rise(g, views(before), i as int);
                    }
                }
                i = up;
            },
            CostOrdering::Incomparable => {
                proof {
                    lemma_slots_are_members(before, i as int, up as int);
                    assert forall|g: Graph<N>| #[trigger] g.describes() implies has_incomparable(
                        g,
                        views(old(items)@).to_multiset(),
                    ) by {
                        let m = views(old(items)@).to_multiset();
                        assert(m.contains(before[i as int]@) && m.contains(before[up as int]@));
                    }
                }
                return Err(SearchError::IncomparableCosts);
            },
            _ => {
                proof {
                    assert forall|g: Graph<N>| #[trigger] g.orders() implies ordered(
                        g,
                        views(items@),
                    ) by {
                        lemma_risen(g, views(items@), i as int);
                    }
                }
                return Ok(());
            },
        }
    }
    proof {
        assert forall|g: Graph<N>| #[trigger] g.orders() implies ordered(g, views(items@)) by {
            lemma_risen(g, views(items@), 0);
        }
    }
    Ok(())
}

/// Moves the route in slot 0 down to where it belongs.
fn sift_down<N: Node>(items: &mut Vec<Path<N>>) -> (result: Result<(), SearchError>)
    requires
        old(items)@.len() > 0,
        forall|g: Graph<N>| #[trigger] g.orders() ==> sinking(g, views(old(items)@), 0),
    ensures
        views(final(items)@).to_multiset() == views(old(items)@).to_multiset(),
        result is Ok ==> forall|g: Graph<N>| #[trigger]
            g.orders() ==> ordered(g, views(final(items)@)),
        result is Err ==> result == Err::<(), SearchError>(SearchError::IncomparableCosts)
            && forall|g: Graph<N>| #[trigger]
            g.describes() ==> has_incomparable(g, views(old(items)@).to_multiset()),
        old(items)@.len() == 1 ==> result is Ok,
{
    let n = items.len();
    let mut i: usize = 0;
    while i + 1 < n - i
        invariant
            n == items@.len(),
            n == old(items)@.len(),
            i < n,
            views(items@).to_multiset() == views(old(items)@).to_multiset(),
            forall|g: Graph<N>| #[trigger] g.orders() ==> sinking(g, views(items@), i as int),
        decreases n - i,
    {
        let left = 2 * i + 1;
        let right = left + 1;
        let ghost before = items@;
        let mut child = left;
        if right < n {
            match items[right].compare(&items[left]) {
                CostOrdering::Less => {
                    child = right;
                },
                CostOrdering::Incomparable => {
                    proof {
                        lemma_slots_are_members(before, right as int, left as int);
                        assert forall|g: Graph<N>| #[trigger]
                            g.describes() implies has_incomparable(
                            g,
                            views(old(items)@).to_multiset(),
                        ) by {
                            let m = views(old(items)@).to_multiset();
                            assert(m.contains(before[right as int]@) && m.contains(
                                before[left as int]@,
                            ));
                        }
                    }
                    return Err(SearchError::IncomparableCosts);
                },
                _ => {},
            }
        }
        proof {
            assert forall|g: Graph<N>| #[trigger] g.orders() implies (forall|j: int|
                0 < j < n && parent(j) == i ==> g.le(
                    views(before)[child as int].estimate(g),
                    (#[trigger] views(before)[j]).estimate(g),
                )) by {
                let s = views(before);
                assert forall|j: int| 0 < j < n && parent(j) == i implies g.le(
                    s[child as int].estimate(g),
                    (#[trigger] s[j]).estimate(g),
                ) by {
                    assert(j == left || j == right);
                    g.lemma_le_reflexive(s[child as int].estimate(g));
                    if right < n {
                        g.lemma_le_total(s[left as int].estimate(g), s[right as int].estimate(g));
                    }
                }
            }
        }
        match items[child].compare(&items[i]) {
            CostOrdering::Less => {
                items.swap(i, child);
                proof {
                    lemma_exchanged_views(before, i as int, child as int);
                    assert(items@ == exchanged(before, i as int, child as int));
                    assert forall|g: Graph<N>| #[trigger] g.orders() implies sinking(
                        g,
                        views(items@),
                        child as int,
                    ) by {
                        lemma_sink(g, views(before), i as int, child as int);
                    }
                }
                i = child;
            },
            CostOrdering::Incomparable => {
                proof {
                    lemma_slots_are_members(before, child as int, i as int);
                    assert forall|g: Graph<N>| #[trigger] g.describes() implies has_incomparable(
                        g,
                        views(old(items)@).to_multiset(),
                    ) by {
                        let m = views(old(items)@).to_multiset();
                        assert(m.contains(before[child as int]@) && m.contains(before[i as int]@));
                    }
                }
                return Err(SearchError::IncomparableCosts);
            },
            _ => {
                proof {
                    assert forall|g: Graph<N>| #[trigger] g.orders() implies ordered(
                        g,
                        views(items@),
                    ) by {
                        let s = views(items@);
                        g.lemma_le_total(s[i as int].estimate(g), s[child as int].estimate(g));
                        assert forall|j: int| 0 < j < s.len() && parent(j) == i implies g.le(
                            s[i as int].estimate(g),
                            (#[trigger] s[j]).estimate(g),
                        ) by {
                            g.lemma_le_transitive(
                                s[i as int].estimate(g),
                                s[child as int].estimate(g),
                                s[j].estimate(g),
                            );
                        }
                        lemma_sunk(g, s, i as int);
                    }
                }
                return Ok(());
            },
        }
    }
    proof {
        assert forall|g: Graph<N>| #[trigger] g.orders() implies ordered(g, views(items@)) by {
            lemma_sunk(g, views(items@), i as int);
        }
    }
    Ok(())
}

/// The routes that a search has still to explore.
pub struct Frontier<N: Node> {
    items: Vec<Path<N>>,
}

impl<N: Node> View for Frontier<N> {
    type V = Multiset<PathView<N>>;

    closed spec fn view(&self) -> Multiset<PathView<N>> {
        views(self.items@).to_multiset()
    }
}

impl<N: Node> Frontier<N> {
    /// The routes are laid out as a heap: wherever the costs are totally
    /// ordered, no route is estimated lower than the one in the slot above
    /// it.
    pub closed spec fn well_formed(self) -> bool {
        forall|g: Graph<N>| #[trigger] g.orders() ==> ordered(g, views(self.items@))
    }

    /// A frontier without routes.
    pub fn new() -> (frontier: Self)
        ensures
            frontier.well_formed(),
            frontier@ == Multiset::<PathView<N>>::empty(),
    {
        let frontier = Frontier { items: Vec::new() };
        proof {
            assert(views(frontier.items@) =~= Seq::<PathView<N>>::empty());
            assert(views(frontier.items@).to_multiset() =~= Multiset::<PathView<N>>::empty()) by {
                broadcast use vstd::seq_lib::group_to_multiset_ensures;
                broadcast use vstd::multiset::group_multiset_axioms;

                assert(views(frontier.items@).to_multiset().len() == 0);
            }
        }
        frontier
    }

    /// The number of routes in the frontier.
    pub fn len(&self) -> (count: usize)
        ensures
            count == self@.len(),
    {
        proof {
            broadcast use vstd::seq_lib::group_to_multiset_ensures;

        }
        self.items.len()
    }

    /// Adds `path` to the frontier.
    ///
    /// Fails when the estimate of `path` cannot be ordered against that of a
    /// route above it in the heap; the route is then in the frontier all
    /// the same. A route whose estimate has no order at all, as one that is
    /// not a number, never enters a frontier that holds other routes without
    /// this failure.
    pub fn push(&mut self, path: Path<N>) -> (result: Result<(), SearchError>)
        requires
            old(self).well_formed(),
        ensures
            final(self).well_formed(),
            final(self)@ == old(self)@.insert(path@),
            old(self)@.len() == 0 ==> result is Ok,
            result is Err ==> result == Err::<(), SearchError>(SearchError::IncomparableCosts)
                && forall|g: Graph<N>| #[trigger]
                g.describes() ==> has_incomparable(g, final(self)@),
            forall|g: Graph<N>|
                #[trigger] g.describes() && old(self)@.len() > 0 && has_no_order(
                    g,
                    path@,
                    old(self)@,
                ) ==> result is Err,
    {
        proof {
            broadcast use vstd::seq_lib::group_to_multiset_ensures;

        }
        let ghost before = self.items@;
        let at = self.items.len();
        self.items.push(path);
        proof {
            assert(views(self.items@) =~= views(before).push(path@));
            assert forall|g: Graph<N>| #[trigger] g.orders() implies rising(
                g,
                views(self.items@),
                at as int,
            ) by {
                let s = views(self.items@);
                assert(ordered(g, views(before)));
                assert forall|j: int| 0 < j < s.len() && j != at implies g.le(
                    s[parent(j)].estimate(g),
                    (#[trigger] s[j]).estimate(g),
                ) by {
                    assert(s[j] == views(before)[j]);
                }
            }
        }
        let ghost pushed = self.items@;
        let result = sift_up(&mut self.items, at);
        proof {
            if result is Err {
                lemma_no_order(self.items@);
            }
            assert forall|g: Graph<N>|
                #[trigger] g.describes() && before.len() > 0 && has_no_order(
                    g,
                    path@,
                    views(before).to_multiset(),
                ) implies result is Err by {
                lemma_slots_are_members(before, parent(at as int), parent(at as int));
                assert(pushed[at as int]@ == path@);
                assert(pushed[parent(at as int)] == before[parent(at as int)]);
            }
        }
        result
    }

    /// Takes a route with the lowest estimate out of the frontier, or
    /// returns `None` when the frontier is empty.
    ///
    /// Fails when two estimates that had to be ordered to restore the heap
    /// cannot be; the route taken out is then lost.
    pub fn pop(&mut self) -> (result: Result<Option<Path<N>>, SearchError>)
        requires
            old(self).well_formed(),
        ensures
            final(self).well_formed(),
            match result {
                Ok(None) => old(self)@.len() == 0 && final(self)@ == old(self)@,
                Ok(Some(path)) => {
                    &&& old(self)@ == final(self)@.insert(path@)
                    &&& forall|g: Graph<N>| #[trigger] g.orders() ==> is_least(g, path@, old(self)@)
                },
                Err(error) => {
                    &&& error == SearchError::IncomparableCosts
                    &&& forall|g: Graph<N>| #[trigger]
                        g.describes() ==> has_incomparable(g, old(self)@)
                },
            },
            old(self)@.len() <= 1 ==> result is Ok,
    {
        proof {
            broadcast use vstd::seq_lib::group_to_multiset_ensures;

        }
        if self.items.len() == 0 {
            return Ok(None);
        }
        let ghost before = self.items@;
        let top = self.items.swap_remove(0);
        proof {
            lemma_taken(before);
            assert(self.items@ == before.update(0, before.last()).drop_last());
            assert forall|g: Graph<N>| #[trigger] g.orders() implies is_least(
                g,
                top@,
                views(before).to_multiset(),
            ) by {
                let s = views(before);
                assert forall|other: PathView<N>| #[trigger]
                    s.to_multiset().contains(other) implies g.le(
                    top@.estimate(g),
                    other.estimate(g),
                ) by {
                    assert(s.contains(other));
                    let j = choose|j: int| 0 <= j < s.len() && s[j] == other;
                    lemma_root_is_least(g, s, j);
                }
            }
        }
        if self.items.len() == 0 {
            return Ok(Some(top));
        }
        proof {
            assert forall|g: Graph<N>| #[trigger] g.orders() implies sinking(
                g,
                views(self.items@),
                0,
            ) by {
                let s = views(before);
                let t = views(self.items@);
                assert(ordered(g, s));
                assert forall|j: int| 0 < j < t.len() && parent(j) != 0 implies g.le(
                    t[parent(j)].estimate(g),
                    (#[trigger] t[j]).estimate(g),
                ) by {
                    assert(t[j] == s[j]);
                    assert(t[parent(j)] == s[parent(j)]);
                }
            }
        }
        match sift_down(&mut self.items) {
            Ok(()) => Ok(Some(top)),
            Err(error) => {
                proof {
                    lemma_no_order(self.items@);
                    assert forall|g: Graph<N>| #[trigger] g.describes() implies has_incomparable(
                        g,
                        views(before).to_multiset(),
                    ) by {
                        let rest = views(self.items@).to_multiset();
                        assert(has_incomparable(g, rest));
                        let (a, b) = choose|a: PathView<N>, b: PathView<N>|
                            #![trigger rest.contains(a), rest.contains(b)]
                            rest.contains(a) && rest.contains(b) && (g.compare)(
                                a.estimate(g),
                                b.estimate(g),
                            ) is Incomparable;
                        let all = views(before).to_multiset();
                        assert(all.contains(a) && all.contains(b)) by {
                            broadcast use vstd::multiset::group_multiset_properties;

                        }
                    }
                }
                Err(error)
            },
        }
    }
}

/// Where two of the routes cannot be ordered, no graph that describes the
/// node type has totally ordered costs.
proof fn lemma_no_order<N: Node>(items: Seq<Path<N>>)
    requires
        forall|g: Graph<N>| #[trigger]
            g.describes() ==> has_incomparable(g, views(items).to_multiset()),
    ensures
        forall|g: Graph<N>| !#[trigger] g.orders(),
{
    assert forall|g: Graph<N>| !#[trigger] g.orders() by {
        if g.orders() {
            assert(g.describes());
            assert(has_incomparable(g, views(items).to_multiset()));
        }
    }
}

/// Taking the route in slot 0 out of a heap, and putting the last route in
/// its place, leaves all the routes but that one.
proof fn lemma_taken<N: Node>(items: Seq<Path<N>>)
    requires
        items.len() > 0,
    ensures
        views(items).to_multiset() == views(
            items.update(0, items.last()).drop_last(),
        ).to_multiset().insert(items[0]@),
{
    broadcast use vstd::seq_lib::group_to_multiset_ensures;
    broadcast use vstd::multiset::group_multiset_properties;
    broadcast use vstd::multiset::group_multiset_axioms;

    let s = views(items);
    let n = s.len() as int;
    let moved = s.update(0, s.last());
    let rest = views(items.update(0, items.last()).drop_last());
    assert(rest =~= moved.drop_last());
    assert(moved.drop_last() =~= moved.remove(n - 1));
    assert(moved.to_multiset() == s.to_multiset().insert(s.last()).remove(s[0]));
    assert(moved.remove(n - 1).to_multiset() == moved.to_multiset().remove(moved[n - 1]));
    assert(s.contains(s[0]) && s.contains(s.last()));
    assert(s.to_multiset() =~= rest.to_multiset().insert(s[0]));
}

} // verus!
