//! The mathematical model of a node type: a weighted graph with a heuristic.

use vstd::prelude::*;
use crate::node::{nodes_are_values, CostOrdering, Node};

verus! {

/// A description of a node type `N` as a weighted, directed graph.
///
/// A graph is a ghost value. It names what each method of [`Node`] returns,
/// so that the contracts of the search can speak of walks and of their costs.
#[verifier::reject_recursive_types(N)]
pub struct Graph<N: Node> {
    /// The nodes adjacent to a node, in the order in which they are produced.
    pub neighbors: spec_fn(N) -> Seq<N>,
    /// The cost of the move between two nodes.
    pub step_cost: spec_fn(N, N) -> N::Cost,
    /// The estimated cost from a node (first) to a goal (second).
    pub estimate: spec_fn(N, N) -> N::Cost,
    /// The cost of a route with no moves.
    pub zero: N::Cost,
    /// The sum of two costs.
    pub sum: spec_fn(N::Cost, N::Cost) -> N::Cost,
    /// The order of two costs.
    pub compare: spec_fn(N::Cost, N::Cost) -> CostOrdering,
    /// Which costs are finite. Where no sum is ever cut off, every cost is;
    /// where a sum that would grow too large is cut off at a highest cost,
    /// the costs below that one are. The node type does not decide this: it
    /// is for whoever describes the node type to say.
    pub finite: spec_fn(N::Cost) -> bool,
}

impl<N: Node> Graph<N> {
    /// This graph describes the node type: nodes are compared as the values
    /// that they are, and whatever a method of `N` returns is what the graph
    /// says it returns.
    pub open spec fn describes(self) -> bool {
        &&& nodes_are_values::<N>()
        &&& forall|a: N, out: Vec<N>| #[trigger]
            call_ensures(N::adjacent, (&a,), out) ==> out@ == (self.neighbors)(a)
        &&& forall|a: N, b: N, out: N::Cost| #[trigger]
            call_ensures(N::move_cost, (&a, &b), out) ==> out == (self.step_cost)(a, b)
        &&& forall|a: N, goal: N, out: N::Cost| #[trigger]
            call_ensures(N::minimum_remaining_cost, (&a, &goal), out) ==> out == (self.estimate)(
                a,
                goal,
            )
        &&& forall|out: N::Cost| #[trigger]
            call_ensures(N::zero_cost, (), out) ==> out == self.zero
        &&& forall|a: N::Cost, b: N::Cost, out: N::Cost| #[trigger]
            call_ensures(N::add_costs, (a, b), out) ==> out == (self.sum)(a, b)
        &&& forall|a: N::Cost, b: N::Cost, out: CostOrdering| #[trigger]
            call_ensures(N::cmp_costs, (&a, &b), out) ==> out == (self.compare)(a, b)
    }

    /// There is a move from `a` to `b`.
    pub open spec fn edge(self, a: N, b: N) -> bool {
        (self.neighbors)(a).contains(b)
    }

    /// `w` is a walk: a non-empty sequence of nodes, each adjacent to the one
    /// before it.
    pub open spec fn is_walk(self, w: Seq<N>) -> bool {
        &&& w.len() > 0
        &&& forall|i: int| 0 <= i < w.len() - 1 ==> self.edge(#[trigger] w[i], w[i + 1])
    }

    /// `w` is a walk that begins at `start`.
    pub open spec fn walk_from(self, w: Seq<N>, start: N) -> bool {
        self.is_walk(w) && w.first() == start
    }

    /// `w` is a walk from `start` to `goal`.
    pub open spec fn connects(self, w: Seq<N>, start: N, goal: N) -> bool {
        self.walk_from(w, start) && w.last() == goal
    }

    /// `w` is a walk from `start` to `goal` that does not come by `goal`
    /// before its end.
    pub open spec fn connects_directly(self, w: Seq<N>, start: N, goal: N) -> bool {
        &&& self.connects(w, start, goal)
        &&& forall|i: int| 0 <= i < w.len() - 1 ==> #[trigger] w[i] != goal
    }

    /// The cost of the walk `w`: the move costs of its consecutive pairs,
    /// added up from the start.
    pub open spec fn walk_cost(self, w: Seq<N>) -> N::Cost
        decreases w.len(),
    {
        if w.len() <= 1 {
            self.zero
        } else {
            (self.sum)(
                self.walk_cost(w.drop_last()),
                (self.step_cost)(w[w.len() - 2], w.last()),
            )
        }
    }

    /// The estimated cost of a route to `goal` that begins with a walk that
    /// has cost `spent` and ends at `last`.
    pub open spec fn estimated_total(self, spent: N::Cost, last: N, goal: N) -> N::Cost {
        (self.sum)(spent, (self.estimate)(last, goal))
    }

    /// The estimated cost of a route to `goal` that begins with the walk `w`.
    pub open spec fn walk_estimate(self, w: Seq<N>, goal: N) -> N::Cost {
        self.estimated_total(self.walk_cost(w), w.last(), goal)
    }

    /// `a` is at most `b`.
    pub open spec fn le(self, a: N::Cost, b: N::Cost) -> bool {
        (self.compare)(a, b) is Less || (self.compare)(a, b) is Equal
    }

    /// Any two costs are comparable.
    pub open spec fn comparable_costs(self) -> bool {
        forall|a: N::Cost, b: N::Cost| !(#[trigger] (self.compare)(a, b) is Incomparable)
    }

    /// The costs are totally ordered: any two are comparable, `a` is less
    /// than `b` exactly when `b` is greater than `a`, and "at most" is
    /// transitive.
    pub open spec fn ordered_costs(self) -> bool {
        &&& self.comparable_costs()
        &&& forall|a: N::Cost, b: N::Cost| #[trigger]
            (self.compare)(a, b) is Less <==> (self.compare)(b, a) is Greater
        &&& forall|a: N::Cost, b: N::Cost, c: N::Cost|
            #![trigger self.le(a, b), self.le(b, c)]
            self.le(a, b) && self.le(b, c) ==> self.le(a, c)
    }

    /// Costs that are equal in the order are the same cost.
    pub open spec fn exact_costs(self) -> bool {
        forall|a: N::Cost, b: N::Cost| #[trigger] (self.compare)(a, b) is Equal ==> a == b
    }

    /// Addition is associative; adding one cost to both sides of a comparison
    /// does not break it, and does not make it where the greater sum is
    /// finite; and a cost that is at most a finite cost is finite.
    pub open spec fn additive_costs(self) -> bool {
        &&& forall|a: N::Cost, b: N::Cost, c: N::Cost| #[trigger]
            (self.sum)((self.sum)(a, b), c) == (self.sum)(a, (self.sum)(b, c))
        &&& forall|a: N::Cost, b: N::Cost, c: N::Cost|
            self.le(a, b) ==> #[trigger] self.le((self.sum)(a, c), (self.sum)(b, c))
        &&& forall|a: N::Cost, b: N::Cost, c: N::Cost|
            self.le(b, c) ==> #[trigger] self.le((self.sum)(a, b), (self.sum)(a, c))
        &&& forall|a: N::Cost, b: N::Cost, c: N::Cost|
            (self.finite)((self.sum)(b, c)) && #[trigger] self.le(
                (self.sum)(a, c),
                (self.sum)(b, c),
            ) ==> self.le(a, b)
        &&& forall|a: N::Cost, b: N::Cost|
            #![trigger self.le(a, b), (self.finite)(b)]
            self.le(a, b) && (self.finite)(b) ==> (self.finite)(a)
    }

    /// Adding zero to a cost leaves the cost as it is.
    pub open spec fn neutral_zero(self) -> bool {
        forall|a: N::Cost| #[trigger] (self.sum)(a, self.zero) == a
    }

    /// The estimate to `goal` is consistent: it never drops by more than the
    /// cost of the move made.
    pub open spec fn consistent(self, goal: N) -> bool {
        forall|a: N, b: N| #[trigger]
            self.edge(a, b) ==> self.le(
                (self.estimate)(a, goal),
                (self.sum)((self.step_cost)(a, b), (self.estimate)(b, goal)),
            )
    }

    /// The estimate to `goal` is admissible: from no node is it higher than
    /// the cost of a walk from that node to `goal`, and at `goal` it is not
    /// below zero.
    pub open spec fn admissible(self, goal: N) -> bool {
        &&& forall|w: Seq<N>|
            #[trigger] self.is_walk(w) && w.last() == goal ==> self.le(
                (self.estimate)(w.first(), goal),
                self.walk_cost(w),
            )
        &&& self.le(self.zero, (self.estimate)(goal, goal))
    }

    /// No node has the same neighbor twice.
    pub open spec fn simple(self) -> bool {
        forall|a: N| #[trigger] (self.neighbors)(a).no_duplicates()
    }

    /// This graph describes the node type, and its costs are totally ordered.
    pub open spec fn orders(self) -> bool {
        self.describes() && self.ordered_costs()
    }

    /// The conditions under which a search that extends no route to a node
    /// that it has visited finds a cheapest route to `goal`: the costs are
    /// totally ordered and additive, and the estimate is consistent.
    pub open spec fn prunable(self, goal: N) -> bool {
        &&& self.ordered_costs()
        &&& self.additive_costs()
        &&& self.consistent(goal)
    }

    /// The conditions under which a search that follows every route finds the
    /// cheapest routes to `goal`: the costs are totally ordered and
    /// additive, and the estimate is consistent, or it is admissible and zero
    /// is neutral.
    pub open spec fn searchable(self, goal: N) -> bool {
        &&& self.ordered_costs()
        &&& self.additive_costs()
        &&& self.consistent(goal) || (self.neutral_zero() && self.admissible(goal))
    }

    /// `nodes` is a walk from `start` to `goal`, and `cost` is what it costs.
    pub open spec fn is_route(self, nodes: Seq<N>, cost: N::Cost, start: N, goal: N) -> bool {
        self.connects(nodes, start, goal) && cost == self.walk_cost(nodes)
    }

    /// No walk from `start` to `goal` whose estimated total is finite costs
    /// less than `cost`.
    pub open spec fn is_cheapest(self, cost: N::Cost, start: N, goal: N) -> bool {
        forall|w: Seq<N>|
            #[trigger] self.connects(w, start, goal) && (self.finite)(self.walk_estimate(w, goal))
                ==> self.le(cost, self.walk_cost(w))
    }

    /// No walk leads from `start` to `goal`.
    pub open spec fn unreachable(self, start: N, goal: N) -> bool {
        forall|w: Seq<N>| !#[trigger] self.connects(w, start, goal)
    }

    /// Two walks from `start` have estimated totals that cannot be ordered.
    pub open spec fn incomparable_estimates(self, start: N, goal: N) -> bool {
        exists|a: Seq<N>, b: Seq<N>|
            #![trigger self.walk_from(a, start), self.walk_from(b, start)]
            self.walk_from(a, start) && self.walk_from(b, start) && (self.compare)(
                self.walk_estimate(a, goal),
                self.walk_estimate(b, goal),
            ) is Incomparable
    }

    /// Two walks from `start` to `goal` have costs that cannot be ordered.
    pub open spec fn incomparable_costs(self, start: N, goal: N) -> bool {
        exists|a: Seq<N>, b: Seq<N>|
            #![trigger self.connects(a, start, goal), self.connects(b, start, goal)]
            self.connects(a, start, goal) && self.connects(b, start, goal) && (self.compare)(
                self.walk_cost(a),
                self.walk_cost(b),
            ) is Incomparable
    }

    /// There are at least `count` walks from `start` that do not come by
    /// `goal`.
    pub open spec fn has_walks(self, start: N, goal: N, count: nat) -> bool {
        exists|walks: Set<Seq<N>>|
            {
                &&& #[trigger] walks.finite()
                &&& walks.len() >= count
                &&& forall|w: Seq<N>| #[trigger]
                    walks.contains(w) ==> self.walk_from(w, start) && !w.contains(goal)
            }
    }

    /// There are at least `count` walks from `start` that do not come by
    /// `goal`, nor by any node twice.
    pub open spec fn has_paths(self, start: N, goal: N, count: nat) -> bool {
        exists|walks: Set<Seq<N>>|
            {
                &&& #[trigger] walks.finite()
                &&& walks.len() >= count
                &&& forall|w: Seq<N>| #[trigger]
                    walks.contains(w) ==> self.walk_from(w, start) && !w.contains(goal)
                        && w.no_duplicates()
            }
    }
}

impl<N: Node> Graph<N> {
    /// Every cost is at most itself.
    pub proof fn lemma_le_reflexive(self, a: N::Cost)
        requires
            self.ordered_costs(),
        ensures
            self.le(a, a),
    {
        assert(!((self.compare)(a, a) is Incomparable));
        assert((self.compare)(a, a) is Less <==> (self.compare)(a, a) is Greater);
    }

    /// Of two costs, one is at most the other.
    pub proof fn lemma_le_total(self, a: N::Cost, b: N::Cost)
        requires
            self.ordered_costs(),
        ensures
            self.le(a, b) || self.le(b, a),
            !self.le(a, b) ==> (self.compare)(b, a) is Less,
    {
        assert(!((self.compare)(a, b) is Incomparable));
        assert((self.compare)(b, a) is Less <==> (self.compare)(a, b) is Greater);
    }

    /// Two costs that are equal one way round are equal the other way round.
    pub proof fn lemma_equal_symmetric(self, a: N::Cost, b: N::Cost)
        requires
            self.ordered_costs(),
            (self.compare)(a, b) is Equal,
        ensures
            (self.compare)(b, a) is Equal,
    {
        assert(!((self.compare)(b, a) is Incomparable));
        assert((self.compare)(b, a) is Less <==> (self.compare)(a, b) is Greater);
        assert((self.compare)(a, b) is Less <==> (self.compare)(b, a) is Greater);
    }

    /// Two costs that are each at most the other are equal.
    pub proof fn lemma_le_antisymmetric(self, a: N::Cost, b: N::Cost)
        requires
            self.ordered_costs(),
            self.le(a, b),
            self.le(b, a),
        ensures
            (self.compare)(a, b) is Equal,
    {
        assert((self.compare)(a, b) is Less <==> (self.compare)(b, a) is Greater);
    }

    /// "At most" is transitive.
    pub proof fn lemma_le_transitive(self, a: N::Cost, b: N::Cost, c: N::Cost)
        requires
            self.ordered_costs(),
            self.le(a, b),
            self.le(b, c),
        ensures
            self.le(a, c),
    {
    }

    /// The beginning of a walk is a walk.
    pub proof fn lemma_walk_prefix(self, w: Seq<N>, j: int)
        requires
            self.is_walk(w),
            0 < j <= w.len(),
        ensures
            self.is_walk(w.take(j)),
            w.take(j).first() == w.first(),
            w.take(j).last() == w[j - 1],
    {
        let v = w.take(j);
        assert forall|i: int| 0 <= i < v.len() - 1 implies self.edge(#[trigger] v[i], v[i + 1]) by {
            assert(self.edge(w[i], w[i + 1]));
        }
    }

    /// The end of a walk is a walk.
    pub proof fn lemma_walk_suffix(self, w: Seq<N>, j: int)
        requires
            self.is_walk(w),
            0 <= j < w.len(),
        ensures
            self.is_walk(w.skip(j)),
            w.skip(j).first() == w[j],
            w.skip(j).last() == w.last(),
    {
        let v = w.skip(j);
        assert forall|i: int| 0 <= i < v.len() - 1 implies self.edge(#[trigger] v[i], v[i + 1]) by {
            assert(self.edge(w[i + j], w[i + j + 1]));
        }
    }

    /// A walk with one more move is a walk, and costs that move more.
    pub proof fn lemma_walk_push(self, w: Seq<N>, next: N)
        requires
            self.is_walk(w),
            self.edge(w.last(), next),
        ensures
            self.is_walk(w.push(next)),
            w.push(next).first() == w.first(),
            self.walk_cost(w.push(next)) == (self.sum)(
                self.walk_cost(w),
                (self.step_cost)(w.last(), next),
            ),
    {
        let v = w.push(next);
        assert(v.drop_last() == w);
        assert forall|i: int| 0 <= i < v.len() - 1 implies self.edge(#[trigger] v[i], v[i + 1]) by {
            if i < w.len() - 1 {
                assert(self.edge(w[i], w[i + 1]));
            }
        }
    }

    /// The cost of a walk grows by the cost of each move.
    pub proof fn lemma_walk_cost_step(self, w: Seq<N>, j: int)
        requires
            0 < j < w.len(),
        ensures
            self.walk_cost(w.take(j + 1)) == (self.sum)(
                self.walk_cost(w.take(j)),
                (self.step_cost)(w[j - 1], w[j]),
            ),
    {
        assert(w.take(j + 1).drop_last() == w.take(j));
    }

    /// A walk costs what its beginning costs and what its end costs.
    pub proof fn lemma_walk_cost_split(self, w: Seq<N>, j: int)
        requires
            self.additive_costs(),
            self.neutral_zero(),
            0 < j <= w.len(),
        ensures
            self.walk_cost(w) == (self.sum)(
                self.walk_cost(w.take(j)),
                self.walk_cost(w.skip(j - 1)),
            ),
        decreases w.len() - j,
    {
        if j == w.len() {
            assert(w.take(j) == w);
            assert(self.walk_cost(w.skip(j - 1)) == self.zero);
        } else {
            let shorter = w.drop_last();
            self.lemma_walk_cost_split(shorter, j);
            assert(shorter.take(j) == w.take(j));
            assert(shorter.skip(j - 1) == w.skip(j - 1).drop_last());
            let step = (self.step_cost)(w[w.len() - 2], w.last());
            assert(w.skip(j - 1).last() == w.last());
            assert(w.skip(j - 1)[w.skip(j - 1).len() - 2] == w[w.len() - 2]);
            assert(self.walk_cost(w.skip(j - 1)) == (self.sum)(
                self.walk_cost(shorter.skip(j - 1)),
                step,
            ));
            assert((self.sum)(
                (self.sum)(self.walk_cost(w.take(j)), self.walk_cost(shorter.skip(j - 1))),
                step,
            ) == (self.sum)(
                self.walk_cost(w.take(j)),
                (self.sum)(self.walk_cost(shorter.skip(j - 1)), step),
            ));
        }
    }

    /// A walk to `goal` begins with a walk that reaches `goal` for the first
    /// time at its end.
    pub proof fn lemma_direct_prefix(self, w: Seq<N>, start: N, goal: N) -> (j: int)
        requires
            self.connects(w, start, goal),
        ensures
            0 < j <= w.len(),
            self.connects_directly(w.take(j), start, goal),
        decreases w.len(),
    {
        if forall|i: int| 0 <= i < w.len() - 1 ==> #[trigger] w[i] != goal {
            assert(w.take(w.len() as int) == w);
            w.len() as int
        } else {
            let i = choose|i: int| 0 <= i < w.len() - 1 && #[trigger] w[i] == goal;
            self.lemma_walk_prefix(w, i + 1);
            let j = self.lemma_direct_prefix(w.take(i + 1), start, goal);
            assert(w.take(i + 1).take(j) == w.take(j));
            j
        }
    }

    /// With a consistent estimate, the estimated total of a walk never
    /// drops as the walk goes on.
    pub proof fn lemma_estimates_grow(self, goal: N, w: Seq<N>, i: int, j: int)
        requires
            self.prunable(goal),
            self.is_walk(w),
            0 < i <= j <= w.len(),
        ensures
            self.le(self.walk_estimate(w.take(i), goal), self.walk_estimate(w.take(j), goal)),
        decreases j - i,
    {
        if i == j {
            self.lemma_le_reflexive(self.walk_estimate(w.take(i), goal));
        } else {
            self.lemma_estimates_grow(goal, w, i, j - 1);
            self.lemma_walk_cost_step(w, j - 1);
            let spent = self.walk_cost(w.take(j - 1));
            let step = (self.step_cost)(w[j - 2], w[j - 1]);
            let before = (self.estimate)(w[j - 2], goal);
            let after = (self.estimate)(w[j - 1], goal);
            assert(self.edge(w[j - 2], w[j - 1]));
            assert(self.le(before, (self.sum)(step, after)));
            assert(self.le((self.sum)(spent, before), (self.sum)(spent, (self.sum)(step, after))));
            assert((self.sum)((self.sum)(spent, step), after) == (self.sum)(
                spent,
                (self.sum)(step, after),
            ));
            assert(w.take(j - 1).last() == w[j - 2]);
            assert(w.take(j).last() == w[j - 1]);
            self.lemma_le_transitive(
                self.walk_estimate(w.take(i), goal),
                self.walk_estimate(w.take(j - 1), goal),
                self.walk_estimate(w.take(j), goal),
            );
        }
    }

    /// With an admissible estimate, a walk to `goal` costs no less than any
    /// of its beginnings is estimated to cost in total.
    pub proof fn lemma_estimate_at_most_cost(self, goal: N, w: Seq<N>, j: int)
        requires
            self.ordered_costs(),
            self.additive_costs(),
            self.neutral_zero(),
            self.admissible(goal),
            self.is_walk(w),
            w.last() == goal,
            0 < j <= w.len(),
        ensures
            self.le(self.walk_estimate(w.take(j), goal), self.walk_cost(w)),
    {
        self.lemma_walk_cost_split(w, j);
        self.lemma_walk_suffix(w, j - 1);
        let rest = w.skip(j - 1);
        assert(self.is_walk(rest) && rest.last() == goal);
        assert(self.le((self.estimate)(rest.first(), goal), self.walk_cost(rest)));
        assert(w.take(j).last() == w[j - 1]);
        assert(self.le(
            (self.sum)(self.walk_cost(w.take(j)), (self.estimate)(w[j - 1], goal)),
            (self.sum)(self.walk_cost(w.take(j)), self.walk_cost(rest)),
        ));
    }

    /// Of two walks with one last node, the one with the lower estimated
    /// total is the cheaper.
    pub proof fn lemma_cheaper(self, goal: N, a: N::Cost, b: N::Cost, last: N)
        requires
            self.additive_costs(),
            (self.finite)(self.estimated_total(b, last, goal)),
            self.le(self.estimated_total(a, last, goal), self.estimated_total(b, last, goal)),
        ensures
            self.le(a, b),
    {
    }

    /// Of two walks with one last node, the cheaper has the lower estimated
    /// total, and a finite one if the other has.
    pub proof fn lemma_cheaper_estimate(self, goal: N, a: N::Cost, b: N::Cost, last: N)
        requires
            self.additive_costs(),
            self.le(a, b),
        ensures
            self.le(self.estimated_total(a, last, goal), self.estimated_total(b, last, goal)),
            (self.finite)(self.estimated_total(b, last, goal)) ==> (self.finite)(
                self.estimated_total(a, last, goal),
            ),
    {
        let rest = (self.estimate)(last, goal);
        assert(self.le((self.sum)(a, rest), (self.sum)(b, rest)));
    }
}

} // verus!
