//! The node abstraction that callers implement.

use vstd::prelude::*;

verus! {

/// The outcome of comparing two costs.
///
/// `Incomparable` is the outcome for two costs that have no order, such as
/// a not-a-number value. The search never treats it as a tie: it stops with
/// [`SearchError::IncomparableCosts`].
#[derive(Clone, Copy, Debug, PartialEq, Eq, Structural)]
pub enum CostOrdering {
    Less,
    Equal,
    Greater,
    Incomparable,
}

/// Why a search stopped without an answer.
#[derive(Clone, Copy, Debug, PartialEq, Eq, Structural)]
pub enum SearchError {
    /// Two costs that the search had to order were incomparable.
    IncomparableCosts,
    /// The search expanded as many paths as it can count.
    ExpansionLimit,
}

/// A state of the space to search.
///
/// Nodes are values: the search copies them, compares them with `==` and
/// keeps them in a hash set. The costs of routes are values of
/// [`Node::Cost`], which the node type adds and orders itself.
///
/// The methods carry no contract of their own: any implementation can be
/// searched. What a search guarantees is stated for every [`Graph`] that
/// describes the implementation.
///
/// [`Graph`]: crate::graph::Graph
pub trait Node: Copy + Eq + std::hash::Hash {
    /// The accumulated cost of a route.
    type Cost: Copy;

    /// The nodes that can be reached from this one in a single move. Their
    /// order decides nothing but which of several equally good routes is
    /// looked at first.
    fn adjacent(&self) -> Vec<Self>;

    /// The cost of the move from this node to the adjacent node `next`.
    fn move_cost(&self, next: &Self) -> Self::Cost;

    /// An estimate of the cost that remains from this node to `goal`. The
    /// searches find cheapest routes if it is never too high, and take it on
    /// faith that it is not.
    fn minimum_remaining_cost(&self, goal: &Self) -> Self::Cost;

    /// The cost of a route with no moves.
    fn zero_cost() -> Self::Cost;

    /// The cost of a route of cost `lhs` followed by one of cost `rhs`.
    fn add_costs(lhs: Self::Cost, rhs: Self::Cost) -> Self::Cost;

    /// How `lhs` is ordered against `rhs`: [`CostOrdering::Incomparable`]
    /// where the two have no order.
    fn cmp_costs(lhs: &Self::Cost, rhs: &Self::Cost) -> CostOrdering;
}

/// Nodes are compared as plain values: `==` holds of two nodes exactly when
/// they are the same value. Every graph that describes a node type says so.
pub open spec fn nodes_are_values<N: Node>() -> bool {
    vstd::laws_eq::obeys_concrete_eq::<N>()
}

/// Nodes can be kept in a hash set: hashing a node is deterministic and
/// agrees with `==`. What [`solve`](crate::search::solve) owes to its set of
/// visited nodes is stated under this condition.
pub open spec fn nodes_are_keys<N: Node>() -> bool {
    vstd::std_specs::hash::obeys_key_model::<N>()
}

} // verus!
