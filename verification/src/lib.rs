//! Best-first (A*) search over a caller-defined state space.
//!
//! A caller describes its states by implementing [`Node`]: which states are
//! adjacent, what a move costs, an estimate of the cost that remains to a
//! goal, and how costs are added and ordered. [`solve`] finds one cheapest
//! route between two nodes and [`solve_all`] finds every cheapest route.
//!
//! # What is proved
//!
//! The methods of [`Node`] carry no contract, so that any type can be
//! searched, verified or not. The contracts of the searches are stated
//! against a [`Graph`] instead: a ghost value that says what each method
//! returns. Whatever holds of the result of a search holds in every graph
//! that describes the node type. A caller who knows what its own methods
//! return writes the graph down, shows that it describes the node type, and
//! learns what the search returned in its own terms.
//!
//! In every such graph a route that is handed out is a walk from the start to
//! the goal, and its cost is the sum of the costs of its moves. Where the
//! costs are totally ordered and additive and the estimate is consistent (for
//! [`solve_all`], admissible), the routes handed out are cheapest ones; see
//! [`Graph::prunable`] and [`Graph::searchable`]. [`search::found_one`] and
//! [`search::found_all`] say the rest, and [`search::lemma_searches_agree`]
//! relates the two searches.
//!
//! # What is taken on trust
//!
//! Two functions of the standard library: that `Rc::clone` hands back the
//! value that it was given, and that `<[T]>::swap` exchanges two elements.
//! Both are in [`path`].

mod census;
mod collecting;
mod expand;
pub mod frontier;
pub mod graph;
pub mod node;
pub mod path;
mod routes;
pub mod search;
mod visiting;

pub use frontier::Frontier;
pub use graph::Graph;
pub use node::{CostOrdering, Node, SearchError};
pub use path::{Path, PathIterator, PathNode, PathView};
pub use search::{solve, solve_all, EXPANSION_LIMIT};
