//! Partial routes from the start node, as the search holds them.
//!
//! Many routes share one beginning, so a route is a chain of cells that
//! leads backwards from its last node to the start, and the cells of a
//! shared beginning are held by reference count rather than copied. To
//! extend a route takes one new cell. The nodes are laid out from the
//! start onwards only when a route is handed out as an answer.

use vstd::prelude::*;
use std::rc::Rc;
use crate::graph::Graph;
use crate::node::{CostOrdering, Node};

verus! {

/// One cell of a route: a node and the cells that lead to it.
pub struct PathNode<N: Node> {
    node: N,
    prev: Option<Rc<PathNode<N>>>,
}

impl<N: Node> PathNode<N> {
    /// The nodes of the chain that ends in this cell, from the start.
    pub closed spec fn nodes(self) -> Seq<N>
        decreases self,
    {
        match self.prev {
            None => seq![self.node],
            Some(before) => before.nodes().push(self.node),
        }
    }

    /// A chain holds at least the node of its last cell.
    proof fn lemma_nodes(&self)
        ensures
            self.nodes().len() > 0,
            self.nodes().last() == self.node,
        decreases self,
    {
        match &self.prev {
            None => {},
            Some(before) => {
                before.lemma_nodes();
            },
        }
    }
}

/// What a [`Path`] stands for.
pub struct PathView<N: Node> {
    /// The nodes of the route, from the start to the last node reached.
    pub nodes: Seq<N>,
    /// The accumulated cost of the route.
    pub cost: N::Cost,
    /// The node that the search is looking for.
    pub goal: N,
}

impl<N: Node> PathView<N> {
    /// The last node of the route.
    pub open spec fn last(self) -> N {
        self.nodes.last()
    }

    /// The estimated cost of a whole route to the goal that begins with this
    /// one, in the graph `g`. The frontier is ordered by it.
    pub open spec fn estimate(self, g: Graph<N>) -> N::Cost {
        g.estimated_total(self.cost, self.last(), self.goal)
    }

    /// This route is the route `from` with one more move, to `node`.
    pub open spec fn extends(self, from: PathView<N>, node: N) -> bool {
        &&& self.nodes == from.nodes.push(node)
        &&& self.goal == from.goal
        &&& forall|g: Graph<N>| #[trigger]
            g.describes() ==> self.cost == (g.sum)(from.cost, (g.step_cost)(from.last(), node))
    }
}

/// A partial route from the start node to the last node reached, with its
/// accumulated cost and the goal of the search.
pub struct Path<N: Node> {
    last_node: Rc<PathNode<N>>,
    cost: N::Cost,
    goal: N,
    length: usize,
}

/// A walk over the nodes of a [`Path`], from its last node back to the start.
pub struct PathIterator<'a, N: Node> {
    current_node: Option<&'a Rc<PathNode<N>>>,
}

impl<N: Node> View for Path<N> {
    type V = PathView<N>;

    closed spec fn view(&self) -> PathView<N> {
        PathView { nodes: self.last_node.nodes(), cost: self.cost, goal: self.goal }
    }
}

/// Another handle on the same cell. Wraps `Rc::clone`, which returns a
/// pointer to the same allocation: the value behind it is the same.
#[verifier::external_body]
fn share<N: Node>(cell: &Rc<PathNode<N>>) -> (shared: Rc<PathNode<N>>)
    ensures
        shared == *cell,
{
    Rc::clone(cell)
}

impl<N: Node> Path<N> {
    #[verifier::type_invariant]
    spec fn counted(self) -> bool {
        self.length == self.last_node.nodes().len()
    }

    /// The route that holds the start node alone.
    pub fn new(start: N, goal: N) -> (path: Self)
        ensures
            path@.nodes == seq![start],
            path@.goal == goal,
            forall|g: Graph<N>| #[trigger] g.describes() ==> path@.cost == g.zero,
    {
        Self {
            last_node: Rc::new(PathNode { node: start, prev: None }),
            cost: N::zero_cost(),
            goal,
            length: 1,
        }
    }

    /// The last node of the route.
    pub fn last(&self) -> (node: N)
        ensures
            self@.nodes.len() > 0,
            node == self@.last(),
    {
        proof {
            self.last_node.lemma_nodes();
        }
        self.last_node.node
    }

    /// The number of nodes of the route.
    pub fn len(&self) -> (length: usize)
        ensures
            length == self@.nodes.len(),
            length > 0,
    {
        proof {
            use_type_invariant(self);
            self.last_node.lemma_nodes();
        }
        self.length
    }

    /// The accumulated cost of the route.
    pub fn cost(&self) -> (cost: N::Cost)
        ensures
            cost == self@.cost,
    {
        self.cost
    }

    /// The goal of the search that this route belongs to.
    pub fn goal(&self) -> (goal: N)
        ensures
            goal == self@.goal,
    {
        self.goal
    }

    /// The estimated cost of a whole route to the goal that begins with this
    /// one: the accumulated cost plus the estimate from the last node.
    pub fn minimum_total_cost(&self) -> (total: N::Cost)
        ensures
            forall|g: Graph<N>| #[trigger] g.describes() ==> total == self@.estimate(g),
    {
        let remaining = self.last().minimum_remaining_cost(&self.goal);
        N::add_costs(self.cost, remaining)
    }

    /// This route with one more move, to `node`. The route itself is left as
    /// it is and can be extended again.
    pub fn next_move(&self, node: N) -> (next: Self)
        requires
            self@.nodes.len() < usize::MAX,
        ensures
            next@.extends(self@, node),
    {
        proof {
            use_type_invariant(self);
        }
        let last_node = Rc::new(PathNode { node, prev: Some(share(&self.last_node)) });
        let step = self.last().move_cost(&node);
        let cost = N::add_costs(self.cost, step);
        Self { last_node, cost, goal: self.goal, length: self.length + 1 }
    }

    /// How the estimated total cost of this route is ordered against that of
    /// `other`.
    pub fn compare(&self, other: &Self) -> (order: CostOrdering)
        ensures
            forall|g: Graph<N>| #[trigger]
                g.describes() ==> order == (g.compare)(self@.estimate(g), other@.estimate(g)),
    {
        let mine = self.minimum_total_cost();
        let theirs = other.minimum_total_cost();
        N::cmp_costs(&mine, &theirs)
    }

    /// How the accumulated cost of this route is ordered against that of
    /// `other`.
    pub fn cost_against_route(&self, other: &Self) -> (order: CostOrdering)
        ensures
            forall|g: Graph<N>| #[trigger]
                g.describes() ==> order == (g.compare)(self@.cost, other@.cost),
    {
        N::cmp_costs(&self.cost, &other.cost)
    }

    /// A walk over the nodes of the route, from the last one back to the
    /// start.
    pub fn iter(&self) -> (walk: PathIterator<'_, N>)
        ensures
            walk.remaining() == self@.nodes.reverse(),
    {
        PathIterator { current_node: Some(&self.last_node) }
    }

    /// The nodes of the route, from the start to the last node.
    pub fn as_vec(&self) -> (nodes: Vec<N>)
        ensures
            nodes@ == self@.nodes,
    {
        let mut nodes: Vec<N> = Vec::new();
        let mut walk = self.iter();
        let n = self.len();
        let mut i: usize = 0;
        while i < n
            invariant
                n == self@.nodes.len(),
                i <= n,
                nodes@ == self@.nodes.reverse().take(i as int),
                walk.remaining() == self@.nodes.reverse().skip(i as int),
            decreases n - i,
        {
            let next = walk.next();
            proof {
                let back = self@.nodes.reverse();
                assert(back.skip(i as int).drop_first() == back.skip(i + 1));
                assert(back.take(i as int).push(back[i as int]) == back.take(i + 1));
            }
            nodes.push(next.unwrap());
            i = i + 1;
        }
        proof {
            let back = self@.nodes.reverse();
            assert(back.take(n as int) == back);
        }
        reverse(&mut nodes);
        proof {
            assert(self@.nodes.reverse().reverse() == self@.nodes);
        }
        nodes
    }
}

impl<'a, N: Node> PathIterator<'a, N> {
    /// The nodes still to come, in the order in which they will be handed
    /// out.
    pub closed spec fn remaining(self) -> Seq<N> {
        match self.current_node {
            None => Seq::empty(),
            Some(cell) => cell.nodes().reverse(),
        }
    }

    /// Hands out the next node, or `None` when the walk has passed the start.
    pub fn next(&mut self) -> (node: Option<N>)
        ensures
            old(self).remaining().len() == 0 ==> node is None && final(self).remaining()
                == old(self).remaining(),
            old(self).remaining().len() > 0 ==> node == Some(old(self).remaining().first())
                && final(self).remaining() == old(self).remaining().drop_first(),
    {
        match self.current_node.take() {
            Some(cell) => {
                proof {
                    cell.lemma_nodes();
                    match &cell.prev {
                        None => {
                            assert(cell.nodes().reverse().drop_first() == Seq::<N>::empty());
                        },
                        Some(before) => {
                            assert(cell.nodes().reverse().drop_first() == before.nodes().reverse());
                        },
                    }
                }
                self.current_node = cell.prev.as_ref();
                Some(cell.node)
            },
            None => None,
        }
    }
}

/// Reverses `items` in place.
fn reverse<Item>(items: &mut Vec<Item>)
    ensures
        final(items)@ == old(items)@.reverse(),
{
    let n = items.len();
    let mut i: usize = 0;
    while i < n / 2
        invariant
            n == items@.len(),
            n == old(items)@.len(),
            i <= n / 2,
            forall|k: int| 0 <= k < i ==> items@[k] == old(items)@[n - 1 - k],
            forall|k: int| 0 <= k < i ==> items@[n - 1 - k] == old(items)@[k],
            forall|k: int| i <= k < n - i ==> items@[k] == old(items)@[k],
        decreases n / 2 - i,
    {
        items.swap(i, n - 1 - i);
        i = i + 1;
    }
    assert(items@ =~= old(items)@.reverse());
}

/// `<[T]>::swap` exchanges the elements at the two positions and leaves the
/// others where they are. It panics when a position is out of bounds, so
/// both must lie within the slice.
pub assume_specification<T>[ <[T]>::swap ](items: &mut [T], a: usize, b: usize)
    requires
        a < old(items)@.len(),
        b < old(items)@.len(),
    ensures
        final(items)@ == old(items)@.update(a as int, old(items)@[b as int]).update(
            b as int,
            old(items)@[a as int],
        ),
;

} // verus!
