use astar::{CostOrdering, Frontier, Node, Path, SearchError};

/// A node whose estimate to any goal is the number it holds; a negative
/// number stands for an estimate that is not a number.
#[derive(Debug, Clone, Copy, PartialEq, Eq, Hash)]
struct Weight(i32);

impl Node for Weight {
    type Cost = f64;

    fn adjacent(&self) -> Vec<Weight> {
        vec![]
    }

    fn move_cost(&self, _next: &Self) -> f64 {
        0.0
    }

    fn minimum_remaining_cost(&self, _goal: &Self) -> f64 {
        if self.0 < 0 {
            f64::NAN
        } else {
            self.0 as f64
        }
    }

    fn zero_cost() -> f64 {
        0.0
    }

    fn add_costs(lhs: f64, rhs: f64) -> f64 {
        lhs + rhs
    }

    fn cmp_costs(lhs: &f64, rhs: &f64) -> CostOrdering {
        if lhs < rhs {
            CostOrdering::Less
        } else if lhs == rhs {
            CostOrdering::Equal
        } else if lhs > rhs {
            CostOrdering::Greater
        } else {
            CostOrdering::Incomparable
        }
    }
}

fn path(weight: i32) -> Path<Weight> {
    Path::new(Weight(weight), Weight(0))
}

fn drain(frontier: &mut Frontier<Weight>) -> Vec<i32> {
    let mut order = Vec::new();
    while let Some(next) = frontier.pop().unwrap() {
        order.push(next.last().0);
    }
    order
}

#[test]
fn new_frontier_is_empty() {
    let mut frontier: Frontier<Weight> = Frontier::new();
    assert_eq!(frontier.len(), 0);
    assert!(frontier.pop().unwrap().is_none());
    assert_eq!(frontier.len(), 0);
}

#[test]
fn pop_returns_the_lowest_estimate_first() {
    let mut frontier = Frontier::new();
    for weight in [5, 3, 8, 1, 9, 2, 7, 4, 6, 0] {
        assert_eq!(frontier.push(path(weight)), Ok(()));
    }
    assert_eq!(frontier.len(), 10);
    assert_eq!(drain(&mut frontier), vec![0, 1, 2, 3, 4, 5, 6, 7, 8, 9]);
    assert_eq!(frontier.len(), 0);
}

#[test]
fn pop_returns_each_of_several_equal_estimates() {
    let mut frontier = Frontier::new();
    for weight in [2, 1, 2, 1, 2] {
        frontier.push(path(weight)).unwrap();
    }
    assert_eq!(drain(&mut frontier), vec![1, 1, 2, 2, 2]);
}

#[test]
fn push_and_pop_can_alternate() {
    let mut frontier = Frontier::new();
    frontier.push(path(4)).unwrap();
    frontier.push(path(2)).unwrap();
    assert_eq!(frontier.pop().unwrap().unwrap().last(), Weight(2));
    frontier.push(path(1)).unwrap();
    frontier.push(path(3)).unwrap();
    assert_eq!(frontier.len(), 3);
    assert_eq!(drain(&mut frontier), vec![1, 3, 4]);
}

#[test]
fn pop_keeps_many_paths_in_order() {
    let mut frontier = Frontier::new();
    let mut weight: i32 = 17;
    let mut expected = Vec::new();
    for _ in 0..1000 {
        weight = (weight * 31 + 7) % 1009;
        expected.push(weight);
        frontier.push(path(weight)).unwrap();
    }
    expected.sort();
    assert_eq!(drain(&mut frontier), expected);
}

#[test]
fn push_of_a_single_path_orders_nothing() {
    let mut frontier = Frontier::new();
    assert_eq!(frontier.push(path(-1)), Ok(()));
    assert_eq!(frontier.len(), 1);
    assert_eq!(frontier.pop().unwrap().unwrap().last(), Weight(-1));
}

#[test]
fn push_fails_on_an_estimate_that_is_not_a_number() {
    let mut frontier = Frontier::new();
    frontier.push(path(1)).unwrap();
    assert_eq!(frontier.push(path(-1)), Err(SearchError::IncomparableCosts));
    assert_eq!(frontier.len(), 2);
}

#[test]
fn pop_fails_on_an_estimate_that_is_not_a_number() {
    let mut frontier = Frontier::new();
    frontier.push(path(1)).unwrap();
    assert_eq!(frontier.push(path(-1)), Err(SearchError::IncomparableCosts));
    assert_eq!(frontier.push(path(3)), Ok(()));
    // the path that takes the place of the one on top is ordered against
    // the one below it
    assert!(matches!(frontier.pop(), Err(SearchError::IncomparableCosts)));
}
