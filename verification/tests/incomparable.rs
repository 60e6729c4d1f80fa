use astar::{solve, solve_all, CostOrdering, Node, SearchError};

/// A grid on which every move has a cost that is not a number.
#[derive(Debug, Clone, Copy, PartialEq, Eq, Hash)]
struct Foggy(i32, i32);

impl Node for Foggy {
    type Cost = f64;

    fn adjacent(&self) -> Vec<Foggy> {
        vec![
            Foggy(self.0 + 1, self.1),
            Foggy(self.0 - 1, self.1),
            Foggy(self.0, self.1 + 1),
            Foggy(self.0, self.1 - 1),
        ]
    }

    fn move_cost(&self, _next: &Self) -> f64 {
        f64::NAN
    }

    fn minimum_remaining_cost(&self, goal: &Self) -> f64 {
        ((self.0 - goal.0).abs() + (self.1 - goal.1).abs()) as f64
    }

    fn zero_cost() -> f64 {
        0.0
    }

    fn add_costs(lhs: f64, rhs: f64) -> f64 {
        lhs + rhs
    }

    fn cmp_costs(lhs: &f64, rhs: &f64) -> CostOrdering {
        match lhs.partial_cmp(rhs) {
            Some(std::cmp::Ordering::Less) => CostOrdering::Less,
            Some(std::cmp::Ordering::Equal) => CostOrdering::Equal,
            Some(std::cmp::Ordering::Greater) => CostOrdering::Greater,
            None => CostOrdering::Incomparable,
        }
    }
}

#[test]
fn solve_fails_on_costs_that_are_not_numbers() {
    assert_eq!(solve(Foggy(0, 0), Foggy(3, 3)), Err(SearchError::IncomparableCosts));
}

#[test]
fn solve_all_fails_on_costs_that_are_not_numbers() {
    assert_eq!(solve_all(Foggy(0, 0), Foggy(3, 3)), Err(SearchError::IncomparableCosts));
}

#[test]
fn solve_orders_nothing_when_start_is_goal() {
    let found = solve(Foggy(2, 2), Foggy(2, 2)).unwrap().unwrap();
    assert_eq!(found.0, vec![Foggy(2, 2)]);
    assert_eq!(found.1, 0.0);
}
