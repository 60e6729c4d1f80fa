use astar::{solve, solve_all, CostOrdering, Node};

#[derive(Debug, Clone, Copy, PartialEq, Eq, Hash)]
struct Position(isize, isize);

impl Node for Position {
    type Cost = f64;

    fn adjacent(&self) -> Vec<Position> {
        vec![
            Position(self.0 + 1, self.1 + 1),
            Position(self.0 + 1, self.1),
            Position(self.0 + 1, self.1 - 1),
            Position(self.0, self.1 + 1),
            Position(self.0, self.1 - 1),
            Position(self.0 - 1, self.1 + 1),
            Position(self.0 - 1, self.1),
            Position(self.0 - 1, self.1 - 1),
        ]
    }

    fn move_cost(&self, next: &Self) -> f64 {
        (((self.0 - next.0).pow(2) + (self.1 - next.1).pow(2)) as f64).sqrt()
    }

    fn minimum_remaining_cost(&self, goal: &Self) -> f64 {
        self.move_cost(goal)
    }

    fn zero_cost() -> f64 {
        0.0
    }

    fn add_costs(lhs: f64, rhs: f64) -> f64 {
        lhs + rhs
    }

    fn cmp_costs(lhs: &f64, rhs: &f64) -> CostOrdering {
        if lhs < rhs {
            CostOrdering::Less
        } else if lhs == rhs {
            CostOrdering::Equal
        } else if lhs > rhs {
            CostOrdering::Greater
        } else {
            CostOrdering::Incomparable
        }
    }
}

#[test]
fn test_solve() {
    let (path, cost) = solve(Position(-4, 5), Position(2, -1)).unwrap().unwrap();
    assert_eq!(
        path,
        vec![
            Position(-4, 5),
            Position(-3, 4),
            Position(-2, 3),
            Position(-1, 2),
            Position(0, 1),
            Position(1, 0),
            Position(2, -1),
        ]
    );
    assert!((cost - ((6usize.pow(2) + 6usize.pow(2)) as f64).sqrt()).abs() < 0.00001);
}

#[test]
fn test_solve_all() {
    let solutions = solve_all(Position(1, 1), Position(2, 3)).unwrap();
    assert_eq!(solutions.len(), 2);
    solutions
        .iter()
        .map(|s| s.1)
        .for_each(|cost| assert!((cost - 2f64.sqrt() - 1f64).abs() < 0.00001));
}

fn sum_of_moves(path: &[Position]) -> f64 {
    let mut cost = 0.0;
    for pair in path.windows(2) {
        cost = cost + pair[0].move_cost(&pair[1]);
    }
    cost
}

#[test]
fn solve_returns_route_between_the_ends() {
    let start = Position(3, -2);
    let goal = Position(-1, 4);
    let (path, _) = solve(start, goal).unwrap().unwrap();
    assert_eq!(path[0], start);
    assert_eq!(path[path.len() - 1], goal);
    for pair in path.windows(2) {
        assert!(pair[0].adjacent().contains(&pair[1]));
    }
}

#[test]
fn solve_reports_the_sum_of_the_move_costs() {
    let (path, cost) = solve(Position(0, 0), Position(5, 2)).unwrap().unwrap();
    assert_eq!(cost, sum_of_moves(&path));
    assert!((cost - (3.0 + 2.0 * 2f64.sqrt())).abs() < 0.00001);
}

#[test]
fn solve_with_start_at_goal_returns_the_start_alone() {
    let (path, cost) = solve(Position(7, 7), Position(7, 7)).unwrap().unwrap();
    assert_eq!(path, vec![Position(7, 7)]);
    assert_eq!(cost, 0.0);
}

#[test]
fn solve_all_with_start_at_goal_returns_the_start_alone() {
    let solutions = solve_all(Position(7, 7), Position(7, 7)).unwrap();
    assert_eq!(solutions.len(), 1);
    assert_eq!(solutions[0].0, vec![Position(7, 7)]);
    assert_eq!(solutions[0].1, 0.0);
}

#[test]
fn solve_all_returns_both_orders_of_the_two_moves() {
    let mut paths: Vec<Vec<Position>> = solve_all(Position(1, 1), Position(2, 3))
        .unwrap()
        .into_iter()
        .map(|s| s.0)
        .collect();
    paths.sort_by_key(|path| path[1].1);
    assert_eq!(
        paths,
        vec![
            vec![Position(1, 1), Position(2, 2), Position(2, 3)],
            vec![Position(1, 1), Position(1, 2), Position(2, 3)],
        ]
    );
}

#[test]
fn solve_all_routes_cost_what_the_route_of_solve_costs() {
    let start = Position(0, 0);
    let goal = Position(1, 3);
    let (_, cost) = solve(start, goal).unwrap().unwrap();
    let solutions = solve_all(start, goal).unwrap();
    assert_eq!(solutions.len(), 3);
    for (path, each) in solutions.iter() {
        assert!((each - cost).abs() < 0.00001);
        assert_eq!(*each, sum_of_moves(path));
        assert_eq!(path[0], start);
        assert_eq!(path[path.len() - 1], goal);
    }
}

#[test]
fn solve_all_finds_the_single_straight_route() {
    let solutions = solve_all(Position(0, 0), Position(0, 3)).unwrap();
    assert_eq!(solutions.len(), 1);
    assert_eq!(
        solutions[0].0,
        vec![Position(0, 0), Position(0, 1), Position(0, 2), Position(0, 3)]
    );
    assert_eq!(solutions[0].1, 3.0);
}
