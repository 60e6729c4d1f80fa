use astar::{CostOrdering, Node, Path};

/// A point on a line. A move costs the square of its length, and the
/// estimate to a goal is the distance to it.
#[derive(Debug, Clone, Copy, PartialEq, Eq, Hash)]
struct Mark(u32);

impl Node for Mark {
    type Cost = u32;

    fn adjacent(&self) -> Vec<Mark> {
        vec![Mark(self.0 + 1), Mark(self.0 + 2)]
    }

    fn move_cost(&self, next: &Self) -> u32 {
        (next.0 - self.0) * (next.0 - self.0)
    }

    fn minimum_remaining_cost(&self, goal: &Self) -> u32 {
        goal.0.abs_diff(self.0)
    }

    fn zero_cost() -> u32 {
        0
    }

    fn add_costs(lhs: u32, rhs: u32) -> u32 {
        lhs + rhs
    }

    fn cmp_costs(lhs: &u32, rhs: &u32) -> CostOrdering {
        if lhs < rhs {
            CostOrdering::Less
        } else if lhs == rhs {
            CostOrdering::Equal
        } else {
            CostOrdering::Greater
        }
    }
}

#[test]
fn new_path_holds_the_start_alone() {
    let path = Path::new(Mark(4), Mark(10));
    assert_eq!(path.as_vec(), vec![Mark(4)]);
    assert_eq!(path.len(), 1);
    assert_eq!(path.last(), Mark(4));
    assert_eq!(path.cost(), 0);
    assert_eq!(path.goal(), Mark(10));
}

#[test]
fn next_move_appends_the_node_and_adds_the_move_cost() {
    let path = Path::new(Mark(0), Mark(10));
    let longer = path.next_move(Mark(2)).next_move(Mark(3));
    assert_eq!(longer.as_vec(), vec![Mark(0), Mark(2), Mark(3)]);
    assert_eq!(longer.len(), 3);
    assert_eq!(longer.last(), Mark(3));
    assert_eq!(longer.cost(), 4 + 1);
    assert_eq!(longer.goal(), Mark(10));
}

#[test]
fn next_move_leaves_the_path_as_it_was() {
    let path = Path::new(Mark(0), Mark(10)).next_move(Mark(1));
    let one = path.next_move(Mark(2));
    let other = path.next_move(Mark(3));
    assert_eq!(path.as_vec(), vec![Mark(0), Mark(1)]);
    assert_eq!(path.cost(), 1);
    assert_eq!(one.as_vec(), vec![Mark(0), Mark(1), Mark(2)]);
    assert_eq!(one.cost(), 2);
    assert_eq!(other.as_vec(), vec![Mark(0), Mark(1), Mark(3)]);
    assert_eq!(other.cost(), 5);
}

#[test]
fn minimum_total_cost_adds_the_estimate_from_the_last_node() {
    let path = Path::new(Mark(0), Mark(10));
    assert_eq!(path.minimum_total_cost(), 10);
    let longer = path.next_move(Mark(2)).next_move(Mark(3));
    assert_eq!(longer.minimum_total_cost(), 5 + 7);
}

#[test]
fn minimum_total_cost_looks_at_the_last_node_only() {
    // 0, 2, 4 costs 8 and 0, 1, 2, 3, 4 costs 4; both end 6 short of the goal
    let long_moves = Path::new(Mark(0), Mark(10)).next_move(Mark(2)).next_move(Mark(4));
    let short_moves = Path::new(Mark(0), Mark(10))
        .next_move(Mark(1))
        .next_move(Mark(2))
        .next_move(Mark(3))
        .next_move(Mark(4));
    assert_eq!(long_moves.minimum_total_cost(), 8 + 6);
    assert_eq!(short_moves.minimum_total_cost(), 4 + 6);
}

#[test]
fn compare_orders_paths_by_estimated_total() {
    let start = Path::new(Mark(0), Mark(10));
    let by_one = start.next_move(Mark(1)); // 1 + 9
    let by_two = start.next_move(Mark(2)); // 4 + 8
    assert_eq!(start.compare(&by_one), CostOrdering::Equal);
    assert_eq!(by_one.compare(&by_two), CostOrdering::Less);
    assert_eq!(by_two.compare(&by_one), CostOrdering::Greater);
    assert_eq!(by_two.compare(&by_two), CostOrdering::Equal);
}

#[test]
fn cost_against_route_orders_paths_by_accumulated_cost() {
    let start = Path::new(Mark(0), Mark(10));
    let by_one = start.next_move(Mark(1));
    let by_two = start.next_move(Mark(2));
    assert_eq!(start.cost_against_route(&by_one), CostOrdering::Less);
    assert_eq!(by_two.cost_against_route(&by_one), CostOrdering::Greater);
    assert_eq!(by_one.cost_against_route(&by_one), CostOrdering::Equal);
}

#[test]
fn iter_walks_back_from_the_last_node() {
    let path = Path::new(Mark(0), Mark(10)).next_move(Mark(2)).next_move(Mark(3));
    let mut walk = path.iter();
    assert_eq!(walk.next(), Some(Mark(3)));
    assert_eq!(walk.next(), Some(Mark(2)));
    assert_eq!(walk.next(), Some(Mark(0)));
    assert_eq!(walk.next(), None);
    assert_eq!(walk.next(), None);
}

#[test]
fn as_vec_lays_out_a_long_path_from_the_start() {
    let mut path = Path::new(Mark(0), Mark(500));
    for mark in 1..=500 {
        path = path.next_move(Mark(mark));
    }
    let nodes = path.as_vec();
    assert_eq!(nodes.len(), 501);
    assert_eq!(path.len(), 501);
    for (at, node) in nodes.iter().enumerate() {
        assert_eq!(*node, Mark(at as u32));
    }
    assert_eq!(path.cost(), 500);
}

#[test]
fn as_vec_lays_out_paths_of_even_and_odd_length() {
    let two = Path::new(Mark(7), Mark(9)).next_move(Mark(8));
    let three = two.next_move(Mark(9));
    assert_eq!(two.as_vec(), vec![Mark(7), Mark(8)]);
    assert_eq!(three.as_vec(), vec![Mark(7), Mark(8), Mark(9)]);
}
