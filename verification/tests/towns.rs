use astar::{solve, solve_all, CostOrdering, Node, SearchError};

/// One-way roads: from, to, length.
const ROADS: [(u8, u8, u32); 14] = [
    // from 0 to 4: a route of length 12 by way of 1, and one of 14 by way of 2
    (0, 1, 1),
    (0, 2, 1),
    (1, 3, 1),
    (2, 3, 3),
    (3, 4, 10),
    // a cycle that leads nowhere
    (6, 7, 1),
    (7, 6, 1),
    // two roads of one length between the same towns
    (8, 9, 2),
    (8, 9, 2),
    // from 10 to 13: two routes of length 3, and a road of length 4
    (10, 11, 1),
    (10, 12, 2),
    (11, 13, 2),
    (12, 13, 1),
    (10, 13, 4),
];

/// How far each town is said to be from town 4. No figure is too high, but
/// the one for town 1 drops by more than the road from 1 to 3 is long.
const STEEP: [u32; 14] = [0, 11, 0, 0, 0, 0, 0, 0, 0, 0, 0, 0, 0, 0];

/// A town, searched with an estimate of zero.
#[derive(Debug, Clone, Copy, PartialEq, Eq, Hash)]
struct Town(u8);

/// A town, searched with the estimates of `STEEP`.
#[derive(Debug, Clone, Copy, PartialEq, Eq, Hash)]
struct SteepTown(u8);

fn roads_from(town: u8) -> Vec<u8> {
    ROADS.iter().filter(|road| road.0 == town).map(|road| road.1).collect()
}

fn road_length(from: u8, to: u8) -> u32 {
    ROADS.iter().find(|road| road.0 == from && road.1 == to).unwrap().2
}

fn order(lhs: &u32, rhs: &u32) -> CostOrdering {
    if lhs < rhs {
        CostOrdering::Less
    } else if lhs == rhs {
        CostOrdering::Equal
    } else {
        CostOrdering::Greater
    }
}

impl Node for Town {
    type Cost = u32;

    fn adjacent(&self) -> Vec<Town> {
        roads_from(self.0).into_iter().map(Town).collect()
    }

    fn move_cost(&self, next: &Self) -> u32 {
        road_length(self.0, next.0)
    }

    fn minimum_remaining_cost(&self, _goal: &Self) -> u32 {
        0
    }

    fn zero_cost() -> u32 {
        0
    }

    fn add_costs(lhs: u32, rhs: u32) -> u32 {
        lhs + rhs
    }

    fn cmp_costs(lhs: &u32, rhs: &u32) -> CostOrdering {
        order(lhs, rhs)
    }
}

impl Node for SteepTown {
    type Cost = u32;

    fn adjacent(&self) -> Vec<SteepTown> {
        roads_from(self.0).into_iter().map(SteepTown).collect()
    }

    fn move_cost(&self, next: &Self) -> u32 {
        road_length(self.0, next.0)
    }

    fn minimum_remaining_cost(&self, _goal: &Self) -> u32 {
        STEEP[self.0 as usize]
    }

    fn zero_cost() -> u32 {
        0
    }

    fn add_costs(lhs: u32, rhs: u32) -> u32 {
        lhs + rhs
    }

    fn cmp_costs(lhs: &u32, rhs: &u32) -> CostOrdering {
        order(lhs, rhs)
    }
}

fn towns(path: &[Town]) -> Vec<u8> {
    path.iter().map(|town| town.0).collect()
}

#[test]
fn solve_finds_the_cheapest_route() {
    let (path, cost) = solve(Town(0), Town(4)).unwrap().unwrap();
    assert_eq!(towns(&path), vec![0, 1, 3, 4]);
    assert_eq!(cost, 12);
}

#[test]
fn solve_finds_one_of_two_cheapest_routes() {
    let (path, cost) = solve(Town(10), Town(13)).unwrap().unwrap();
    assert!(towns(&path) == vec![10, 11, 13] || towns(&path) == vec![10, 12, 13]);
    assert_eq!(cost, 3);
}

#[test]
fn solve_reports_no_route_to_a_town_out_of_reach() {
    assert_eq!(solve(Town(0), Town(6)), Ok(None));
    assert_eq!(solve(Town(4), Town(0)), Ok(None));
}

#[test]
fn solve_reports_no_route_out_of_a_cycle() {
    assert_eq!(solve(Town(6), Town(0)), Ok(None));
}

#[test]
fn solve_follows_a_cycle_to_its_other_town() {
    assert_eq!(solve(Town(6), Town(7)), Ok(Some((vec![Town(6), Town(7)], 1))));
}

#[test]
fn solve_all_finds_every_cheapest_route() {
    let mut routes: Vec<(Vec<u8>, u32)> = solve_all(Town(10), Town(13))
        .unwrap()
        .iter()
        .map(|route| (towns(&route.0), route.1))
        .collect();
    routes.sort();
    assert_eq!(routes, vec![(vec![10, 11, 13], 3), (vec![10, 12, 13], 3)]);
}

#[test]
fn solve_all_leaves_out_the_costlier_route() {
    assert_eq!(
        solve_all(Town(0), Town(4)),
        Ok(vec![(vec![Town(0), Town(1), Town(3), Town(4)], 12)])
    );
}

#[test]
fn solve_all_returns_nothing_for_a_town_out_of_reach() {
    assert_eq!(solve_all(Town(4), Town(0)), Ok(vec![]));
    assert_eq!(solve_all(Town(0), Town(6)), Ok(vec![]));
}

#[test]
fn solve_all_counts_each_of_two_equal_roads() {
    let routes = solve_all(Town(8), Town(9)).unwrap();
    assert_eq!(routes, vec![(vec![Town(8), Town(9)], 2), (vec![Town(8), Town(9)], 2)]);
}

#[test]
fn solve_with_a_steep_estimate_misses_the_cheapest_route() {
    // Town 3 is expanded by way of town 2 before the route by way of town 1
    // is looked at, and no route is extended to an expanded town.
    let (path, cost) = solve(SteepTown(0), SteepTown(4)).unwrap().unwrap();
    assert_eq!(path, vec![SteepTown(0), SteepTown(2), SteepTown(3), SteepTown(4)]);
    assert_eq!(cost, 14);
}

#[test]
fn solve_all_with_a_steep_estimate_finds_the_cheapest_route() {
    assert_eq!(
        solve_all(SteepTown(0), SteepTown(4)),
        Ok(vec![(vec![SteepTown(0), SteepTown(1), SteepTown(3), SteepTown(4)], 12)])
    );
}

#[test]
fn search_errors_are_told_apart() {
    assert_ne!(SearchError::IncomparableCosts, SearchError::ExpansionLimit);
    assert_eq!(format!("{:?}", SearchError::ExpansionLimit), "ExpansionLimit");
}
