use astar_maze::heuristic::{
    ChebyshevDistance, CostFunction, DiagonalDistance, DijkstraDistance, EuclideanCost,
    EuclideanDistance, Heuristic, ManhattanCost, ManhattanDistance, OctileDistance, StaticCost,
};
use astar_maze::node::Node;

fn at(x: i32, y: i32, z: i32) -> Node {
    Node::new(x, y, z, 0, None)
}

#[test]
fn manhattan_distance_is_l1() {
    let h = ManhattanDistance {};
    assert_eq!(h.distance(&at(0, 0, 0), &at(3, 4, 0)), 7);
    assert_eq!(h.distance(&at(2, -1, 5), &at(-1, 3, 5)), 7);
    assert_eq!(h.distance(&at(1, 1, 1), &at(1, 1, 1)), 0);
}

#[test]
fn euclidean_distance_rounds_down() {
    let h = EuclideanDistance {};
    assert_eq!(h.distance(&at(0, 0, 0), &at(3, 4, 0)), 5);
    assert_eq!(h.distance(&at(0, 0, 0), &at(1, 1, 0)), 1); // floor of sqrt(2)
    assert_eq!(h.distance(&at(0, 0, 0), &at(2, 3, 6)), 7);
    assert_eq!(h.distance(&at(-2, 0, 0), &at(2, 0, 0)), 4);
}

#[test]
fn chebyshev_distance_is_max_axis_delta() {
    let h = ChebyshevDistance {};
    assert_eq!(h.distance(&at(0, 0, 0), &at(3, 4, 0)), 4);
    assert_eq!(h.distance(&at(5, 5, 5), &at(4, 9, 6)), 4);
}

#[test]
fn octile_distance_pays_diagonal_rate_on_smallest_delta() {
    let h = OctileDistance {};
    // deltas (1, 2, 3): floor(1 * sqrt(3)) + (3 - 1) = 1 + 2
    assert_eq!(h.distance(&at(0, 0, 0), &at(1, 2, 3)), 3);
    // deltas (3, 4, 0): the smallest is 0, so it degenerates to the max
    assert_eq!(h.distance(&at(0, 0, 0), &at(3, 4, 0)), 4);
    // deltas (10, 10, 10): floor(10 * sqrt(3)) + 0 = 17
    assert_eq!(h.distance(&at(0, 0, 0), &at(10, 10, 10)), 17);
}

#[test]
fn diagonal_distance_is_max_of_l1_and_chebyshev() {
    let h = DiagonalDistance {};
    assert_eq!(h.distance(&at(0, 0, 0), &at(1, 2, 3)), 6);
    assert_eq!(h.distance(&at(0, 0, 0), &at(0, 0, 4)), 4);
}

#[test]
fn dijkstra_distance_is_zero() {
    let h = DijkstraDistance {};
    assert_eq!(h.distance(&at(0, 0, 0), &at(100, -7, 3)), 0);
}

#[test]
fn euclidean_cost_matches_euclidean_distance() {
    let c = EuclideanCost {};
    assert_eq!(c.cost(&at(0, 0, 0), &at(3, 4, 0)), 5);
    assert_eq!(c.cost(&at(0, 0, 0), &at(0, 1, 0)), 1);
}

#[test]
fn manhattan_cost_of_unit_step_is_one() {
    let c = ManhattanCost {};
    assert_eq!(c.cost(&at(2, 2, 0), &at(2, 3, 0)), 1);
    assert_eq!(c.cost(&at(0, 0, 0), &at(-3, 4, 1)), 8);
}

#[test]
fn static_cost_ignores_positions() {
    let c = StaticCost { cost: 7 };
    assert_eq!(c.cost(&at(0, 0, 0), &at(9, 9, 9)), 7);
    assert_eq!(c.cost(&at(1, 2, 3), &at(1, 2, 3)), 7);
}
