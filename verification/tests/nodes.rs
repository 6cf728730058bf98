use astar_maze::heuristic::{DijkstraDistance, ManhattanCost, ManhattanDistance, StaticCost};
use astar_maze::node::{get_path_cost, Node, NodeList, Validity};

#[test]
fn new_node_starts_with_zero_costs() {
    let n = Node::new(3, 4, 5, 9, None);
    assert_eq!((n.x, n.y, n.z), (3, 4, 5));
    assert_eq!((n.f, n.g, n.h), (0, 0, 0));
    assert_eq!(n.core_cost, 9);
    assert!(n.parent.is_none());
}

#[test]
fn equals_compares_positions_only() {
    let a = Node::new(1, 2, 3, 0, None);
    let mut b = Node::new(1, 2, 3, 50, None);
    b.g = 99;
    b.f = 99;
    assert!(a.equals(&b));
    let c = Node::new(1, 2, 4, 0, None);
    assert!(!a.equals(&c));
}

#[test]
fn is_valid_accepts_orthogonal_neighbors_only() {
    let center = Node::new(5, 5, 0, 0, None);
    assert!(Node::new(5, 6, 0, 0, None).is_valid(center.clone()));
    assert!(Node::new(4, 5, 0, 0, None).is_valid(center.clone()));
    assert!(!Node::new(5, 5, 0, 0, None).is_valid(center.clone())); // itself
    assert!(!Node::new(6, 6, 0, 0, None).is_valid(center.clone())); // diagonal
    assert!(!Node::new(5, 7, 0, 0, None).is_valid(center.clone())); // two away
}

#[test]
fn off_of_copies_fields_and_replaces_parent() {
    let mut base = Node::new(2, 3, 0, 4, None);
    base.g = 10;
    base.h = 5;
    base.f = 15;
    let parent = Node::new(1, 3, 0, 0, None);
    let child = base.off_of(Some(Box::new(parent.clone())));
    assert_eq!((child.x, child.y, child.z), (2, 3, 0));
    assert_eq!((child.f, child.g, child.h), (15, 10, 5));
    assert_eq!(child.core_cost, 4);
    assert!(child.parent.as_ref().unwrap().equals(&parent));
}

#[test]
fn clone_is_a_deep_copy_of_the_chain() {
    let root = Node::new(0, 0, 0, 0, None);
    let mut mid = Node::new(0, 1, 0, 0, Some(Box::new(root)));
    mid.g = 7;
    let copy = mid.clone();
    assert!(copy.equals(&mid));
    assert_eq!(copy.g, 7);
    assert!(copy.parent.as_ref().unwrap().parent.is_none());
    assert_eq!(copy.parent.as_ref().unwrap().x, 0);
}

#[test]
fn update_without_parent_resets_g_to_zero() {
    let mut n = Node::new(4, 0, 0, 3, None);
    n.g = 100;
    let target = Node::new(0, 0, 0, 0, None);
    n.update(&target, &ManhattanDistance {}, &ManhattanCost {});
    assert_eq!(n.g, 0);
    assert_eq!(n.h, 4);
    assert_eq!(n.f, 4);
}

#[test]
fn update_with_parent_accumulates_step_and_core_cost() {
    let mut parent = Node::new(0, 0, 0, 0, None);
    parent.g = 5;
    let mut n = Node::new(0, 1, 0, 3, Some(Box::new(parent)));
    let target = Node::new(0, 5, 0, 0, None);
    n.update(&target, &ManhattanDistance {}, &ManhattanCost {});
    assert_eq!(n.g, 5 + 1 + 3);
    assert_eq!(n.h, 4);
    assert_eq!(n.f, 13);
}

#[test]
fn update_with_static_cost_uses_the_constant() {
    let mut parent = Node::new(0, 0, 0, 0, None);
    parent.g = 2;
    let mut n = Node::new(1, 0, 0, 0, Some(Box::new(parent)));
    let target = Node::new(9, 9, 9, 0, None);
    n.update(&target, &DijkstraDistance {}, &StaticCost { cost: 11 });
    assert_eq!(n.g, 13);
    assert_eq!(n.h, 0);
    assert_eq!(n.f, 13);
}

#[test]
fn get_path_cost_returns_accumulated_g() {
    let mut n = Node::new(0, 0, 0, 0, None);
    n.g = 42;
    assert_eq!(get_path_cost(Some(Box::new(n))), 42);
}

#[test]
fn push_appends_and_from_vec_wraps() {
    let mut list = NodeList::new();
    assert_eq!(list.nodes.len(), 0);
    list.push(Some(Box::new(Node::new(1, 0, 0, 0, None))));
    list.push(Some(Box::new(Node::new(2, 0, 0, 0, None))));
    assert_eq!(list.nodes.len(), 2);
    assert_eq!(list.nodes[1].x, 2);

    let v = vec![Node::new(7, 7, 0, 0, None)];
    let wrapped = NodeList::from_vec(v);
    assert_eq!(wrapped.nodes.len(), 1);
    assert_eq!(wrapped.nodes[0].x, 7);
}

#[test]
fn contains_and_get_position_use_position_equality() {
    let mut list = NodeList::new();
    list.push(Some(Box::new(Node::new(0, 0, 0, 0, None))));
    list.push(Some(Box::new(Node::new(3, 4, 0, 0, None))));

    let mut probe = Node::new(3, 4, 0, 99, None);
    probe.g = 1234; // cost fields must not matter
    assert!(list.contains(&probe));
    assert_eq!(list.get_position(&probe), Some(1));

    let missing = Node::new(9, 9, 0, 0, None);
    assert!(!list.contains(&missing));
    assert_eq!(list.get_position(&missing), None);
}

#[test]
fn find_walkable_filters_adjacent_cells() {
    let mut list = NodeList::new();
    for (x, y) in [(0, 0), (0, 1), (1, 0), (1, 1), (0, 3)] {
        list.push(Some(Box::new(Node::new(x, y, 0, 0, None))));
    }
    let walkable = list.find_walkable(Node::new(0, 0, 0, 0, None));
    let positions: Vec<(i32, i32)> = walkable.iter().map(|n| (n.x, n.y)).collect();
    assert_eq!(positions, vec![(0, 1), (1, 0)]);
}

#[test]
fn find_gen_walkable_finds_cells_two_steps_away() {
    let mut list = NodeList::new();
    for (x, y) in [(0, 0), (0, 2), (2, 0), (1, 1), (0, 4), (2, 2)] {
        list.push(Some(Box::new(Node::new(x, y, 0, 0, None))));
    }
    let walkable = list.find_gen_walkable(Node::new(0, 0, 0, 0, None));
    let positions: Vec<(i32, i32)> = walkable.iter().map(|n| (n.x, n.y)).collect();
    assert_eq!(positions, vec![(0, 2), (2, 0)]);
}

#[test]
fn get_min_cost_node_picks_first_lowest_f() {
    // With the zero heuristic and a constant step cost every parentless
    // node updates to f == 0, so the scan must settle on the first entry.
    let mut list = NodeList::new();
    list.push(Some(Box::new(Node::new(4, 0, 0, 0, None))));
    list.push(Some(Box::new(Node::new(1, 0, 0, 0, None))));
    let target = Node::new(0, 0, 0, 0, None);
    let picked = list
        .get_min_cost_node_from_node(target, &DijkstraDistance {}, &StaticCost { cost: 1 })
        .unwrap();
    assert_eq!(picked.x, 4);

    // With the Manhattan heuristic the closer node wins.
    let mut list2 = NodeList::new();
    list2.push(Some(Box::new(Node::new(4, 0, 0, 0, None))));
    list2.push(Some(Box::new(Node::new(1, 0, 0, 0, None))));
    let target2 = Node::new(0, 0, 0, 0, None);
    let picked2 = list2
        .get_min_cost_node_from_node(target2, &ManhattanDistance {}, &ManhattanCost {})
        .unwrap();
    assert_eq!(picked2.x, 1);

    let mut empty = NodeList::new();
    let target3 = Node::new(0, 0, 0, 0, None);
    assert!(empty
        .get_min_cost_node_from_node(target3, &ManhattanDistance {}, &ManhattanCost {})
        .is_none());
}

#[test]
fn update_nodes_refreshes_every_entry() {
    let mut list = NodeList::new();
    list.push(Some(Box::new(Node::new(2, 0, 0, 0, None))));
    list.push(Some(Box::new(Node::new(0, 3, 0, 0, None))));
    let target = Node::new(0, 0, 0, 0, None);
    list.update_nodes(target, &ManhattanDistance {}, &ManhattanCost {});
    assert_eq!(list.nodes[0].h, 2);
    assert_eq!(list.nodes[0].f, 2);
    assert_eq!(list.nodes[1].h, 3);
    assert_eq!(list.nodes[1].f, 3);
    assert_eq!(list.nodes[0].g, 0);
}

#[test]
fn update_saturates_instead_of_overflowing() {
    let mut parent = Node::new(0, 0, 0, 0, None);
    parent.g = u64::MAX - 2;
    let mut n = Node::new(0, 1, 0, 5, Some(Box::new(parent)));
    let target = Node::new(0, 1, 0, 0, None);
    n.update(&target, &DijkstraDistance {}, &ManhattanCost {});
    // (MAX - 2) + 1 + 5 sticks at the ceiling
    assert_eq!(n.g, u64::MAX);
    assert_eq!(n.f, u64::MAX);
}
