use astar_maze::a_star::AStar;
use astar_maze::heuristic::{DijkstraDistance, ManhattanCost, ManhattanDistance};
use astar_maze::maze::Maze;
use astar_maze::node::{get_path_cost, Node, NodeList};

/// Builds the node list, start node and target node from a grid literal,
/// following the marker convention: -1 start, 2 target, 1 blocked, 0 free,
/// anything else a free cell with that value as intrinsic cost.
fn build_search_input(grid: &Vec<Vec<i32>>) -> (NodeList, Node, Node) {
    let mut node_list = NodeList::new();
    let mut start_node = Node::new(0, 0, 0, 0, None);
    let mut target_node = Node::new(0, 0, 0, 0, None);

    for (i, row) in grid.iter().enumerate() {
        for (j, value) in row.iter().enumerate() {
            let x = i as i32;
            let y = j as i32;
            if *value == 0 {
                node_list.push(Some(Box::new(Node::new(x, y, 0, 0, None))));
            } else if *value == 2 {
                node_list.push(Some(Box::new(Node::new(x, y, 0, 0, None))));
                target_node = Node::new(x, y, 0, 0, None);
            } else if *value == -1 {
                node_list.push(Some(Box::new(Node::new(x, y, 0, 0, None))));
                start_node = Node::new(x, y, 0, 0, None);
            } else if *value != 1 {
                node_list.push(Some(Box::new(Node::new(x, y, 0, *value as u64, None))));
            }
        }
    }
    (node_list, start_node, target_node)
}

/// Positions along the parent chain, goal first, root last.
fn chain_positions(head: &Node) -> Vec<(i32, i32, i32)> {
    let mut out = Vec::new();
    let mut cur = head;
    loop {
        out.push((cur.x, cur.y, cur.z));
        match &cur.parent {
            Some(p) => cur = p,
            None => break,
        }
    }
    out
}

/// Sum of per-step costs along the chain under Manhattan step cost plus
/// each entered cell's core cost, recomputed independently of `g`.
fn manhattan_chain_cost(head: &Node) -> u64 {
    let mut total: u64 = 0;
    let mut cur = head;
    while let Some(p) = &cur.parent {
        let dx = (cur.x - p.x).abs() as u64;
        let dy = (cur.y - p.y).abs() as u64;
        let dz = (cur.z - p.z).abs() as u64;
        total += dx + dy + dz + cur.core_cost;
        cur = p;
    }
    total
}

#[test]
fn wall_gap_scenario() {
    // 10x10 grid, a vertical wall in column 4 blocked everywhere except the
    // single gap at row 5; start (0,0), target (7,6).
    let mut grid = vec![vec![0i32; 10]; 10];
    for x in 0..10 {
        if x != 5 {
            grid[x][4] = 1;
        }
    }
    grid[0][0] = -1;
    grid[7][6] = 2;

    let (nodes, start, target) = build_search_input(&grid);
    let mut engine = AStar::new(
        ManhattanDistance {},
        ManhattanCost {},
        nodes,
        start,
        target,
        Maze::new(grid.clone()),
        false,
    );
    let (path, iters) = engine.evaluate();
    let head = path.expect("a path must exist through the gap");
    assert!(iters > 0);

    let positions = chain_positions(&head);
    assert_eq!(*positions.first().unwrap(), (7, 6, 0));
    assert_eq!(*positions.last().unwrap(), (0, 0, 0));
    assert!(
        positions.contains(&(5, 4, 0)),
        "the path must route through the single gap in the wall"
    );
    assert_eq!(get_path_cost(Some(head.clone())), manhattan_chain_cost(&head));
}

#[test]
fn blocked_start_returns_no_path_after_zero_iterations() {
    let mut grid = vec![vec![0i32; 3]; 3];
    grid[0][0] = 1; // the start cell itself is blocked
    grid[2][2] = 2;

    let (nodes, _, target) = build_search_input(&grid);
    let start = Node::new(0, 0, 0, 0, None);
    let mut engine = AStar::new(
        ManhattanDistance {},
        ManhattanCost {},
        nodes,
        start,
        target,
        Maze::new(grid.clone()),
        false,
    );
    let (path, iters) = engine.evaluate();
    assert!(path.is_none());
    assert_eq!(iters, 0);
}

#[test]
fn start_equals_target_returns_single_node_path() {
    let grid = vec![vec![0i32; 3]; 3];
    let (nodes, _, _) = build_search_input(&grid);
    let start = Node::new(1, 1, 0, 0, None);
    let target = Node::new(1, 1, 0, 0, None);
    let mut engine = AStar::new(
        ManhattanDistance {},
        ManhattanCost {},
        nodes,
        start,
        target,
        Maze::new(grid.clone()),
        false,
    );
    let (path, iters) = engine.evaluate();
    let head = path.expect("start == target must yield a path");
    assert_eq!(iters, 0);
    assert!(head.parent.is_none());
    assert_eq!(head.g, 0);
    assert_eq!((head.x, head.y, head.z), (1, 1, 0));
    assert_eq!(get_path_cost(Some(head)), 0);
}

#[test]
fn exhaustion_stays_within_free_cell_count() {
    // 3x3 of free cells, target outside the grid: the search must exhaust
    // the open set after at most one expansion per free cell.
    let grid = vec![vec![0i32; 3]; 3];
    let (nodes, _, _) = build_search_input(&grid);
    let start = Node::new(0, 0, 0, 0, None);
    let target = Node::new(50, 50, 0, 0, None);
    let mut engine = AStar::new(
        ManhattanDistance {},
        ManhattanCost {},
        nodes,
        start,
        target,
        Maze::new(grid.clone()),
        false,
    );
    let (path, iters) = engine.evaluate();
    assert!(path.is_none());
    assert!(iters <= 9);
    assert!(iters > 0);
}

#[test]
fn rerunning_unmodified_input_gives_same_result() {
    let mut grid = vec![vec![0i32; 6]; 6];
    grid[1][1] = 1;
    grid[2][1] = 1;
    grid[3][1] = 1;
    grid[0][0] = -1;
    grid[5][5] = 2;

    let mut results = Vec::new();
    for _ in 0..2 {
        let (nodes, start, target) = build_search_input(&grid);
        let mut engine = AStar::new(
            ManhattanDistance {},
            ManhattanCost {},
            nodes,
            start,
            target,
            Maze::new(grid.clone()),
            false,
        );
        let (path, iters) = engine.evaluate();
        let head = path.expect("path exists");
        results.push((chain_positions(&head), head.g, iters));
    }
    assert_eq!(results[0], results[1]);
}

#[test]
fn zero_heuristic_corridor_cost_is_shortest() {
    // A free 1x5 corridor: the uniform-cost search must report cost 4.
    let mut grid = vec![vec![0i32; 5]];
    grid[0][0] = -1;
    grid[0][4] = 2;
    let (nodes, start, target) = build_search_input(&grid);
    let mut engine = AStar::new(
        DijkstraDistance {},
        ManhattanCost {},
        nodes,
        start,
        target,
        Maze::new(grid.clone()),
        false,
    );
    let (path, _) = engine.evaluate();
    assert_eq!(get_path_cost(path), 4);
}

#[test]
fn zero_heuristic_takes_cheap_detour_around_costly_cell() {
    // Two routes to the target: straight over a cell with core cost 10
    // (total 12), or around through the free row (total 4).  The
    // uniform-cost search must come back with the cheap detour.
    let grid = vec![vec![-1, 10, 2], vec![0, 0, 0]];
    let (nodes, start, target) = build_search_input(&grid);
    let mut engine = AStar::new(
        DijkstraDistance {},
        ManhattanCost {},
        nodes,
        start,
        target,
        Maze::new(grid.clone()),
        false,
    );
    let (path, _) = engine.evaluate();
    let head = path.expect("path exists");
    assert_eq!(head.g, 4);
    assert_eq!(get_path_cost(Some(head)), 4);
}
