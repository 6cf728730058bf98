use astar_maze::a_star::AStar;
use astar_maze::heuristic::{ManhattanCost, ManhattanDistance};
use astar_maze::maze::{DefaultMaze, Maze, MazeGenerator};
use astar_maze::node::{Node, NodeList};

#[test]
fn default_maze_lattice_and_markers() {
    let m = DefaultMaze::new(5, 5).maze;
    assert_eq!(m.len(), 5);
    for row in &m {
        assert_eq!(row.len(), 5);
    }
    assert_eq!(m[0][0], -1);
    assert_eq!(m[4][4], 2);
    assert_eq!(m[2][2], 0); // even/even lattice cell
    assert_eq!(m[0][2], 0);
    assert_eq!(m[0][1], 1); // wall between lattice cells
    assert_eq!(m[1][1], 1);
    assert_eq!(m[3][3], 1);
}

#[test]
fn default_maze_rounds_width_to_odd() {
    let m = DefaultMaze::new(4, 4).maze;
    assert_eq!(m.len(), 4);
    for row in &m {
        assert_eq!(row.len(), 5);
    }
    assert_eq!(m[3][4], 2);
    assert_eq!(m[0][0], -1);
}

#[test]
fn generator_lists_only_unblocked_cells() {
    let grid = vec![vec![0, 1, 0], vec![1, 2, -1]];
    let generator = MazeGenerator::new(grid, false);
    let positions: Vec<(i32, i32)> = generator.nodes.nodes.iter().map(|n| (n.x, n.y)).collect();
    assert_eq!(positions, vec![(0, 0), (0, 2), (1, 1), (1, 2)]);
    for n in &generator.nodes.nodes {
        assert_eq!(n.z, 0);
        assert_eq!(n.core_cost, 0);
        assert!(n.parent.is_none());
    }
    assert!(generator.visited.is_empty());
}

/// Flood fill over free cells (value != 1), 4-connected.
fn count_reachable_free_cells(grid: &Vec<Vec<i32>>, sx: usize, sy: usize) -> usize {
    let rows = grid.len();
    let cols = grid[0].len();
    let mut seen = vec![vec![false; cols]; rows];
    let mut queue = vec![(sx, sy)];
    seen[sx][sy] = true;
    let mut count: usize = 0;
    while let Some((x, y)) = queue.pop() {
        count += 1;
        let mut next = Vec::new();
        if x > 0 {
            next.push((x - 1, y));
        }
        if x + 1 < rows {
            next.push((x + 1, y));
        }
        if y > 0 {
            next.push((x, y - 1));
        }
        if y + 1 < cols {
            next.push((x, y + 1));
        }
        for (nx, ny) in next {
            if !seen[nx][ny] && grid[nx][ny] != 1 {
                seen[nx][ny] = true;
                queue.push((nx, ny));
            }
        }
    }
    count
}

#[test]
fn carved_maze_is_fully_connected() {
    // After the randomized carving, every free cell must be reachable from
    // the start corner, whatever order the random generator produced.
    let maze = DefaultMaze::new(15, 15).maze;
    let mut generator = MazeGenerator::new(maze, false);
    generator.randomized_dfs(Node::new(0, 0, 0, 0, None));

    let grid = &generator.maze;
    let total_free: usize = grid
        .iter()
        .map(|row| row.iter().filter(|v| **v != 1).count())
        .sum();
    let reachable = count_reachable_free_cells(grid, 0, 0);
    assert_eq!(reachable, total_free);
    assert!(!generator.visited.is_empty());
    assert_eq!((generator.visited[0].x, generator.visited[0].y), (0, 0));
}

#[test]
fn carving_only_opens_walls() {
    let before = DefaultMaze::new(9, 9).maze;
    let mut generator = MazeGenerator::new(before.clone(), false);
    generator.randomized_dfs(Node::new(0, 0, 0, 0, None));
    let after = &generator.maze;
    assert_eq!(after.len(), before.len());
    for x in 0..before.len() {
        assert_eq!(after[x].len(), before[x].len());
        for y in 0..before[x].len() {
            assert!(after[x][y] == before[x][y] || after[x][y] == 0);
        }
    }
}

#[test]
fn search_solves_a_generated_maze() {
    // End to end: generate a maze, then find a path from the start marker
    // to the target marker; connectivity guarantees one exists.
    let maze = DefaultMaze::new(9, 9).maze;
    let mut generator = MazeGenerator::new(maze, false);
    generator.randomized_dfs(Node::new(0, 0, 0, 0, None));
    let grid = generator.maze;

    let mut node_list = NodeList::new();
    let mut start_node = Node::new(0, 0, 0, 0, None);
    let mut target_node = Node::new(0, 0, 0, 0, None);
    for (i, row) in grid.iter().enumerate() {
        for (j, value) in row.iter().enumerate() {
            if *value != 1 {
                node_list.push(Some(Box::new(Node::new(i as i32, j as i32, 0, 0, None))));
            }
            if *value == -1 {
                start_node = Node::new(i as i32, j as i32, 0, 0, None);
            } else if *value == 2 {
                target_node = Node::new(i as i32, j as i32, 0, 0, None);
            }
        }
    }

    let mut engine = AStar::new(
        ManhattanDistance {},
        ManhattanCost {},
        node_list,
        start_node,
        target_node,
        Maze::new(grid.clone()),
        false,
    );
    let (path, iters) = engine.evaluate();
    let head = path.expect("a carved maze always connects start and target");
    assert!(iters > 0);
    assert_eq!((head.x, head.y), (8, 8));

    // the parent chain must run back to the start over free cells
    let mut cur = &head;
    loop {
        assert!(grid[cur.x as usize][cur.y as usize] != 1);
        match &cur.parent {
            Some(p) => cur = p,
            None => break,
        }
    }
    assert_eq!((cur.x, cur.y), (0, 0));
}
