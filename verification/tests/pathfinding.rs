use grid_engines::grid::{coords_of, index_of, GridError};
use grid_engines::pathfind::{
    get_neighbors, reset_and_clone_nodes, Node, PathGrid, UNREACHED,
};

fn manhattan(w: usize, a: usize, b: usize) -> usize {
    let (ax, ay) = (a % w, a / w);
    let (bx, by) = (b % w, b / w);
    ax.abs_diff(bx) + ay.abs_diff(by)
}

fn assert_path_shape(w: usize, path: &[usize], start: usize, goal: usize) {
    assert!(path.len() >= 1);
    assert_eq!(path[0], start);
    assert_eq!(*path.last().unwrap(), goal);
    for k in 0..path.len() - 1 {
        assert_eq!(manhattan(w, path[k], path[k + 1]), 1, "consecutive cells must be adjacent");
    }
    for k in 0..path.len() {
        for l in k + 1..path.len() {
            assert_ne!(path[k], path[l], "a path never repeats a cell");
        }
    }
}

#[test]
fn addressing_roundtrip() {
    assert_eq!(index_of(4, 3, 2, 1), Ok(6));
    assert_eq!(coords_of(4, 3, 6), Ok((2, 1)));
    assert_eq!(index_of(4, 3, 4, 0), Err(GridError::OutOfRange));
    assert_eq!(index_of(4, 3, 0, 3), Err(GridError::OutOfRange));
    assert_eq!(coords_of(4, 3, 12), Err(GridError::OutOfRange));
    for i in 0..12 {
        let (x, y) = coords_of(4, 3, i).unwrap();
        assert_eq!(index_of(4, 3, x, y), Ok(i));
    }
}

#[test]
fn distance_is_floor_of_euclid() {
    let mk = |x: i32, y: i32| Node {
        x,
        y,
        obstacle: false,
        visited: false,
        global_goal: UNREACHED,
        local_goal: UNREACHED,
        parent: None,
    };
    assert_eq!(mk(0, 0).distance(&mk(3, 4)), 5);
    assert_eq!(mk(3, 4).distance(&mk(0, 0)), 5);
    assert_eq!(mk(0, 0).distance(&mk(1, 1)), 1);
    assert_eq!(mk(2, 2).distance(&mk(2, 2)), 0);
    assert_eq!(mk(0, 0).distance(&mk(10, 0)), 10);
    assert_eq!(mk(5, 5).heuristic(&mk(6, 7)), 2);
}

#[test]
fn neighbors_in_fixed_order() {
    let grid = PathGrid::new(3, 3);
    // center cell: north, south, west, east
    assert_eq!(get_neighbors(4, &grid.nodes, 3, 3), vec![1, 7, 3, 5]);
    // corner and edge cells: only the lattice boundary excludes a neighbor
    assert_eq!(get_neighbors(0, &grid.nodes, 3, 3), vec![3, 1]);
    assert_eq!(get_neighbors(8, &grid.nodes, 3, 3), vec![5, 7]);
    assert_eq!(get_neighbors(5, &grid.nodes, 3, 3), vec![2, 8, 4]);
    // the neighborhood is geometric: an obstacle neighbor is still a
    // neighbor (the search skips it only when expanding)
    let mut grid = grid;
    grid.set_obstacle(1, true).unwrap();
    assert_eq!(get_neighbors(4, &grid.nodes, 3, 3), vec![1, 7, 3, 5]);
}

#[test]
fn reset_clears_costs_keeps_obstacles() {
    let mut grid = PathGrid::new(4, 4);
    grid.set_obstacle(5, true).unwrap();
    grid.find_path(0, 15).unwrap();
    let fresh = reset_and_clone_nodes(&grid.nodes);
    assert_eq!(fresh.len(), 16);
    for (i, n) in fresh.iter().enumerate() {
        assert_eq!(n.obstacle, i == 5);
        assert_eq!(n.global_goal, UNREACHED);
        assert_eq!(n.local_goal, UNREACHED);
        assert_eq!(n.parent, None);
        assert!(!n.visited);
        assert_eq!(n.x as usize, i % 4);
        assert_eq!(n.y as usize, i / 4);
    }
}

#[test]
fn empty_grid_paths_have_manhattan_length() {
    let mut grid = PathGrid::new(8, 8);
    let pairs = [(0, 63), (7, 56), (9, 52), (20, 20), (3, 4)];
    for (s, g) in pairs {
        let path = grid.find_path(s, g).unwrap().expect("route must exist on an empty grid");
        assert_path_shape(8, &path, s, g);
        assert_eq!(path.len(), manhattan(8, s, g) + 1, "empty grid: shortest is Manhattan");
    }
}

#[test]
fn horizontal_corridor_16x16() {
    let mut grid = PathGrid::new(16, 16);
    let start = 17; // (1, 1)
    let goal = 30; // (14, 1)
    let path = grid.find_path(start, goal).unwrap().expect("route must exist");
    assert_path_shape(16, &path, start, goal);
    assert_eq!(path.len(), 14, "13 steps, purely horizontal");
    for &i in &path {
        assert_eq!(i / 16, 1, "every cell of the route stays on row 1");
    }
}

#[test]
fn start_equals_goal_single_cell_path() {
    let mut grid = PathGrid::new(5, 5);
    let path = grid.find_path(12, 12).unwrap().expect("trivial route must exist");
    assert_eq!(path, vec![12]);
}

#[test]
fn obstacle_endpoints_yield_none() {
    let mut grid = PathGrid::new(6, 6);
    grid.set_obstacle(0, true).unwrap();
    assert_eq!(grid.find_path(0, 35).unwrap(), None);
    assert_eq!(grid.find_path(35, 0).unwrap(), None);
    // even when start == goal
    assert_eq!(grid.find_path(0, 0).unwrap(), None);
}

#[test]
fn separating_wall_yields_none() {
    let mut grid = PathGrid::new(10, 10);
    for y in 0..10 {
        grid.set_obstacle(y * 10 + 5, true).unwrap();
    }
    assert_eq!(grid.find_path(3, 9).unwrap(), None);
    assert_eq!(grid.find_path(90, 99).unwrap(), None);
}

#[test]
fn rerun_after_toggle_is_not_stale() {
    // Run once, toggle one obstacle, run again: the second result must be
    // identical to a search on a fresh grid with the same obstacle layer.
    let mut grid = PathGrid::new(8, 8);
    let first = grid.find_path(0, 63).unwrap();
    assert!(first.is_some());
    grid.set_obstacle(9, true).unwrap();
    assert!(grid.needs_a_star_run);
    let rerun = grid.find_path(0, 63).unwrap();
    assert!(!grid.needs_a_star_run);

    let mut fresh = PathGrid::new(8, 8);
    fresh.set_obstacle(9, true).unwrap();
    let reference = fresh.find_path(0, 63).unwrap();
    assert_eq!(rerun, reference);

    // and toggling back restores the unobstructed result
    grid.set_obstacle(9, false).unwrap();
    let back = grid.find_path(0, 63).unwrap();
    let mut fresh2 = PathGrid::new(8, 8);
    let reference2 = fresh2.find_path(0, 63).unwrap();
    assert_eq!(back, reference2);
}

#[test]
fn detour_around_obstacles() {
    // A short wall forces a detour: still a valid path, longer than Manhattan.
    let mut grid = PathGrid::new(7, 7);
    // wall at x=3, y=0..=5 leaves a gap at y=6
    for y in 0..6 {
        grid.set_obstacle(y * 7 + 3, true).unwrap();
    }
    let path = grid.find_path(0, 6).unwrap().expect("gap leaves a route");
    assert_path_shape(7, &path, 0, 6);
    assert!(path.len() > manhattan(7, 0, 6) + 1);
    for &i in &path {
        assert!(!(i % 7 == 3 && i / 7 < 6), "route never enters the wall");
    }
}

#[test]
fn setter_errors_leave_grid_unchanged() {
    let mut grid = PathGrid::new(4, 4);
    assert_eq!(grid.set_obstacle(16, true), Err(GridError::OutOfRange));
    assert_eq!(grid.set_start(99), Err(GridError::OutOfRange));
    assert_eq!(grid.set_end(16), Err(GridError::OutOfRange));
    assert_eq!(grid.find_path(0, 16), Err(GridError::OutOfRange));
    assert_eq!(grid.find_path(16, 0), Err(GridError::OutOfRange));
    assert_eq!(grid.node_start_index, None);
    assert_eq!(grid.node_end_index, None);
    for n in &grid.nodes {
        assert!(!n.obstacle);
    }
}

#[test]
fn setters_mark_dirty_and_record_endpoints() {
    let mut grid = PathGrid::new(4, 4);
    grid.find_path(0, 15).unwrap();
    assert!(!grid.needs_a_star_run);
    grid.set_start(1).unwrap();
    assert_eq!(grid.node_start_index, Some(1));
    assert!(grid.needs_a_star_run);
    grid.find_path(1, 15).unwrap();
    grid.set_end(14).unwrap();
    assert_eq!(grid.node_end_index, Some(14));
    assert!(grid.needs_a_star_run);
}
