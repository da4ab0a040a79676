use grid_engines::grid::GridError;
use grid_engines::maze::{
    MazeGen, CELL_PATH_E, CELL_PATH_N, CELL_PATH_S, CELL_PATH_W, CELL_VISITED,
};

fn run_to_done(gen: &mut MazeGen, max_steps: usize) -> usize {
    let mut steps = 0;
    while steps < max_steps {
        if gen.step().unwrap() {
            return steps;
        }
        steps += 1;
    }
    panic!("generator did not finish within {max_steps} steps");
}

fn snapshot(gen: &MazeGen, w: usize, h: usize) -> Vec<u32> {
    (0..w * h).map(|i| gen.cell_state(i).unwrap()).collect()
}

fn assert_perfect_maze(cells: &[u32], w: usize, h: usize) {
    // every cell visited
    assert_eq!(cells.iter().filter(|&&c| c & CELL_VISITED != 0).count(), w * h);
    // passage count: every corridor sets exactly one east or south bit
    let corridors: usize = cells
        .iter()
        .map(|&c| ((c & CELL_PATH_E != 0) as usize) + ((c & CELL_PATH_S != 0) as usize))
        .sum();
    assert_eq!(corridors, w * h - 1, "a spanning tree has exactly n - 1 edges");
    // passages are symmetric and stay on the lattice
    for y in 0..h {
        for x in 0..w {
            let c = cells[y * w + x];
            if c & CELL_PATH_N != 0 {
                assert!(y > 0 && cells[(y - 1) * w + x] & CELL_PATH_S != 0);
            }
            if c & CELL_PATH_S != 0 {
                assert!(y < h - 1 && cells[(y + 1) * w + x] & CELL_PATH_N != 0);
            }
            if c & CELL_PATH_W != 0 {
                assert!(x > 0 && cells[y * w + x - 1] & CELL_PATH_E != 0);
            }
            if c & CELL_PATH_E != 0 {
                assert!(x < w - 1 && cells[y * w + x + 1] & CELL_PATH_W != 0);
            }
        }
    }
    // every cell reachable from cell 0 through passages
    let mut seen = vec![false; w * h];
    let mut queue = vec![0usize];
    seen[0] = true;
    while let Some(i) = queue.pop() {
        let (x, y) = (i % w, i / w);
        let c = cells[i];
        let mut push = |j: usize, seen: &mut Vec<bool>, queue: &mut Vec<usize>| {
            if !seen[j] {
                seen[j] = true;
                queue.push(j);
            }
        };
        if c & CELL_PATH_N != 0 {
            push((y - 1) * w + x, &mut seen, &mut queue);
        }
        if c & CELL_PATH_S != 0 {
            push((y + 1) * w + x, &mut seen, &mut queue);
        }
        if c & CELL_PATH_W != 0 {
            push(y * w + x - 1, &mut seen, &mut queue);
        }
        if c & CELL_PATH_E != 0 {
            push(y * w + x + 1, &mut seen, &mut queue);
        }
    }
    assert!(seen.iter().all(|&s| s), "every cell reachable from the start");
}

#[test]
fn use_before_session_is_rejected() {
    let mut gen = MazeGen::new();
    assert_eq!(gen.step(), Err(GridError::SessionNotStarted));
    assert_eq!(gen.cell_state(0), Err(GridError::SessionNotStarted));
}

#[test]
fn start_session_rejects_off_lattice_start() {
    let mut gen = MazeGen::new();
    assert_eq!(gen.start_session(3, 3, 9, 1), Err(GridError::OutOfRange));
    assert_eq!(gen.step(), Err(GridError::SessionNotStarted));
}

#[test]
fn cell_state_rejects_off_lattice_index() {
    let mut gen = MazeGen::new();
    gen.start_session(3, 3, 0, 1).unwrap();
    assert_eq!(gen.cell_state(9), Err(GridError::OutOfRange));
    assert_eq!(gen.cell_state(8).unwrap() & CELL_VISITED, 0);
    assert_eq!(gen.cell_state(0).unwrap(), CELL_VISITED);
}

#[test]
fn three_by_three_maze_is_perfect() {
    let mut gen = MazeGen::new();
    gen.start_session(3, 3, 0, 7).unwrap();
    assert_eq!(gen.visited_cell_count, 1);
    run_to_done(&mut gen, 1000);
    assert!(gen.is_done());
    assert_eq!(gen.visited_cell_count, 9);
    let cells = snapshot(&gen, 3, 3);
    assert_perfect_maze(&cells, 3, 3);
}

#[test]
fn larger_maze_is_perfect() {
    let mut gen = MazeGen::new();
    gen.start_session(8, 5, 12, 12345).unwrap();
    run_to_done(&mut gen, 10_000);
    assert_eq!(gen.visited_cell_count, 40);
    let cells = snapshot(&gen, 8, 5);
    assert_perfect_maze(&cells, 8, 5);
}

#[test]
fn done_state_is_a_read_only_no_op() {
    let mut gen = MazeGen::new();
    gen.start_session(3, 3, 4, 99).unwrap();
    run_to_done(&mut gen, 1000);
    let before = snapshot(&gen, 3, 3);
    assert_eq!(gen.step(), Ok(true));
    assert_eq!(gen.step(), Ok(true));
    assert_eq!(snapshot(&gen, 3, 3), before);
    assert_eq!(gen.visited_cell_count, 9);
}

#[test]
fn same_seed_replays_same_carve_sequence() {
    let w = 3;
    let h = 3;
    let seed = 424_242;
    let mut a = MazeGen::new();
    let mut b = MazeGen::new();
    a.start_session(w, h, 0, seed).unwrap();
    b.start_session(w, h, 0, seed).unwrap();
    for _ in 0..200 {
        let da = a.step().unwrap();
        let db = b.step().unwrap();
        assert_eq!(da, db);
        assert_eq!(snapshot(&a, w, h), snapshot(&b, w, h), "same seed: same state after each step");
        if da {
            break;
        }
    }
    assert!(a.is_done() && b.is_done());
    assert_perfect_maze(&snapshot(&a, w, h), w, h);
}

#[test]
fn restarting_a_session_resets_state() {
    let mut gen = MazeGen::new();
    gen.start_session(4, 4, 0, 5).unwrap();
    run_to_done(&mut gen, 1000);
    gen.start_session(4, 4, 3, 6).unwrap();
    assert_eq!(gen.visited_cell_count, 1);
    assert_eq!(gen.cell_state(3).unwrap(), CELL_VISITED);
    assert!(!gen.is_done());
    run_to_done(&mut gen, 1000);
    assert_perfect_maze(&snapshot(&gen, 4, 4), 4, 4);
}
