//! Randomized maze generation by a stack-based depth-first backtracker,
//! executed one unit of work per `step` call so a host can animate it. Each
//! cell is a bitmask: a visited flag and four directional passage bits. A
//! session carves exactly one passage pair per visiting step, so when every
//! cell has been visited the maze holds `width * height - 1` passages.

use vstd::prelude::*;
use crate::grid::{GridError, MAX_SIDE, lemma_coords_of_index, lemma_index_of_coords, valid_dims, x_of, y_of};
use crate::rng::{rand_below, seed_rng};
use crate::tally::{lemma_sum_map_saturated, lemma_sum_map_update, lemma_sum_map_zero, sum_map};

verus! {

/// The cell has been visited by the carver.
pub const CELL_VISITED: u32 = 0x01;
/// A passage leads south out of the cell.
pub const CELL_PATH_S: u32 = 0x02;
/// A passage leads north out of the cell.
pub const CELL_PATH_N: u32 = 0x04;
/// A passage leads east out of the cell.
pub const CELL_PATH_E: u32 = 0x08;
/// A passage leads west out of the cell.
pub const CELL_PATH_W: u32 = 0x10;

/// Direction identifiers, in the fixed order the candidate set is built.
pub const NORTH_ID: u8 = 0;
pub const EAST_ID: u8 = 1;
pub const SOUTH_ID: u8 = 2;
pub const WEST_ID: u8 = 3;

pub open spec fn visited_bit(c: u32) -> bool {
    c & CELL_VISITED != 0
}

pub open spec fn path_n_bit(c: u32) -> bool {
    c & CELL_PATH_N != 0
}

pub open spec fn path_s_bit(c: u32) -> bool {
    c & CELL_PATH_S != 0
}

pub open spec fn path_e_bit(c: u32) -> bool {
    c & CELL_PATH_E != 0
}

pub open spec fn path_w_bit(c: u32) -> bool {
    c & CELL_PATH_W != 0
}

/// The cell of `maze` at coordinates `(x, y)`.
pub open spec fn cell_at(maze: Seq<u32>, w: int, x: int, y: int) -> u32 {
    maze[y * w + x]
}

/// Contribution of one cell to the visited count.
pub open spec fn visited_tally_fn() -> spec_fn(u32) -> int {
    |c: u32| if c & CELL_VISITED != 0 { 1int } else { 0int }
}

/// Contribution of one cell to the passage count. Every carved corridor
/// sets exactly one east or south bit among its two endpoint cells, so
/// counting those two bits counts each corridor once.
pub open spec fn passage_tally_fn() -> spec_fn(u32) -> int {
    |c: u32| (if c & CELL_PATH_E != 0 { 1int } else { 0int }) + (if c & CELL_PATH_S != 0 { 1int } else { 0int })
}

/// How many cells of the lattice are visited.
pub open spec fn visited_total(maze: Seq<u32>) -> int {
    sum_map(maze, visited_tally_fn())
}

/// How many corridors have been carved.
pub open spec fn passage_total(maze: Seq<u32>) -> int {
    sum_map(maze, passage_tally_fn())
}

/// Soundness of the cell array: one cell per lattice position, an
/// unvisited cell is still blank, and every passage bit is symmetric — it
/// leads to an in-bounds, visited cell that carries the returning bit.
/// Passages are only ever carved, in pairs, between visited cells.
pub open spec fn cells_wf(maze: Seq<u32>, w: int, h: int) -> bool {
    &&& maze.len() == w * h
    &&& forall|i: int| 0 <= i < maze.len() && !visited_bit(#[trigger] maze[i]) ==> maze[i] == 0
    &&& forall|x: int, y: int|
        0 <= x < w && 0 <= y < h ==> {
            &&& (path_n_bit(#[trigger] cell_at(maze, w, x, y)) ==> y > 0 && visited_bit(
                cell_at(maze, w, x, y - 1),
            ) && path_s_bit(cell_at(maze, w, x, y - 1)))
            &&& (path_s_bit(cell_at(maze, w, x, y)) ==> y < h - 1 && visited_bit(
                cell_at(maze, w, x, y + 1),
            ) && path_n_bit(cell_at(maze, w, x, y + 1)))
            &&& (path_e_bit(cell_at(maze, w, x, y)) ==> x < w - 1 && visited_bit(
                cell_at(maze, w, x + 1, y),
            ) && path_w_bit(cell_at(maze, w, x + 1, y)))
            &&& (path_w_bit(cell_at(maze, w, x, y)) ==> x > 0 && visited_bit(
                cell_at(maze, w, x - 1, y),
            ) && path_e_bit(cell_at(maze, w, x - 1, y)))
        }
}

/// The unvisited in-bounds neighbors of `(x, y)`, as direction
/// identifiers, gathered in the fixed order north, east, south, west.
pub open spec fn unvisited_neighbor_dirs(maze: Seq<u32>, w: int, h: int, x: int, y: int) -> Seq<
    u8,
> {
    (if y > 0 && !visited_bit(cell_at(maze, w, x, y - 1)) {
        seq![NORTH_ID]
    } else {
        Seq::<u8>::empty()
    }) + (if x < w - 1 && !visited_bit(cell_at(maze, w, x + 1, y)) {
        seq![EAST_ID]
    } else {
        Seq::<u8>::empty()
    }) + (if y < h - 1 && !visited_bit(cell_at(maze, w, x, y + 1)) {
        seq![SOUTH_ID]
    } else {
        Seq::<u8>::empty()
    }) + (if x > 0 && !visited_bit(cell_at(maze, w, x - 1, y)) {
        seq![WEST_ID]
    } else {
        Seq::<u8>::empty()
    })
}

/// The coordinates one step from `(x, y)` in direction `d`.
pub open spec fn dir_target(x: int, y: int, d: u8) -> (int, int) {
    if d == NORTH_ID {
        (x, y - 1)
    } else if d == EAST_ID {
        (x + 1, y)
    } else if d == SOUTH_ID {
        (x, y + 1)
    } else {
        (x - 1, y)
    }
}

/// The passage bits a carve in direction `d` sets: on the current cell,
/// and on the cell it reaches.
pub open spec fn dir_bits(d: u8) -> (u32, u32) {
    if d == NORTH_ID {
        (CELL_PATH_N, CELL_PATH_S)
    } else if d == EAST_ID {
        (CELL_PATH_E, CELL_PATH_W)
    } else if d == SOUTH_ID {
        (CELL_PATH_S, CELL_PATH_N)
    } else {
        (CELL_PATH_W, CELL_PATH_E)
    }
}

/// The cell array after carving a bidirectional passage from `(x, y)` in
/// direction `d`: the reached cell becomes visited with the returning
/// passage bit, the current cell gains the outgoing passage bit.
pub open spec fn carved(maze: Seq<u32>, w: int, x: int, y: int, d: u8) -> Seq<u32> {
    let target = dir_target(x, y, d);
    let bits = dir_bits(d);
    let m1 = maze.update(target.1 * w + target.0, maze[target.1 * w + target.0] | (CELL_VISITED | bits.1));
    m1.update(y * w + x, (m1[y * w + x] | bits.0) | CELL_VISITED)
}

/// One move through a carved passage: the cell at `(x, y)` has the
/// passage bit that leads to `(x2, y2)`.
pub open spec fn passage_step(maze: Seq<u32>, w: int, x: int, y: int, x2: int, y2: int) -> bool {
    let c = cell_at(maze, w, x, y);
    ||| (path_n_bit(c) && x2 == x && y2 == y - 1)
    ||| (path_s_bit(c) && x2 == x && y2 == y + 1)
    ||| (path_e_bit(c) && x2 == x + 1 && y2 == y)
    ||| (path_w_bit(c) && x2 == x - 1 && y2 == y)
}

/// A walk through the maze: a nonempty sequence of on-lattice positions,
/// each reached from its predecessor through a carved passage.
pub open spec fn passage_path_ok(maze: Seq<u32>, w: int, h: int, p: Seq<(int, int)>) -> bool {
    &&& p.len() >= 1
    &&& forall|k: int| 0 <= k < p.len() ==> 0 <= (#[trigger] p[k]).0 < w && 0 <= p[k].1 < h
    &&& forall|k: int|
        0 <= k < p.len() - 1 ==> passage_step(
            maze,
            w,
            (#[trigger] p[k]).0,
            p[k].1,
            p[k + 1].0,
            p[k + 1].1,
        )
}

/// `(x, y)` can be reached from `(sx, sy)` by walking carved passages.
pub open spec fn reachable_from(maze: Seq<u32>, w: int, h: int, sx: int, sy: int, x: int, y: int) -> bool {
    exists|p: Seq<(int, int)>|
        {
            &&& #[trigger] passage_path_ok(maze, w, h, p)
            &&& p[0].0 == sx && p[0].1 == sy
            &&& p[p.len() - 1].0 == x && p[p.len() - 1].1 == y
        }
}

/// Every visited cell can be reached from `(sx, sy)` through carved
/// passages.
pub open spec fn connected_cells(maze: Seq<u32>, w: int, h: int, sx: int, sy: int) -> bool {
    forall|x: int, y: int|
        0 <= x < w && 0 <= y < h && visited_bit(#[trigger] cell_at(maze, w, x, y))
            ==> reachable_from(maze, w, h, sx, sy, x, y)
}

/// A walk stays a walk when passages are only added, never removed.
proof fn lemma_path_ok_monotone(m0: Seq<u32>, m1: Seq<u32>, w: int, h: int, p: Seq<(int, int)>)
    requires
        valid_dims(w, h),
        m0.len() == w * h,
        m1.len() == m0.len(),
        passage_path_ok(m0, w, h, p),
        forall|i: int|
            0 <= i < m0.len() ==> {
                &&& (path_n_bit(#[trigger] m0[i]) ==> path_n_bit(m1[i]))
                &&& (path_s_bit(m0[i]) ==> path_s_bit(m1[i]))
                &&& (path_e_bit(m0[i]) ==> path_e_bit(m1[i]))
                &&& (path_w_bit(m0[i]) ==> path_w_bit(m1[i]))
            },
    ensures
        passage_path_ok(m1, w, h, p),
{
    assert forall|k: int| 0 <= k < p.len() - 1 implies passage_step(
        m1,
        w,
        (#[trigger] p[k]).0,
        p[k].1,
        p[k + 1].0,
        p[k + 1].1,
    ) by {
        lemma_index_of_coords(w, h, p[k].0, p[k].1);
    }
}

/// Carving from a visited cell toward an unvisited in-bounds neighbor
/// keeps the cell array sound, makes exactly one more cell visited, and
/// adds exactly one corridor to the count.
proof fn lemma_carve_preserves(m0: Seq<u32>, w: int, h: int, x: int, y: int, d: u8)
    requires
        valid_dims(w, h),
        cells_wf(m0, w, h),
        0 <= x < w,
        0 <= y < h,
        d == NORTH_ID || d == EAST_ID || d == SOUTH_ID || d == WEST_ID,
        0 <= dir_target(x, y, d).0 < w,
        0 <= dir_target(x, y, d).1 < h,
        !visited_bit(cell_at(m0, w, dir_target(x, y, d).0, dir_target(x, y, d).1)),
        visited_bit(cell_at(m0, w, x, y)),
    ensures
        ({
            let target = dir_target(x, y, d);
            let m1 = carved(m0, w, x, y, d);
            &&& m1.len() == m0.len()
            &&& cells_wf(m1, w, h)
            &&& visited_total(m1) == visited_total(m0) + 1
            &&& passage_total(m1) == passage_total(m0) + 1
            &&& (forall|i: int|
                0 <= i < m0.len() && visited_bit(#[trigger] m0[i]) ==> visited_bit(m1[i]))
            &&& (forall|i: int|
                0 <= i < m0.len() ==> {
                    &&& (path_n_bit(#[trigger] m0[i]) ==> path_n_bit(m1[i]))
                    &&& (path_s_bit(m0[i]) ==> path_s_bit(m1[i]))
                    &&& (path_e_bit(m0[i]) ==> path_e_bit(m1[i]))
                    &&& (path_w_bit(m0[i]) ==> path_w_bit(m1[i]))
                })
            &&& (forall|i: int|
                0 <= i < m0.len() && visited_bit(#[trigger] m1[i]) && i != target.1 * w + target.0
                    ==> visited_bit(m0[i]))
            &&& passage_step(m1, w, x, y, target.0, target.1)
            &&& visited_bit(cell_at(m1, w, target.0, target.1))
            &&& visited_bit(cell_at(m1, w, x, y))
        }),
{
    let target = dir_target(x, y, d);
    let nx = target.0;
    let ny = target.1;
    let bits = dir_bits(d);
    let cb = bits.0;
    let nb = bits.1;
    let i_cur = y * w + x;
    let i_nbr = ny * w + nx;
    lemma_index_of_coords(w, h, x, y);
    lemma_index_of_coords(w, h, nx, ny);
    assert(i_cur != i_nbr);
    let c = m0[i_cur];
    assert(m0[i_nbr] == 0);
    let nbr_val = m0[i_nbr] | (CELL_VISITED | nb);
    let m1a = m0.update(i_nbr, nbr_val);
    let cur_val = (m1a[i_cur] | cb) | CELL_VISITED;
    let m1 = m1a.update(i_cur, cur_val);
    assert(m1 == carved(m0, w, x, y, d));
    assert(m1a[i_cur] == c);

    // Generic bit facts about the two rewritten cells.
    assert(((c | cb) | 1u32) & 1u32 != 0u32) by (bit_vector);
    assert((0u32 | (1u32 | nb)) & 1u32 != 0u32) by (bit_vector);
    assert(forall|cc: u32, b: u32| cc & b != 0u32 ==> ((cc | cb) | 1u32) & b != 0u32) by (bit_vector);
    assert(forall|b: u32|
        (((c | cb) | 1u32) & b != 0u32 && (cb == 2u32 || cb == 4u32 || cb == 8u32 || cb == 16u32)
            && (b == 2u32 || b == 4u32 || b == 8u32 || b == 16u32)) ==> (c & b != 0u32 || cb
            == b)) by (bit_vector);
    assert(forall|b: u32|
        ((0u32 | (1u32 | nb)) & b != 0u32 && (nb == 2u32 || nb == 4u32 || nb == 8u32 || nb
            == 16u32) && (b == 2u32 || b == 4u32 || b == 8u32 || b == 16u32)) ==> nb == b)
        by (bit_vector);
    // Tally of the current cell: unrelated passage bits are untouched.
    assert((cb & 8u32 == 0u32) ==> ((c | cb) | 1u32) & 8u32 == c & 8u32) by (bit_vector);
    assert((cb & 2u32 == 0u32) ==> ((c | cb) | 1u32) & 2u32 == c & 2u32) by (bit_vector);
    assert((cb == 8u32 && c & 8u32 == 0u32) ==> ((c | cb) | 1u32) & 8u32 != 0u32) by (bit_vector);
    assert((cb == 2u32 && c & 2u32 == 0u32) ==> ((c | cb) | 1u32) & 2u32 != 0u32) by (bit_vector);
    assert(c & 1u32 != 0u32);
    // Tally of the reached cell, carved from blank.
    assert((0u32 | (1u32 | 2u32)) & 2u32 != 0u32 && (0u32 | (1u32 | 2u32)) & 8u32 == 0u32)
        by (bit_vector);
    assert((0u32 | (1u32 | 4u32)) & 2u32 == 0u32 && (0u32 | (1u32 | 4u32)) & 8u32 == 0u32)
        by (bit_vector);
    assert((0u32 | (1u32 | 8u32)) & 8u32 != 0u32 && (0u32 | (1u32 | 8u32)) & 2u32 == 0u32)
        by (bit_vector);
    assert((0u32 | (1u32 | 16u32)) & 2u32 == 0u32 && (0u32 | (1u32 | 16u32)) & 8u32 == 0u32)
        by (bit_vector);
    assert(0u32 & 2u32 == 0u32 && 0u32 & 8u32 == 0u32 && 0u32 & 1u32 == 0u32 && 0u32 & 4u32
        == 0u32 && 0u32 & 16u32 == 0u32) by (bit_vector);

    // If the carve direction sets an east or south bit on the current
    // cell, that bit was clear: it would otherwise already lead to the
    // reached cell, which is unvisited and blank.
    if d == EAST_ID {
        assert(path_e_bit(c) ==> visited_bit(cell_at(m0, w, x + 1, y)));
        assert(c & 8u32 == 0u32);
    }
    if d == SOUTH_ID {
        assert(path_s_bit(c) ==> visited_bit(cell_at(m0, w, x, y + 1)));
        assert(c & 2u32 == 0u32);
    }

    lemma_sum_map_update(m0, i_nbr, nbr_val, visited_tally_fn());
    lemma_sum_map_update(m1a, i_cur, cur_val, visited_tally_fn());
    lemma_sum_map_update(m0, i_nbr, nbr_val, passage_tally_fn());
    lemma_sum_map_update(m1a, i_cur, cur_val, passage_tally_fn());

    assert(visited_total(m1) == visited_total(m0) + 1);
    assert(passage_total(m1) == passage_total(m0) + 1);

    // Visited cells stay visited; passage bits are never cleared.
    assert forall|i: int| 0 <= i < m0.len() && visited_bit(#[trigger] m0[i]) implies visited_bit(
        m1[i],
    ) by {
        if i != i_cur && i != i_nbr {
            assert(m1[i] == m0[i]);
        }
    }

    // The new pair of bits is mutual, and existing bits never vanish.
    assert((nb == 2u32 || nb == 4u32 || nb == 8u32 || nb == 16u32) ==> (0u32 | (1u32 | nb)) & nb
        != 0u32) by (bit_vector);
    assert((cb == 2u32 || cb == 4u32 || cb == 8u32 || cb == 16u32) ==> ((c | cb) | 1u32) & cb
        != 0u32) by (bit_vector);
    assert forall|i: int| 0 <= i < m0.len() implies {
        &&& (path_n_bit(#[trigger] m0[i]) ==> path_n_bit(m1[i]))
        &&& (path_s_bit(m0[i]) ==> path_s_bit(m1[i]))
        &&& (path_e_bit(m0[i]) ==> path_e_bit(m1[i]))
        &&& (path_w_bit(m0[i]) ==> path_w_bit(m1[i]))
    } by {
        if i != i_cur && i != i_nbr {
            assert(m1[i] == m0[i]);
        }
    }

    // Every passage bit still leads, symmetrically, to an in-bounds,
    // visited cell.
    assert forall|x2: int, y2: int| 0 <= x2 < w && 0 <= y2 < h implies {
        &&& (path_n_bit(#[trigger] cell_at(m1, w, x2, y2)) ==> y2 > 0 && visited_bit(
            cell_at(m1, w, x2, y2 - 1),
        ) && path_s_bit(cell_at(m1, w, x2, y2 - 1)))
        &&& (path_s_bit(cell_at(m1, w, x2, y2)) ==> y2 < h - 1 && visited_bit(
            cell_at(m1, w, x2, y2 + 1),
        ) && path_n_bit(cell_at(m1, w, x2, y2 + 1)))
        &&& (path_e_bit(cell_at(m1, w, x2, y2)) ==> x2 < w - 1 && visited_bit(
            cell_at(m1, w, x2 + 1, y2),
        ) && path_w_bit(cell_at(m1, w, x2 + 1, y2)))
        &&& (path_w_bit(cell_at(m1, w, x2, y2)) ==> x2 > 0 && visited_bit(
            cell_at(m1, w, x2 - 1, y2),
        ) && path_e_bit(cell_at(m1, w, x2 - 1, y2)))
    } by {
        let i2 = y2 * w + x2;
        let c2 = cell_at(m0, w, x2, y2);
        lemma_index_of_coords(w, h, x2, y2);
        if y2 > 0 {
            lemma_index_of_coords(w, h, x2, y2 - 1);
        }
        if y2 < h - 1 {
            lemma_index_of_coords(w, h, x2, y2 + 1);
        }
        if x2 > 0 {
            lemma_index_of_coords(w, h, x2 - 1, y2);
        }
        if x2 < w - 1 {
            lemma_index_of_coords(w, h, x2 + 1, y2);
        }
        if i2 == i_cur {
            assert(x2 == x && y2 == y);
        } else if i2 == i_nbr {
            assert(x2 == nx && y2 == ny);
        } else {
            assert(m1[i2] == m0[i2]);
        }
    }

    assert forall|i: int| 0 <= i < m1.len() && !visited_bit(#[trigger] m1[i]) implies m1[i]
        == 0 by {
        if i != i_cur && i != i_nbr {
            assert(m1[i] == m0[i]);
        }
    }

    assert forall|i: int| 0 <= i < m0.len() && visited_bit(#[trigger] m1[i]) && i != i_nbr
        implies visited_bit(m0[i]) by {
        if i != i_cur {
            assert(m1[i] == m0[i]);
        }
    }
    // The carve leaves a passage from the current cell to the reached one.
    assert(passage_step(m1, w, x, y, nx, ny));
}

/// The maze generator's session state: the cell bitmasks, how many cells
/// have been visited, the exploration stack of `(x, y)` positions, and the
/// seeded random number generator that picks among unvisited neighbors.
pub struct MazeGen {
    /// False until `start_session` succeeds; `step` and `cell_state`
    /// report `SessionNotStarted` before that rather than inventing state.
    pub started: bool,
    pub maze_width: usize,
    pub maze_height: usize,
    pub maze: Vec<u32>,
    pub visited_cell_count: usize,
    pub stack: Vec<(usize, usize)>,
    pub rng: rand::rngs::StdRng,
}

impl MazeGen {
    /// Soundness of a session: valid dimensions, sound cells, the running
    /// counts agreeing with the cell array — one carved corridor fewer
    /// than visited cells — and an exploration stack of visited, on-lattice
    /// positions.
    pub open spec fn wf(&self) -> bool {
        self.started ==> {
            &&& valid_dims(self.maze_width as int, self.maze_height as int)
            &&& cells_wf(self.maze@, self.maze_width as int, self.maze_height as int)
            &&& 1 <= self.visited_cell_count <= self.maze@.len()
            &&& visited_total(self.maze@) == self.visited_cell_count
            &&& passage_total(self.maze@) == self.visited_cell_count - 1
            &&& forall|k: int|
                0 <= k < self.stack@.len() ==> {
                    let e = #[trigger] self.stack@[k];
                    &&& (e.0 as int) < self.maze_width
                    &&& (e.1 as int) < self.maze_height
                    &&& visited_bit(
                        cell_at(
                            self.maze@,
                            self.maze_width as int,
                            e.0 as int,
                            e.1 as int,
                        ),
                    )
                }
        }
    }

    /// A generator with no session: every use of it reports
    /// `SessionNotStarted` until `start_session` succeeds.
    pub fn new() -> (r: MazeGen)
        ensures
            r.wf(),
            !r.started,
    {
        MazeGen {
            started: false,
            maze_width: 0,
            maze_height: 0,
            maze: Vec::new(),
            visited_cell_count: 0,
            stack: Vec::new(),
            rng: seed_rng(0),
        }
    }

    /// Opens a generation session: allocates a blank `width * height` cell
    /// array, marks the start cell visited, pushes it onto the exploration
    /// stack and seeds the random number generator — the same seed and
    /// dimensions replay the same carve sequence. A start index off the
    /// lattice is rejected with `OutOfRange` and nothing changes.
    pub fn start_session(
        &mut self,
        width: usize,
        height: usize,
        start_index: usize,
        seed: u64,
    ) -> (r: Result<(), GridError>)
        requires
            old(self).wf(),
            valid_dims(width as int, height as int),
        ensures
            final(self).wf(),
            match r {
                Ok(()) => {
                    &&& start_index < width * height
                    &&& final(self).started
                    &&& final(self).maze_width == width
                    &&& final(self).maze_height == height
                    &&& final(self).maze@.len() == width * height
                    &&& final(self).maze@[start_index as int] == CELL_VISITED
                    &&& (forall|i: int|
                        0 <= i < final(self).maze@.len() && i != start_index ==> final(self).maze@[i] == 0)
                    &&& final(self).visited_cell_count == 1
                    &&& final(self).stack@.len() == 1
                    &&& final(self).stack@[0].0 == x_of(width as int, start_index as int)
                    &&& final(self).stack@[0].1 == y_of(width as int, start_index as int)
                    &&& connected_cells(
                        final(self).maze@,
                        width as int,
                        height as int,
                        x_of(width as int, start_index as int),
                        y_of(width as int, start_index as int),
                    )
                },
                Err(e) => {
                    &&& e == GridError::OutOfRange
                    &&& start_index >= width * height
                    &&& final(self).started == old(self).started
                    &&& final(self).maze@ == old(self).maze@
                    &&& final(self).stack@ == old(self).stack@
                    &&& final(self).visited_cell_count == old(self).visited_cell_count
                    &&& final(self).maze_width == old(self).maze_width
                    &&& final(self).maze_height == old(self).maze_height
                },
            },
    {
        proof {
            assert(width * height <= MAX_SIDE * MAX_SIDE) by (nonlinear_arith)
                requires 1 <= width <= MAX_SIDE, 1 <= height <= MAX_SIDE;
        }
        let total: usize = width * height;
        if start_index >= total {
            return Err(GridError::OutOfRange);
        }
        let mut cells: Vec<u32> = Vec::new();
        let mut i: usize = 0;
        while i < total
            invariant
                i <= total,
                cells@.len() == i,
                forall|j: int| 0 <= j < i ==> (#[trigger] cells@[j]) == 0,
            decreases total - i,
        {
            cells.push(0);
            i += 1;
        }
        proof {
            assert(0u32 & 1u32 == 0u32 && 0u32 & 2u32 == 0u32 && 0u32 & 4u32 == 0u32 && 0u32
                & 8u32 == 0u32 && 0u32 & 16u32 == 0u32) by (bit_vector);
            assert(1u32 & 1u32 != 0u32 && 1u32 & 2u32 == 0u32 && 1u32 & 4u32 == 0u32 && 1u32
                & 8u32 == 0u32 && 1u32 & 16u32 == 0u32) by (bit_vector);
            lemma_sum_map_zero(cells@, visited_tally_fn());
            lemma_sum_map_zero(cells@, passage_tally_fn());
            lemma_sum_map_update(cells@, start_index as int, CELL_VISITED, visited_tally_fn());
            lemma_sum_map_update(cells@, start_index as int, CELL_VISITED, passage_tally_fn());
            lemma_coords_of_index(width as int, height as int, start_index as int);
        }
        cells[start_index] = CELL_VISITED;
        let start_x: usize = start_index % width;
        let start_y: usize = start_index / width;
        let mut stack: Vec<(usize, usize)> = Vec::new();
        stack.push((start_x, start_y));
        self.maze_width = width;
        self.maze_height = height;
        self.maze = cells;
        self.visited_cell_count = 1;
        self.stack = stack;
        self.rng = seed_rng(seed);
        self.started = true;
        proof {
            assert(width * height >= 1) by (nonlinear_arith)
                requires 1 <= width, 1 <= height;
            assert forall|x: int, y: int| 0 <= x < width && 0 <= y < height implies {
                let c = #[trigger] cell_at(self.maze@, width as int, x, y);
                c == 0u32 || c == CELL_VISITED
            } by {
                lemma_index_of_coords(width as int, height as int, x, y);
            }
            let sx = x_of(width as int, start_index as int);
            let sy = y_of(width as int, start_index as int);
            assert forall|x: int, y: int|
                0 <= x < width && 0 <= y < height && visited_bit(
                    #[trigger] cell_at(self.maze@, width as int, x, y),
                ) implies reachable_from(self.maze@, width as int, height as int, sx, sy, x, y) by {
                lemma_index_of_coords(width as int, height as int, x, y);
                assert(x == sx && y == sy);
                let p = seq![(sx, sy)];
                assert(passage_path_ok(self.maze@, width as int, height as int, p));
                assert(p[0].0 == sx && p[0].1 == sy);
                assert(p[p.len() - 1].0 == x && p[p.len() - 1].1 == y);
            }
        }
        Ok(())
    }

    /// One unit of carving work: in a running session, look at the top of
    /// the stack; if it still has
    /// unvisited in-bounds neighbors, carve toward one of them chosen
    /// uniformly at random, mark it visited and push it; otherwise
    /// backtrack by popping. Once every cell is visited the session is
    /// done and `step` is a no-op returning `true`. A `step` before
    /// `start_session` reports `SessionNotStarted`; a stack that empties
    /// early reports `InvariantViolation` (it cannot occur on a connected
    /// lattice).
    #[verifier::rlimit(100)]
    pub fn step(&mut self) -> (r: Result<bool, GridError>)
        requires
            old(self).wf(),
        ensures
            final(self).wf(),
            final(self).started == old(self).started,
            final(self).maze_width == old(self).maze_width,
            final(self).maze_height == old(self).maze_height,
            match r {
                Ok(done) => {
                    &&& old(self).started
                    &&& (done <==> final(self).visited_cell_count == final(self).maze@.len())
                    &&& (old(self).visited_cell_count == old(self).maze@.len() ==> final(self).maze@ == old(self).maze@ && final(self).stack@ == old(self).stack@ && final(self).visited_cell_count == old(self).visited_cell_count && done)
                    &&& (old(self).visited_cell_count < old(self).maze@.len() ==> {
                        let w = old(self).maze_width as int;
                        let h = old(self).maze_height as int;
                        let top = old(self).stack@[old(self).stack@.len() - 1];
                        let cands = unvisited_neighbor_dirs(
                            old(self).maze@,
                            w,
                            h,
                            top.0 as int,
                            top.1 as int,
                        );
                        if cands.len() > 0 {
                            exists|ci: int|
                                0 <= ci < cands.len() && {
                                    let dd = #[trigger] cands[ci];
                                    let target = dir_target(top.0 as int, top.1 as int, dd);
                                    &&& final(self).maze@ == carved(
                                        old(self).maze@,
                                        w,
                                        top.0 as int,
                                        top.1 as int,
                                        dd,
                                    )
                                    &&& final(self).stack@ == old(self).stack@.push(
                                        ((target.0 as usize), (target.1 as usize)),
                                    )
                                    &&& final(self).visited_cell_count == old(self).visited_cell_count + 1
                                }
                        } else {
                            &&& final(self).maze@ == old(self).maze@
                            &&& final(self).stack@ == old(self).stack@.drop_last()
                            &&& final(self).visited_cell_count == old(self).visited_cell_count
                        }
                    })
                },
                Err(e) => {
                    &&& final(self).maze@ == old(self).maze@
                    &&& final(self).stack@ == old(self).stack@
                    &&& final(self).visited_cell_count == old(self).visited_cell_count
                    &&& (e == GridError::SessionNotStarted <==> !old(self).started)
                    &&& (e == GridError::InvariantViolation ==> old(self).started && old(self).stack@.len() == 0 && old(self).visited_cell_count < old(self).maze@.len())
                    &&& (e == GridError::SessionNotStarted || e == GridError::InvariantViolation)
                },
            },
            r is Err <==> (!old(self).started || (old(self).stack@.len() == 0 && old(self).visited_cell_count < old(self).maze@.len())),
            forall|sx: int, sy: int|
                #[trigger] connected_cells(
                    old(self).maze@,
                    old(self).maze_width as int,
                    old(self).maze_height as int,
                    sx,
                    sy,
                ) ==> connected_cells(
                    final(self).maze@,
                    final(self).maze_width as int,
                    final(self).maze_height as int,
                    sx,
                    sy,
                ),
    {
        if !self.started {
            return Err(GridError::SessionNotStarted);
        }
        proof {
            assert(self.maze_width * self.maze_height <= MAX_SIDE * MAX_SIDE)
                by (nonlinear_arith)
                requires 1 <= self.maze_width <= MAX_SIDE, 1 <= self.maze_height <= MAX_SIDE;
        }
        let total: usize = self.maze_width * self.maze_height;
        if self.visited_cell_count >= total {
            return Ok(true);
        }
        if self.stack.len() == 0 {
            return Err(GridError::InvariantViolation);
        }
        let width = self.maze_width;
        let height = self.maze_height;
        let top = self.stack[self.stack.len() - 1];
        let cx = top.0;
        let cy = top.1;
        proof {
            lemma_index_of_coords(width as int, height as int, cx as int, cy as int);
        }
        let cur_idx: usize = cy * width + cx;

        let mut neighbors: Vec<u8> = Vec::new();
        // North neighbor
        if cy > 0 {
            proof {
                lemma_index_of_coords(width as int, height as int, cx as int, cy as int - 1);
            }
            let ni: usize = (cy - 1) * width + cx;
            if self.maze[ni] & CELL_VISITED == 0 {
                neighbors.push(NORTH_ID);
            }
        }
        // East neighbor
        if cx < width - 1 {
            proof {
                lemma_index_of_coords(width as int, height as int, cx as int + 1, cy as int);
            }
            let ni: usize = cy * width + cx + 1;
            if self.maze[ni] & CELL_VISITED == 0 {
                neighbors.push(EAST_ID);
            }
        }
        // South neighbor
        if cy < height - 1 {
            proof {
                lemma_index_of_coords(width as int, height as int, cx as int, cy as int + 1);
            }
            let ni: usize = (cy + 1) * width + cx;
            if self.maze[ni] & CELL_VISITED == 0 {
                neighbors.push(SOUTH_ID);
            }
        }
        // West neighbor
        if cx > 0 {
            proof {
                lemma_index_of_coords(width as int, height as int, cx as int - 1, cy as int);
            }
            let ni: usize = cy * width + cx - 1;
            if self.maze[ni] & CELL_VISITED == 0 {
                neighbors.push(WEST_ID);
            }
        }
        proof {
            assert(neighbors@ =~= unvisited_neighbor_dirs(
                self.maze@,
                width as int,
                height as int,
                cx as int,
                cy as int,
            ));
        }

        if neighbors.len() > 0 {
            let random_index = rand_below(&mut self.rng, neighbors.len());
            let dir = neighbors[random_index];
            let ghost cands = unvisited_neighbor_dirs(
                self.maze@,
                width as int,
                height as int,
                cx as int,
                cy as int,
            );
            proof {
                assert(forall|k: int|
                    0 <= k < cands.len() ==> (#[trigger] cands[k]) == NORTH_ID || cands[k]
                        == EAST_ID || cands[k] == SOUTH_ID || cands[k] == WEST_ID);
                let target = dir_target(cx as int, cy as int, dir);
                assert(0 <= target.0 < width && 0 <= target.1 < height && !visited_bit(
                    cell_at(self.maze@, width as int, target.0, target.1),
                ));
                lemma_carve_preserves(
                    self.maze@,
                    width as int,
                    height as int,
                    cx as int,
                    cy as int,
                    dir,
                );
                lemma_index_of_coords(width as int, height as int, target.0, target.1);
            }
            let nx: usize;
            let ny: usize;
            if dir == NORTH_ID {
                nx = cx;
                ny = cy - 1;
            } else if dir == EAST_ID {
                nx = cx + 1;
                ny = cy;
            } else if dir == SOUTH_ID {
                nx = cx;
                ny = cy + 1;
            } else {
                nx = cx - 1;
                ny = cy;
            }
            let nbr_idx: usize = ny * width + nx;
            let cur_bit: u32;
            let nbr_bit: u32;
            if dir == NORTH_ID {
                cur_bit = CELL_PATH_N;
                nbr_bit = CELL_PATH_S;
            } else if dir == EAST_ID {
                cur_bit = CELL_PATH_E;
                nbr_bit = CELL_PATH_W;
            } else if dir == SOUTH_ID {
                cur_bit = CELL_PATH_S;
                nbr_bit = CELL_PATH_N;
            } else {
                cur_bit = CELL_PATH_W;
                nbr_bit = CELL_PATH_E;
            }
            let nbr_new: u32 = self.maze[nbr_idx] | (CELL_VISITED | nbr_bit);
            self.maze[nbr_idx] = nbr_new;
            let with_path: u32 = self.maze[cur_idx] | cur_bit;
            self.maze[cur_idx] = with_path;
            let with_visited: u32 = self.maze[cur_idx] | CELL_VISITED;
            self.maze[cur_idx] = with_visited;
            self.stack.push((nx, ny));
            self.visited_cell_count += 1;
            proof {
                assert(self.maze@ =~= carved(
                    old(self).maze@,
                    width as int,
                    cx as int,
                    cy as int,
                    dir,
                ));
                assert(exists|ci: int| 0 <= ci < cands.len() && #[trigger] cands[ci] == dir) by {
                    assert(cands[random_index as int] == dir);
                }
                assert forall|k: int| 0 <= k < self.stack@.len() implies {
                    let e = #[trigger] self.stack@[k];
                    &&& (e.0 as int) < width
                    &&& (e.1 as int) < height
                    &&& visited_bit(cell_at(self.maze@, width as int, e.0 as int, e.1 as int))
                } by {
                    let e = self.stack@[k];
                    if k < self.stack@.len() - 1 {
                        assert(e == old(self).stack@[k]);
                    }
                    lemma_index_of_coords(width as int, height as int, e.0 as int, e.1 as int);
                }
                assert forall|sx: int, sy: int|
                    #[trigger] connected_cells(
                        old(self).maze@,
                        width as int,
                        height as int,
                        sx,
                        sy,
                    ) implies connected_cells(self.maze@, width as int, height as int, sx, sy) by {
                    lemma_carve_connectivity(
                        old(self).maze@,
                        width as int,
                        height as int,
                        cx as int,
                        cy as int,
                        dir,
                        sx,
                        sy,
                    );
                }
            }
            Ok(self.visited_cell_count == total)
        } else {
            let _ = self.stack.pop();
            Ok(false)
        }
    }

    /// The bitmask of one cell — the visited flag and the four passage
    /// bits — of a running session. Reports `SessionNotStarted` before a
    /// session exists and `OutOfRange` for an index off the lattice.
    pub fn cell_state(&self, index: usize) -> (r: Result<u32, GridError>)
        ensures
            match r {
                Ok(c) => self.started && index < self.maze@.len() && c == self.maze@[index as int],
                Err(e) => (e == GridError::SessionNotStarted && !self.started) || (e
                    == GridError::OutOfRange && self.started && index >= self.maze@.len()),
            },
    {
        if !self.started {
            return Err(GridError::SessionNotStarted);
        }
        if index >= self.maze.len() {
            return Err(GridError::OutOfRange);
        }
        Ok(self.maze[index])
    }

    /// Whether the session has carved the whole lattice: the generator is
    /// in its read-only Done state.
    pub fn is_done(&self) -> (r: bool)
        requires
            self.wf(),
        ensures
            r == (self.started && self.visited_cell_count == self.maze@.len()),
    {
        self.started && self.visited_cell_count == self.maze.len()
    }
}

/// Carving preserves connectivity: if before the carve every visited cell
/// could be reached from `(sx, sy)` by walking passages, the same holds
/// afterwards — the newly reached cell hangs off the cell it was carved
/// from.
proof fn lemma_carve_connectivity(m0: Seq<u32>, w: int, h: int, x: int, y: int, d: u8, sx: int, sy: int)
    requires
        valid_dims(w, h),
        cells_wf(m0, w, h),
        0 <= x < w,
        0 <= y < h,
        d == NORTH_ID || d == EAST_ID || d == SOUTH_ID || d == WEST_ID,
        0 <= dir_target(x, y, d).0 < w,
        0 <= dir_target(x, y, d).1 < h,
        !visited_bit(cell_at(m0, w, dir_target(x, y, d).0, dir_target(x, y, d).1)),
        visited_bit(cell_at(m0, w, x, y)),
        connected_cells(m0, w, h, sx, sy),
    ensures
        connected_cells(carved(m0, w, x, y, d), w, h, sx, sy),
{
    let target = dir_target(x, y, d);
    let nx = target.0;
    let ny = target.1;
    let m1 = carved(m0, w, x, y, d);
    lemma_carve_preserves(m0, w, h, x, y, d);
    lemma_index_of_coords(w, h, x, y);
    lemma_index_of_coords(w, h, nx, ny);
    assert forall|x2: int, y2: int|
        0 <= x2 < w && 0 <= y2 < h && visited_bit(#[trigger] cell_at(m1, w, x2, y2)) implies
        reachable_from(m1, w, h, sx, sy, x2, y2) by {
        lemma_index_of_coords(w, h, x2, y2);
        if x2 == nx && y2 == ny {
            // the newly reached cell: extend a walk to the carving cell
            assert(visited_bit(cell_at(m0, w, x, y)));
            assert(reachable_from(m0, w, h, sx, sy, x, y));
            let p = choose|p: Seq<(int, int)>|
                {
                    &&& #[trigger] passage_path_ok(m0, w, h, p)
                    &&& p[0].0 == sx && p[0].1 == sy
                    &&& p[p.len() - 1].0 == x && p[p.len() - 1].1 == y
                };
            lemma_path_ok_monotone(m0, m1, w, h, p);
            let p2 = p.push((nx, ny));
            assert(passage_path_ok(m1, w, h, p2)) by {
                assert(forall|k: int|
                    0 <= k < p.len() ==> p2[k] == (#[trigger] p[k]));
                assert(p2[p2.len() - 1] == (nx, ny));
                assert(passage_step(m1, w, x, y, nx, ny));
            }
            assert(p2[0].0 == sx && p2[0].1 == sy);
            assert(p2[p2.len() - 1].0 == x2 && p2[p2.len() - 1].1 == y2);
        } else {
            // an already visited cell: its old walk still works
            assert(visited_bit(cell_at(m0, w, x2, y2)));
            assert(reachable_from(m0, w, h, sx, sy, x2, y2));
            let p = choose|p: Seq<(int, int)>|
                {
                    &&& #[trigger] passage_path_ok(m0, w, h, p)
                    &&& p[0].0 == sx && p[0].1 == sy
                    &&& p[p.len() - 1].0 == x2 && p[p.len() - 1].1 == y2
                };
            lemma_path_ok_monotone(m0, m1, w, h, p);
        }
    }
}

/// The counting half of the spanning-tree property: once the generator is
/// done, every one of the `width * height` cells is visited and exactly
/// `width * height - 1` corridors have been carved.
pub proof fn lemma_done_counts(m: MazeGen)
    requires
        m.wf(),
        m.started,
        m.visited_cell_count == m.maze@.len(),
    ensures
        visited_total(m.maze@) == m.maze@.len(),
        passage_total(m.maze@) == m.maze@.len() - 1,
{
}

/// The connectivity half of the spanning-tree property: in a finished
/// session whose visited cells all hang off `(sx, sy)` — which
/// `start_session` establishes for the start cell and every `step`
/// preserves — every cell of the lattice can be reached from `(sx, sy)`
/// by walking carved passages.
pub proof fn lemma_done_connected(m: MazeGen, sx: int, sy: int)
    requires
        m.wf(),
        m.started,
        m.visited_cell_count == m.maze@.len(),
        connected_cells(m.maze@, m.maze_width as int, m.maze_height as int, sx, sy),
    ensures
        forall|x: int, y: int|
            0 <= x < m.maze_width && 0 <= y < m.maze_height ==> reachable_from(
                m.maze@,
                m.maze_width as int,
                m.maze_height as int,
                sx,
                sy,
                x,
                y,
            ),
{
    let w = m.maze_width as int;
    let h = m.maze_height as int;
    lemma_sum_map_saturated(m.maze@, visited_tally_fn());
    assert forall|x: int, y: int| 0 <= x < w && 0 <= y < h implies reachable_from(
        m.maze@,
        w,
        h,
        sx,
        sy,
        x,
        y,
    ) by {
        lemma_index_of_coords(w, h, x, y);
        assert(visited_tally_fn()(m.maze@[y * w + x]) == 1);
        assert(visited_bit(cell_at(m.maze@, w, x, y)));
    }
}

} // verus!
