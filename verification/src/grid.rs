//! Addressing on a rectangular lattice: translation between `(x, y)`
//! coordinates and linear indices, the shared bounds, the 4-connected
//! adjacency relation, and the error taxonomy shared by both engines.

use vstd::prelude::*;
use vstd::arithmetic::div_mod::{
    lemma_fundamental_div_mod, lemma_fundamental_div_mod_converse_div,
    lemma_fundamental_div_mod_converse_mod,
};

verus! {

/// Errors either engine can report. "No route exists" is not an error: the
/// pathfinder reports it as a successfully computed `None`.
#[derive(Clone, Copy, Debug, PartialEq, Eq, Structural)]
pub enum GridError {
    /// An index or coordinate lies outside the lattice.
    OutOfRange,
    /// The maze generator was used before a session was started.
    SessionNotStarted,
    /// The exploration stack emptied before every cell was visited.
    InvariantViolation,
}

/// Largest width or height either engine accepts. This machine limit keeps
/// every index, score and squared distance comfortably inside the fixed-width
/// integer types used by the engines.
pub const MAX_SIDE: usize = 4096;

/// Dimensions a lattice may have: positive, and within the machine limit.
pub open spec fn valid_dims(width: int, height: int) -> bool {
    1 <= width <= MAX_SIDE && 1 <= height <= MAX_SIDE
}

/// A coordinate pair lies on the lattice.
pub open spec fn in_lattice(width: int, height: int, x: int, y: int) -> bool {
    0 <= x < width && 0 <= y < height
}

/// The linear index of the cell at `(x, y)`.
pub open spec fn lattice_index(width: int, x: int, y: int) -> int {
    y * width + x
}

/// The x coordinate of the cell with the given linear index.
pub open spec fn x_of(width: int, index: int) -> int {
    index % width
}

/// The y coordinate of the cell with the given linear index.
pub open spec fn y_of(width: int, index: int) -> int {
    index / width
}

/// `lattice_index` maps every on-lattice coordinate pair into
/// `[0, width * height)`, and `x_of` / `y_of` invert it.
pub proof fn lemma_index_of_coords(width: int, height: int, x: int, y: int)
    requires
        valid_dims(width, height),
        in_lattice(width, height, x, y),
    ensures
        0 <= lattice_index(width, x, y) < width * height,
        x_of(width, lattice_index(width, x, y)) == x,
        y_of(width, lattice_index(width, x, y)) == y,
{
    assert(0 <= y * width + x < width * height) by (nonlinear_arith)
        requires 0 <= x < width, 0 <= y < height;
    lemma_fundamental_div_mod_converse_mod(y * width + x, width, y, x);
    lemma_fundamental_div_mod_converse_div(y * width + x, width, y, x);
}

/// `x_of` / `y_of` map every valid linear index back onto the lattice, and
/// `lattice_index` inverts them.
pub proof fn lemma_coords_of_index(width: int, height: int, index: int)
    requires
        valid_dims(width, height),
        0 <= index < width * height,
    ensures
        in_lattice(width, height, x_of(width, index), y_of(width, index)),
        lattice_index(width, x_of(width, index), y_of(width, index)) == index,
{
    lemma_fundamental_div_mod(index, width);
    assert(0 <= index % width < width);
    assert(index / width < height) by (nonlinear_arith)
        requires
            0 < width,
            0 <= index < width * height,
            index == width * (index / width) + (index % width),
            0 <= index % width < width;
    assert(index / width >= 0) by (nonlinear_arith)
        requires 0 < width, 0 <= index, index == width * (index / width) + (index % width), index % width < width;
}

/// Two linear indices address 4-connected neighbors: their coordinates agree
/// on one axis and differ by exactly 1 on the other.
pub open spec fn adjacent_in(width: int, height: int, a: int, b: int) -> bool {
    &&& 0 <= a < width * height
    &&& 0 <= b < width * height
    &&& {
        let ax = x_of(width, a);
        let ay = y_of(width, a);
        let bx = x_of(width, b);
        let by = y_of(width, b);
        ||| (ax == bx && (ay == by + 1 || by == ay + 1))
        ||| (ay == by && (ax == bx + 1 || bx == ax + 1))
    }
}

/// Translates on-lattice coordinates to a linear index; coordinates off the
/// lattice are rejected with `OutOfRange` and nothing else ever is.
pub fn index_of(width: usize, height: usize, x: usize, y: usize) -> (r: Result<usize, GridError>)
    requires
        valid_dims(width as int, height as int),
    ensures
        match r {
            Ok(i) => in_lattice(width as int, height as int, x as int, y as int)
                && i == lattice_index(width as int, x as int, y as int)
                && i < width * height,
            Err(e) => e == GridError::OutOfRange
                && !in_lattice(width as int, height as int, x as int, y as int),
        },
{
    if x < width && y < height {
        proof {
            lemma_index_of_coords(width as int, height as int, x as int, y as int);
            assert(width * height <= MAX_SIDE * MAX_SIDE) by (nonlinear_arith)
                requires 1 <= width <= MAX_SIDE, 1 <= height <= MAX_SIDE;
        }
        Ok(y * width + x)
    } else {
        Err(GridError::OutOfRange)
    }
}

/// Translates a linear index to its coordinates; indices past the end of the
/// lattice are rejected with `OutOfRange` and nothing else ever is.
pub fn coords_of(width: usize, height: usize, index: usize) -> (r: Result<(usize, usize), GridError>)
    requires
        valid_dims(width as int, height as int),
    ensures
        match r {
            Ok(p) => index < width * height
                && p.0 == x_of(width as int, index as int)
                && p.1 == y_of(width as int, index as int)
                && in_lattice(width as int, height as int, p.0 as int, p.1 as int)
                && lattice_index(width as int, p.0 as int, p.1 as int) == index,
            Err(e) => e == GridError::OutOfRange && index >= width * height,
        },
{
    proof {
        assert(width * height <= MAX_SIDE * MAX_SIDE) by (nonlinear_arith)
            requires 1 <= width <= MAX_SIDE, 1 <= height <= MAX_SIDE;
    }
    let total: usize = width * height;
    if index < total {
        proof {
            lemma_coords_of_index(width as int, height as int, index as int);
        }
        Ok((index % width, index / width))
    } else {
        Err(GridError::OutOfRange)
    }
}

} // verus!
