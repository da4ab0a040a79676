//! Two verified engines over a fixed-size 2D lattice of cells: an A*
//! shortest-path search over an obstacle grid, and a randomized stack-based
//! depth-first maze generator that carves a perfect maze one step at a time.
//! Both engines share the same addressing convention: a cell at `(x, y)` has
//! linear index `y * width + x`.

pub mod grid;
pub mod maze;
pub mod pathfind;
mod rng;
pub mod tally;
