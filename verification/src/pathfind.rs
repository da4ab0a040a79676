//! A* shortest-path search over a 4-connected obstacle grid with unit edge
//! cost. A `Node` carries its coordinates, an obstacle flag, and the search
//! bookkeeping: `global_goal` is the cost accumulated from the start
//! (infinity while unreached), `local_goal` adds the Euclidean heuristic,
//! and `parent` points back along the best route found so far.
//!
//! Tie-breaking is deterministic: among open nodes with equal `local_goal`
//! the one with the smaller index is expanded first.

use vstd::prelude::*;
use crate::grid::{
    GridError, MAX_SIDE, lemma_coords_of_index, lemma_index_of_coords, valid_dims, x_of, y_of,
};
use vstd::arithmetic::div_mod::lemma_fundamental_div_mod;
use vstd::set_lib::{lemma_int_range, lemma_len_subset, set_int_range};
use crate::tally::{lemma_sum_map_nonneg, lemma_sum_map_update, sum_map};

verus! {

/// Score of a node the search has not reached: stands in for infinity.
pub const UNREACHED: i64 = i64::MAX;

/// One cell of the pathfinding lattice.
#[derive(Clone, Copy, Debug, PartialEq, Eq, Hash)]
pub struct Node {
    /// Position on the lattice.
    pub x: i32,
    pub y: i32,
    /// Is the node an obstruction?
    pub obstacle: bool,
    /// Has the search expanded this node?
    pub visited: bool,
    /// Cost of the best route from the start found so far.
    pub global_goal: i64,
    /// `global_goal` plus the heuristic estimate to the goal.
    pub local_goal: i64,
    /// Index of the node this one was best reached from.
    pub parent: Option<usize>,
}

/// The node array matches the lattice: one node per cell, each carrying the
/// coordinates of its own index.
pub open spec fn coords_match(nodes: Seq<Node>, width: int, height: int) -> bool {
    &&& nodes.len() == width * height
    &&& forall|i: int|
        0 <= i < nodes.len() ==> (#[trigger] nodes[i]).x == x_of(width, i) && nodes[i].y == y_of(
            width,
            i,
        )
}

/// Two nodes occupy 4-connected neighbor cells: equal on one axis, one step
/// apart on the other.
pub open spec fn nodes_adjacent(a: Node, b: Node) -> bool {
    ||| (a.x == b.x && (a.y - b.y == 1 || b.y - a.y == 1))
    ||| (a.y == b.y && (a.x - b.x == 1 || b.x - a.x == 1))
}

/// Every cost field is back at its initial value; only the obstacle layer
/// and the coordinates carry information.
pub open spec fn is_reset(nodes: Seq<Node>) -> bool {
    forall|i: int|
        0 <= i < nodes.len() ==> {
            &&& (#[trigger] nodes[i]).global_goal == UNREACHED
            &&& nodes[i].local_goal == UNREACHED
            &&& nodes[i].parent is None
            &&& !nodes[i].visited
        }
}

/// The long-lived layer of the grid: lengths, coordinates and obstacle flags
/// agree; the search may only have touched the cost fields.
pub open spec fn same_layout(a: Seq<Node>, b: Seq<Node>) -> bool {
    &&& a.len() == b.len()
    &&& forall|i: int|
        0 <= i < a.len() ==> {
            &&& (#[trigger] b[i]).x == a[i].x
            &&& b[i].y == a[i].y
            &&& b[i].obstacle == a[i].obstacle
        }
}

/// Well-formed parent links: a parent lies on the lattice, is adjacent to
/// its child, both are passable, and costs strictly decrease toward the
/// start — which makes every parent chain acyclic.
pub open spec fn parents_wf(nodes: Seq<Node>) -> bool {
    &&& forall|i: int|
        0 <= i < nodes.len() ==> match (#[trigger] nodes[i]).parent {
            Some(p) => {
                &&& 0 <= p < nodes.len()
                &&& nodes[i].global_goal < UNREACHED
                &&& nodes[p as int].global_goal < nodes[i].global_goal
                &&& nodes_adjacent(nodes[i], nodes[p as int])
                &&& !nodes[i].obstacle
                &&& !nodes[p as int].obstacle
            },
            None => true,
        }
    &&& forall|i: int|
        0 <= i < nodes.len() && (#[trigger] nodes[i]).global_goal < UNREACHED ==> nodes[i].global_goal
            >= 0
}

/// On top of `parents_wf`: the start is the unique reached node without a
/// parent, so every parent chain from a reached node ends exactly there.
pub open spec fn rooted_at(nodes: Seq<Node>, start: int) -> bool {
    &&& 0 <= start < nodes.len()
    &&& nodes[start].global_goal == 0
    &&& nodes[start].parent is None
    &&& !nodes[start].obstacle
    &&& forall|i: int|
        0 <= i < nodes.len() && (#[trigger] nodes[i]).global_goal < UNREACHED && nodes[i].parent
            is None ==> i == start
}

/// What a returned path means: it starts at `start`, ends at `goal`, stays
/// on the lattice, avoids every obstacle, and each consecutive pair of
/// entries addresses lattice-adjacent cells.
pub open spec fn path_connects(nodes: Seq<Node>, p: Seq<usize>, start: int, goal: int) -> bool {
    &&& p.len() >= 1
    &&& p[0] == start
    &&& p[p.len() - 1] == goal
    &&& forall|k: int| 0 <= k < p.len() ==> (#[trigger] p[k]) < nodes.len() && !nodes[p[k] as int].obstacle
    &&& forall|k: int|
        0 <= k < p.len() - 1 ==> nodes_adjacent(nodes[(#[trigger] p[k]) as int], nodes[p[k + 1] as int])
}

/// Largest value `isqrt` accepts; covers the squared diagonal of the
/// largest lattice either engine allows.
pub const ISQRT_MAX: i64 = 0x4000_0000;

/// Integer square root, rounded down.
pub fn isqrt(n: i64) -> (r: i64)
    requires
        0 <= n <= ISQRT_MAX,
    ensures
        r >= 0,
        r * r <= n,
        n < (r + 1) * (r + 1),
{
    let mut r: i64 = 0;
    loop
        invariant
            0 <= r,
            r * r <= n,
            n <= ISQRT_MAX,
        decreases n - r,
    {
        proof {
            assert(r <= 0x8000) by (nonlinear_arith)
                requires 0 <= r, r * r <= 0x4000_0000;
            assert((r + 1) * (r + 1) <= 0x4002_0000) by (nonlinear_arith)
                requires 0 <= r <= 0x8000;
        }
        if (r + 1) * (r + 1) <= n {
            proof {
                assert(r + 1 <= n) by (nonlinear_arith)
                    requires 0 <= r, (r + 1) * (r + 1) <= n;
            }
            r = r + 1;
        } else {
            return r;
        }
    }
}

impl Node {
    /// The Euclidean distance between two nodes "as the crow flies",
    /// rounded down to an integer.
    pub fn distance(&self, goal: &Node) -> (r: i32)
        requires
            0 <= self.x < MAX_SIDE,
            0 <= self.y < MAX_SIDE,
            0 <= goal.x < MAX_SIDE,
            0 <= goal.y < MAX_SIDE,
        ensures
            r >= 0,
            r * r <= (self.x - goal.x) * (self.x - goal.x) + (self.y - goal.y) * (self.y - goal.y),
            (self.x - goal.x) * (self.x - goal.x) + (self.y - goal.y) * (self.y - goal.y) < (r + 1)
                * (r + 1),
    {
        let dx: i64 = (self.x as i64) - (goal.x as i64);
        let dy: i64 = (self.y as i64) - (goal.y as i64);
        proof {
            assert(dx * dx + dy * dy <= ISQRT_MAX) by (nonlinear_arith)
                requires -4096 < dx < 4096, -4096 < dy < 4096;
            assert(dx * dx >= 0 && dy * dy >= 0) by (nonlinear_arith);
        }
        let sq: i64 = dx * dx + dy * dy;
        let r: i64 = isqrt(sq);
        proof {
            assert(r <= 0x8000) by (nonlinear_arith)
                requires 0 <= r, r * r <= 0x4000_0000;
        }
        r as i32
    }

    /// The admissible heuristic that guides the search: a better estimate
    /// means fewer expansions, and the Euclidean distance never
    /// overestimates the true step cost on the lattice.
    pub fn heuristic(&self, goal: &Node) -> (r: i32)
        requires
            0 <= self.x < MAX_SIDE,
            0 <= self.y < MAX_SIDE,
            0 <= goal.x < MAX_SIDE,
            0 <= goal.y < MAX_SIDE,
        ensures
            r >= 0,
            r * r <= (self.x - goal.x) * (self.x - goal.x) + (self.y - goal.y) * (self.y - goal.y),
            (self.x - goal.x) * (self.x - goal.x) + (self.y - goal.y) * (self.y - goal.y) < (r + 1)
                * (r + 1),
    {
        self.distance(goal)
    }
}

/// The 4-connected neighborhood of `index`, purely geometric: the
/// in-bounds cells north, south, west and east of it, in that fixed
/// order. Only the lattice boundary excludes a neighbor; whether a
/// neighbor is passable is the search's own concern when it expands.
pub open spec fn neighbors_spec(width: int, height: int, index: int) -> Seq<usize> {
    let x = x_of(width, index);
    let y = y_of(width, index);
    let north = if y > 0 {
        seq![(index - width) as usize]
    } else {
        Seq::<usize>::empty()
    };
    let south = if y < height - 1 {
        seq![(index + width) as usize]
    } else {
        Seq::<usize>::empty()
    };
    let west = if x > 0 {
        seq![(index - 1) as usize]
    } else {
        Seq::<usize>::empty()
    };
    let east = if x < width - 1 {
        seq![(index + 1) as usize]
    } else {
        Seq::<usize>::empty()
    };
    north + south + west + east
}

/// Enumerates the in-bounds neighbors of `index` in the fixed order
/// north, south, west, east — a function of the index and the lattice
/// dimensions alone. The order is deterministic on purpose: it decides
/// which of several equal-cost neighbors the search expands first, and
/// with it which of several equally short paths comes back.
pub fn get_neighbors(index: usize, nodes: &Vec<Node>, width: usize, height: usize) -> (r: Vec<
    usize,
>)
    requires
        valid_dims(width as int, height as int),
        coords_match(nodes@, width as int, height as int),
        index < nodes@.len(),
    ensures
        r@ == neighbors_spec(width as int, height as int, index as int),
        forall|k: int|
            0 <= k < r@.len() ==> {
                &&& ((#[trigger] r@[k]) as int) < nodes@.len()
                &&& r@[k] != index
                &&& nodes_adjacent(nodes@[index as int], nodes@[r@[k] as int])
            },
{
    let mut neighbors: Vec<usize> = Vec::new();
    let x: usize = index % width;
    let y: usize = index / width;
    proof {
        lemma_coords_of_index(width as int, height as int, index as int);
        lemma_fundamental_div_mod(index as int, width as int);
        assert(width * height <= MAX_SIDE * MAX_SIDE) by (nonlinear_arith)
            requires 1 <= width <= MAX_SIDE, 1 <= height <= MAX_SIDE;
    }

    // north
    if y > 0 {
        proof {
            lemma_index_of_coords(width as int, height as int, x as int, y as int - 1);
            assert((y as int - 1) * width + x == index - width) by (nonlinear_arith)
                requires
                    index as int == width as int * (y as int) + (x as int);
        }
        let north_idx: usize = (y - 1) * width + x;
        neighbors.push(north_idx);
    }
    // south
    if y < height - 1 {
        proof {
            lemma_index_of_coords(width as int, height as int, x as int, y as int + 1);
            assert((y as int + 1) * width + x == index + width) by (nonlinear_arith)
                requires
                    index as int == width as int * (y as int) + (x as int);
        }
        let south_idx: usize = (y + 1) * width + x;
        neighbors.push(south_idx);
    }
    // west
    if x > 0 {
        proof {
            lemma_index_of_coords(width as int, height as int, x as int - 1, y as int);
            assert(y as int * width + (x as int - 1) == index - 1) by (nonlinear_arith)
                requires
                    index as int == width as int * (y as int) + (x as int);
        }
        let west_idx: usize = y * width + (x - 1);
        neighbors.push(west_idx);
    }
    // east
    if x < width - 1 {
        proof {
            lemma_index_of_coords(width as int, height as int, x as int + 1, y as int);
            assert(y as int * width + (x as int + 1) == index + 1) by (nonlinear_arith)
                requires
                    index as int == width as int * (y as int) + (x as int);
        }
        let east_idx: usize = y * width + (x + 1);
        neighbors.push(east_idx);
    }

    proof {
        assert(neighbors@ =~= neighbors_spec(width as int, height as int, index as int));
    }
    neighbors
}

/// Clones the node array for a fresh search run: coordinates and the
/// obstacle layer carry over; every cost field, parent link and visited
/// mark returns to its initial value, so nothing of a prior run can leak
/// into the next one.
pub fn reset_and_clone_nodes(nodes: &[Node]) -> (r: Vec<Node>)
    ensures
        r@.len() == nodes@.len(),
        same_layout(nodes@, r@),
        is_reset(r@),
{
    let mut out: Vec<Node> = Vec::new();
    let mut i: usize = 0;
    while i < nodes.len()
        invariant
            i <= nodes@.len(),
            out@.len() == i,
            forall|j: int|
                0 <= j < i ==> {
                    &&& (#[trigger] out@[j]).x == nodes@[j].x
                    &&& out@[j].y == nodes@[j].y
                    &&& out@[j].obstacle == nodes@[j].obstacle
                    &&& out@[j].global_goal == UNREACHED
                    &&& out@[j].local_goal == UNREACHED
                    &&& out@[j].parent is None
                    &&& !out@[j].visited
                },
        decreases nodes@.len() - i,
    {
        let node = nodes[i];
        out.push(
            Node {
                x: node.x,
                y: node.y,
                obstacle: node.obstacle,
                local_goal: UNREACHED,
                global_goal: UNREACHED,
                parent: None,
                visited: false,
            },
        );
        i += 1;
    }
    out
}

/// A sequence of pairwise distinct indices below `n` cannot be longer than
/// `n`.
proof fn lemma_distinct_bounded_len(s: Seq<usize>, n: int)
    requires
        n >= 0,
        forall|k: int| 0 <= k < s.len() ==> (#[trigger] s[k]) < n,
        forall|k: int, l: int| 0 <= k < l < s.len() ==> s[k] != s[l],
    ensures
        s.len() <= n,
{
    let t = s.map_values(|u: usize| u as int);
    assert(t.no_duplicates());
    t.unique_seq_to_set();
    assert forall|e: int| t.to_set().contains(e) implies set_int_range(0, n).contains(e) by {
        let k = choose|k: int| 0 <= k < t.len() && t[k] == e;
        assert(s[k] < n);
    }
    lemma_int_range(0, n);
    lemma_len_subset(t.to_set(), set_int_range(0, n));
}

/// Rebuilds the route the search recorded: follows parent links back from
/// `current_index` to the unique parentless node of its chain, then
/// reverses, so the result runs from the chain's root to `current_index`.
/// Because costs strictly decrease toward the root, the walk is acyclic,
/// its entries are pairwise distinct, and it is never longer than the node
/// array.
pub fn construct_path(nodes: &[Node], current_index: usize) -> (r: Vec<usize>)
    requires
        parents_wf(nodes@),
        current_index < nodes@.len(),
        nodes@[current_index as int].global_goal < UNREACHED,
        !nodes@[current_index as int].obstacle,
    ensures
        1 <= r@.len() <= nodes@.len(),
        r@[r@.len() - 1] == current_index,
        nodes@[r@[0] as int].parent is None,
        forall|k: int|
            0 <= k < r@.len() ==> {
                &&& ((#[trigger] r@[k]) as int) < nodes@.len()
                &&& nodes@[r@[k] as int].global_goal < UNREACHED
                &&& !nodes@[r@[k] as int].obstacle
            },
        forall|k: int|
            0 <= k < r@.len() - 1 ==> nodes_adjacent(
                nodes@[(#[trigger] r@[k]) as int],
                nodes@[r@[k + 1] as int],
            ),
        forall|k: int|
            0 <= k < r@.len() - 1 ==> nodes@[(#[trigger] r@[k + 1]) as int].parent == Some(r@[k]),
        forall|k: int, l: int|
            0 <= k < l < r@.len() ==> nodes@[(#[trigger] r@[k]) as int].global_goal < nodes@[(
            #[trigger] r@[l]) as int].global_goal,
        forall|k: int, l: int| 0 <= k < l < r@.len() ==> r@[k] != r@[l],
        nodes@[current_index as int].parent is None ==> r@.len() == 1,
{
    let mut chain: Vec<usize> = Vec::new();
    chain.push(current_index);
    let mut cur: usize = current_index;
    loop
        invariant
            parents_wf(nodes@),
            cur < nodes@.len(),
            nodes@[cur as int].global_goal < UNREACHED,
            !nodes@[cur as int].obstacle,
            chain@.len() >= 1,
            chain@[0] == current_index,
            chain@[chain@.len() - 1] == cur,
            forall|k: int|
                0 <= k < chain@.len() ==> {
                    &&& ((#[trigger] chain@[k]) as int) < nodes@.len()
                    &&& nodes@[chain@[k] as int].global_goal < UNREACHED
                    &&& !nodes@[chain@[k] as int].obstacle
                },
            forall|k: int|
                0 <= k < chain@.len() - 1 ==> nodes@[(#[trigger] chain@[k]) as int].parent == Some(
                    chain@[k + 1],
                ),
            forall|k: int, l: int|
                0 <= k < l < chain@.len() ==> nodes@[(#[trigger] chain@[k]) as int].global_goal
                    > nodes@[(#[trigger] chain@[l]) as int].global_goal,
        ensures
            nodes@[cur as int].parent is None,
            cur < nodes@.len(),
            chain@.len() >= 1,
            chain@[0] == current_index,
            chain@[chain@.len() - 1] == cur,
            forall|k: int|
                0 <= k < chain@.len() ==> {
                    &&& ((#[trigger] chain@[k]) as int) < nodes@.len()
                    &&& nodes@[chain@[k] as int].global_goal < UNREACHED
                    &&& !nodes@[chain@[k] as int].obstacle
                },
            forall|k: int|
                0 <= k < chain@.len() - 1 ==> nodes@[(#[trigger] chain@[k]) as int].parent == Some(
                    chain@[k + 1],
                ),
            forall|k: int, l: int|
                0 <= k < l < chain@.len() ==> nodes@[(#[trigger] chain@[k]) as int].global_goal
                    > nodes@[(#[trigger] chain@[l]) as int].global_goal,
            nodes@[current_index as int].parent is None ==> chain@.len() == 1,
        decreases nodes@[cur as int].global_goal,
    {
        match nodes[cur].parent {
            Some(parent_index) => {
                chain.push(parent_index);
                cur = parent_index;
            },
            None => {
                break ;
            },
        }
    }
    proof {
        lemma_distinct_bounded_len(chain@, nodes@.len() as int);
    }
    let mut path: Vec<usize> = Vec::new();
    let mut j: usize = chain.len();
    while j > 0
        invariant
            j <= chain@.len(),
            path@.len() == chain@.len() - j,
            forall|k: int| 0 <= k < path@.len() ==> (#[trigger] path@[k]) == chain@[
                chain@.len() - 1 - k],
        decreases j,
    {
        j -= 1;
        let e = chain[j];
        path.push(e);
    }
    path
}

/// Open-set ordering: by `local_goal` first, ties broken by the smaller
/// index, so extraction is deterministic.
pub open spec fn entry_le(a: (i64, usize), b: (i64, usize)) -> bool {
    a.0 < b.0 || (a.0 == b.0 && a.1 <= b.1)
}

/// Removes and returns the open-set entry with the least score, ties broken
/// by the smaller index.
fn pop_min(open_set: &mut Vec<(i64, usize)>) -> (e: (i64, usize))
    requires
        old(open_set)@.len() >= 1,
    ensures
        final(open_set)@.len() == old(open_set)@.len() - 1,
        old(open_set)@.contains(e),
        forall|j: int|
            0 <= j < final(open_set)@.len() ==> old(open_set)@.contains(
                #[trigger] final(open_set)@[j],
            ),
        exists|i: int|
            0 <= i < old(open_set)@.len() && old(open_set)@[i] == e && final(open_set)@ == old(
                open_set,
            )@.remove(i),
        forall|j: int| 0 <= j < old(open_set)@.len() ==> entry_le(e, #[trigger] old(open_set)@[j]),
{
    let mut best: usize = 0;
    let mut i: usize = 1;
    while i < open_set.len()
        invariant
            1 <= i <= open_set@.len(),
            best < i,
            forall|j: int| 0 <= j < i ==> entry_le(open_set@[best as int], #[trigger] open_set@[j]),
        decreases open_set@.len() - i,
    {
        let (bf, bi) = open_set[best];
        let (cf, ci) = open_set[i];
        if cf < bf || (cf == bf && ci < bi) {
            best = i;
        }
        i += 1;
    }
    let e = open_set.remove(best);
    proof {
        assert(old(open_set)@[best as int] == e);
        assert(open_set@ == old(open_set)@.remove(best as int));
        assert forall|j: int| 0 <= j < open_set@.len() implies old(open_set)@.contains(
            #[trigger] open_set@[j],
        ) by {
            if j < best {
                assert(open_set@[j] == old(open_set)@[j]);
            } else {
                assert(open_set@[j] == old(open_set)@[j + 1]);
            }
        }
    }
    e
}

/// Whether a node is already queued in the open set, so it is not inserted
/// twice.
fn in_open(open_set: &Vec<(i64, usize)>, index: usize) -> (r: bool)
    ensures
        r == exists|j: int| 0 <= j < open_set@.len() && (#[trigger] open_set@[j]).1 == index,
{
    let mut i: usize = 0;
    while i < open_set.len()
        invariant
            i <= open_set@.len(),
            forall|j: int| 0 <= j < i ==> (#[trigger] open_set@[j]).1 != index,
        decreases open_set@.len() - i,
    {
        let (_f, idx) = open_set[i];
        if idx == index {
            return true;
        }
        i += 1;
    }
    false
}

/// The per-node cost the search's termination measure sums: `global_goal`
/// only ever decreases, node by node.
pub open spec fn goal_cost(n: Node) -> int {
    n.global_goal as int
}

/// The summand of the search's termination measure, as one shared function
/// value.
pub open spec fn goal_cost_fn() -> spec_fn(Node) -> int {
    |n: Node| goal_cost(n)
}

/// Relaxes every neighbor of the freshly closed `current_index`: obstacle
/// neighbors are skipped, and where stepping through the closed node
/// improves a neighbor's cost, the neighbor's parent, scores and open-set
/// membership are updated. Either some score strictly drops, or nothing
/// changes at all — the search's termination measure rests on this.
#[verifier::loop_isolation(false)]
#[verifier::rlimit(100)]
fn relax_neighbors(
    current_index: usize,
    start_index: usize,
    goal_index: usize,
    nodes: &mut Vec<Node>,
    open_set: &mut Vec<(i64, usize)>,
    width: usize,
    height: usize,
)
    requires
        valid_dims(width as int, height as int),
        coords_match(old(nodes)@, width as int, height as int),
        parents_wf(old(nodes)@),
        rooted_at(old(nodes)@, start_index as int),
        obstacles_untouched(old(nodes)@),
        goal_index < old(nodes)@.len(),
        current_index < old(nodes)@.len(),
        old(nodes)@[current_index as int].global_goal < UNREACHED,
        !old(nodes)@[current_index as int].obstacle,
        forall|j: int|
            0 <= j < old(open_set)@.len() ==> {
                let e = #[trigger] old(open_set)@[j];
                &&& (e.1 as int) < old(nodes)@.len()
                &&& old(nodes)@[e.1 as int].global_goal < UNREACHED
                &&& !old(nodes)@[e.1 as int].obstacle
            },
    ensures
        same_layout(old(nodes)@, final(nodes)@),
        coords_match(final(nodes)@, width as int, height as int),
        parents_wf(final(nodes)@),
        rooted_at(final(nodes)@, start_index as int),
        obstacles_untouched(final(nodes)@),
        forall|j: int|
            0 <= j < final(open_set)@.len() ==> {
                let e = #[trigger] final(open_set)@[j];
                &&& (e.1 as int) < final(nodes)@.len()
                &&& final(nodes)@[e.1 as int].global_goal < UNREACHED
                &&& !final(nodes)@[e.1 as int].obstacle
            },
        sum_map(final(nodes)@, goal_cost_fn()) < sum_map(old(nodes)@, goal_cost_fn()) || (sum_map(
            final(nodes)@,
            goal_cost_fn(),
        ) == sum_map(old(nodes)@, goal_cost_fn()) && final(open_set)@.len() == old(
            open_set,
        )@.len()),
{
    let ghost orig = nodes@;
    let ghost sum0 = sum_map(nodes@, goal_cost_fn());
    let ghost open0 = open_set@.len();
    let neighbors = get_neighbors(current_index, nodes, width, height);
    let mut k: usize = 0;
    while k < neighbors.len()
        invariant
            nodes@.len() == orig.len(),
            same_layout(orig, nodes@),
            coords_match(nodes@, width as int, height as int),
            parents_wf(nodes@),
            rooted_at(nodes@, start_index as int),
            obstacles_untouched(nodes@),
            forall|j: int|
                0 <= j < open_set@.len() ==> {
                    let e = #[trigger] open_set@[j];
                    &&& (e.1 as int) < nodes@.len()
                    &&& nodes@[e.1 as int].global_goal < UNREACHED
                    &&& !nodes@[e.1 as int].obstacle
                },
            k <= neighbors@.len(),
            nodes@[current_index as int].global_goal < UNREACHED,
            !nodes@[current_index as int].obstacle,
            forall|j: int|
                0 <= j < neighbors@.len() ==> {
                    &&& ((#[trigger] neighbors@[j]) as int) < nodes@.len()
                    &&& neighbors@[j] != current_index
                    &&& nodes_adjacent(nodes@[current_index as int], nodes@[neighbors@[j] as int])
                },
            sum_map(nodes@, goal_cost_fn()) < sum0 || (sum_map(nodes@, goal_cost_fn()) == sum0
                && open_set@.len() == open0),
        decreases neighbors@.len() - k,
    {
        let neighbor_index = neighbors[k];
        if nodes[neighbor_index].obstacle {
            k += 1;
            continue ;
        }
        let tentative_global_goal = nodes[current_index].global_goal + 1;
        if tentative_global_goal < nodes[neighbor_index].global_goal {
            let neighbor_node = nodes[neighbor_index];
            let target_node = nodes[goal_index];
            proof {
                lemma_coords_of_index(width as int, height as int, neighbor_index as int);
                lemma_coords_of_index(width as int, height as int, goal_index as int);
            }
            let h = neighbor_node.heuristic(&target_node);
            let mut relaxed = neighbor_node;
            relaxed.parent = Some(current_index);
            relaxed.global_goal = tentative_global_goal;
            relaxed.local_goal = if tentative_global_goal > i64::MAX - (h as i64) {
                i64::MAX
            } else {
                tentative_global_goal + (h as i64)
            };
            proof {
                lemma_sum_map_update(nodes@, neighbor_index as int, relaxed, goal_cost_fn());
            }
            nodes[neighbor_index] = relaxed;
            if !in_open(&open_set, neighbor_index) {
                open_set.push((nodes[neighbor_index].local_goal, neighbor_index));
            }
        }
        k += 1;
    }
}

/// A* over the 4-connected lattice with unit edge cost, on a freshly reset
/// node array. Expands the open node with the least `local_goal` (ties by
/// index), relaxes its passable neighbors, and reconstructs the route once
/// the goal is extracted. Returns `None` when the open set empties first,
/// and always when the start or the goal is an obstacle. A returned path
/// starts at `start_index`, ends at `goal_index`, steps only between
/// lattice-adjacent passable cells, and never repeats a cell, so it is at
/// most `width * height` long. Only cost fields are touched: the obstacle
/// layer and the coordinates come through unchanged.
#[verifier::loop_isolation(false)]
#[verifier::rlimit(100)]
pub fn a_star(
    start_index: usize,
    goal_index: usize,
    nodes: &mut Vec<Node>,
    width: usize,
    height: usize,
) -> (r: Option<Vec<usize>>)
    requires
        valid_dims(width as int, height as int),
        coords_match(old(nodes)@, width as int, height as int),
        is_reset(old(nodes)@),
        start_index < old(nodes)@.len(),
        goal_index < old(nodes)@.len(),
    ensures
        same_layout(old(nodes)@, final(nodes)@),
        coords_match(final(nodes)@, width as int, height as int),
        parents_wf(final(nodes)@),
        obstacles_untouched(final(nodes)@),
        !old(nodes)@[start_index as int].obstacle && !old(nodes)@[goal_index as int].obstacle
            ==> rooted_at(final(nodes)@, start_index as int),
        old(nodes)@[start_index as int].obstacle || old(nodes)@[goal_index as int].obstacle ==> r
            is None,
        match r {
            Some(p) => {
                &&& path_connects(final(nodes)@, p@, start_index as int, goal_index as int)
                &&& p@.len() <= width * height
                &&& (forall|k: int, l: int| 0 <= k < l < p@.len() ==> p@[k] != p@[l])
                &&& (forall|k: int|
                    0 <= k < p@.len() - 1 ==> final(nodes)@[(#[trigger] p@[k + 1]) as int].parent
                        == Some(p@[k]))
            },
            None => true,
        },
        start_index == goal_index && !old(nodes)@[start_index as int].obstacle ==> (r is Some
            && r->Some_0@.len() == 1),
{
    if nodes[start_index].obstacle || nodes[goal_index].obstacle {
        return None;
    }
    let ghost orig = nodes@;

    let start_node = nodes[start_index];
    let goal_node = nodes[goal_index];
    proof {
        lemma_coords_of_index(width as int, height as int, start_index as int);
        lemma_coords_of_index(width as int, height as int, goal_index as int);
    }
    let h0 = start_node.heuristic(&goal_node);
    let mut seeded = start_node;
    seeded.global_goal = 0;
    seeded.local_goal = h0 as i64;
    nodes[start_index] = seeded;

    let mut open_set: Vec<(i64, usize)> = Vec::new();
    open_set.push((h0 as i64, start_index));
    proof {
        assert(open_set@[0].1 == start_index);
    }

    while open_set.len() > 0
        invariant
            valid_dims(width as int, height as int),
            nodes@.len() == orig.len(),
            same_layout(orig, nodes@),
            coords_match(nodes@, width as int, height as int),
            start_index < nodes@.len(),
            goal_index < nodes@.len(),
            !nodes@[start_index as int].obstacle,
            !nodes@[goal_index as int].obstacle,
            parents_wf(nodes@),
            rooted_at(nodes@, start_index as int),
            obstacles_untouched(nodes@),
            forall|j: int|
                0 <= j < open_set@.len() ==> {
                    let e = #[trigger] open_set@[j];
                    &&& (e.1 as int) < nodes@.len()
                    &&& nodes@[e.1 as int].global_goal < UNREACHED
                    &&& !nodes@[e.1 as int].obstacle
                },
            start_index == goal_index ==> open_set@.len() == 1 && open_set@[0].1 == goal_index,
        decreases sum_map(nodes@, goal_cost_fn()), open_set@.len(),
    {
        proof {
            lemma_sum_map_nonneg(nodes@, goal_cost_fn());
        }
        let (_score, current_index) = pop_min(&mut open_set);
        if current_index == goal_index {
            let p = construct_path(nodes.as_slice(), goal_index);
            proof {
                assert(p@[0] == start_index);
            }
            return Some(p);
        }
        proof {
            // Past the goal test: with equal endpoints the only queued
            // entry was the goal, so it was popped and returned above.
            if start_index == goal_index {
                assert(false);
            }
        }
        let ghost sum0 = sum_map(nodes@, goal_cost_fn());
        let ghost open0 = open_set@.len();

        // The node is expanded now: close it.
        let mut closed = nodes[current_index];
        closed.visited = true;
        proof {
            lemma_sum_map_update(nodes@, current_index as int, closed, goal_cost_fn());
        }
        nodes[current_index] = closed;

        relax_neighbors(current_index, start_index, goal_index, nodes, &mut open_set, width, height);
        proof {
            // Termination: each iteration either lowered some score or
            // left the scores alone and shrank the open set by the pop.
            lemma_sum_map_nonneg(nodes@, goal_cost_fn());
            assert(sum_map(nodes@, goal_cost_fn()) < sum0 || (sum_map(
                nodes@,
                goal_cost_fn(),
            ) == sum0 && open_set@.len() == open0));
        }
    }

    None
}

/// The search never assigns anything to an obstacle cell: its cost
/// fields stay at their initial values and it is never closed.
pub open spec fn obstacles_untouched(nodes: Seq<Node>) -> bool {
    forall|i: int|
        0 <= i < nodes.len() && (#[trigger] nodes[i]).obstacle ==> {
            &&& nodes[i].global_goal == UNREACHED
            &&& nodes[i].local_goal == UNREACHED
            &&& nodes[i].parent is None
            &&& !nodes[i].visited
        }
}

/// The Manhattan distance between two nodes' coordinates.
pub open spec fn manhattan(a: Node, b: Node) -> int {
    (if a.x >= b.x {
        a.x - b.x
    } else {
        b.x - a.x
    }) + (if a.y >= b.y {
        a.y - b.y
    } else {
        b.y - a.y
    })
}

/// No route can beat the Manhattan distance: on a 4-connected lattice every
/// step moves one coordinate by one, so any returned path takes at least
/// `manhattan(start, goal)` steps — `manhattan + 1` entries. (That an empty
/// lattice admits a path of exactly that length is checked on concrete
/// grids by the test suite; this lemma states the direction that holds for
/// every path.)
pub proof fn lemma_path_at_least_manhattan(nodes: Seq<Node>, p: Seq<usize>, start: int, goal: int)
    requires
        path_connects(nodes, p, start, goal),
        0 <= start < nodes.len(),
        0 <= goal < nodes.len(),
    ensures
        p.len() >= 1 + manhattan(nodes[start], nodes[goal]),
    decreases p.len(),
{
    if p.len() == 1 {
        assert(start == goal);
    } else {
        let q = p.subrange(1, p.len() as int);
        let mid = p[1] as int;
        assert(path_connects(nodes, q, mid, goal)) by {
            assert(q[0] == p[1]);
            assert(q[q.len() - 1] == p[p.len() - 1]);
            assert(forall|k: int| 0 <= k < q.len() ==> q[k] == p[k + 1]);
        }
        lemma_path_at_least_manhattan(nodes, q, mid, goal);
        assert(nodes_adjacent(nodes[start], nodes[mid]));
        assert(manhattan(nodes[start], nodes[goal]) <= 1 + manhattan(nodes[mid], nodes[goal]));
    }
}

/// The pathfinding engine's long-lived state: the node arena, the chosen
/// endpoints, and the flag that tells the host a cached route has gone
/// stale and the search must be re-run.
pub struct PathGrid {
    pub width: usize,
    pub height: usize,
    pub nodes: Vec<Node>,
    /// Where a search departs from.
    pub node_start_index: Option<usize>,
    /// Where a search is headed.
    pub node_end_index: Option<usize>,
    /// Set by every mutation; cleared by `find_path`. While it is set, any
    /// previously returned route may no longer reflect the grid.
    pub needs_a_star_run: bool,
}

impl PathGrid {
    /// Structural soundness of the engine state: dimensions are valid, the
    /// arena has one node per cell carrying its own coordinates, and any
    /// chosen endpoint lies on the lattice.
    pub open spec fn wf(&self) -> bool {
        &&& valid_dims(self.width as int, self.height as int)
        &&& coords_match(self.nodes@, self.width as int, self.height as int)
        &&& match self.node_start_index {
            Some(s) => (s as int) < self.nodes@.len(),
            None => true,
        }
        &&& match self.node_end_index {
            Some(e) => (e as int) < self.nodes@.len(),
            None => true,
        }
    }

    /// Allocates a `width * height` arena of passable nodes with every cost
    /// field at its initial value and no endpoints chosen yet.
    pub fn new(width: usize, height: usize) -> (r: PathGrid)
        requires
            valid_dims(width as int, height as int),
        ensures
            r.wf(),
            r.width == width,
            r.height == height,
            r.nodes@.len() == width * height,
            is_reset(r.nodes@),
            forall|i: int| 0 <= i < r.nodes@.len() ==> !(#[trigger] r.nodes@[i]).obstacle,
            r.node_start_index is None,
            r.node_end_index is None,
            r.needs_a_star_run,
    {
        proof {
            assert(width * height <= MAX_SIDE * MAX_SIDE) by (nonlinear_arith)
                requires 1 <= width <= MAX_SIDE, 1 <= height <= MAX_SIDE;
        }
        let total: usize = width * height;
        let mut nodes: Vec<Node> = Vec::new();
        let mut i: usize = 0;
        while i < total
            invariant
                i <= total,
                total == width * height,
                valid_dims(width as int, height as int),
                nodes@.len() == i,
                forall|j: int|
                    0 <= j < i ==> {
                        &&& (#[trigger] nodes@[j]).x == x_of(width as int, j)
                        &&& nodes@[j].y == y_of(width as int, j)
                        &&& !nodes@[j].obstacle
                        &&& !nodes@[j].visited
                        &&& nodes@[j].global_goal == UNREACHED
                        &&& nodes@[j].local_goal == UNREACHED
                        &&& nodes@[j].parent is None
                    },
            decreases total - i,
        {
            proof {
                lemma_coords_of_index(width as int, height as int, i as int);
            }
            let x: usize = i % width;
            let y: usize = i / width;
            nodes.push(
                Node {
                    obstacle: false,
                    visited: false,
                    global_goal: UNREACHED,
                    local_goal: UNREACHED,
                    x: x as i32,
                    y: y as i32,
                    parent: None,
                },
            );
            i += 1;
        }
        PathGrid {
            width,
            height,
            nodes,
            node_start_index: None,
            node_end_index: None,
            needs_a_star_run: true,
        }
    }

    /// Sets or clears the obstacle flag of one cell and marks the grid
    /// dirty; an off-lattice index is rejected with `OutOfRange` and the
    /// grid is left untouched.
    pub fn set_obstacle(&mut self, index: usize, value: bool) -> (r: Result<(), GridError>)
        requires
            old(self).wf(),
        ensures
            final(self).wf(),
            match r {
                Ok(()) => {
                    &&& index < old(self).nodes@.len()
                    &&& final(self).nodes@ == old(self).nodes@.update(
                        index as int,
                        Node { obstacle: value, ..old(self).nodes@[index as int] },
                    )
                    &&& final(self).needs_a_star_run
                    &&& final(self).width == old(self).width
                    &&& final(self).height == old(self).height
                    &&& final(self).node_start_index == old(self).node_start_index
                    &&& final(self).node_end_index == old(self).node_end_index
                },
                Err(e) => {
                    &&& e == GridError::OutOfRange
                    &&& index >= old(self).nodes@.len()
                    &&& *final(self) == *old(self)
                },
            },
    {
        if index < self.nodes.len() {
            let mut node = self.nodes[index];
            node.obstacle = value;
            self.nodes[index] = node;
            self.needs_a_star_run = true;
            Ok(())
        } else {
            Err(GridError::OutOfRange)
        }
    }

    /// Moves the start of the search and marks the grid dirty; an
    /// off-lattice index is rejected with `OutOfRange` and the grid is left
    /// untouched.
    pub fn set_start(&mut self, index: usize) -> (r: Result<(), GridError>)
        requires
            old(self).wf(),
        ensures
            final(self).wf(),
            match r {
                Ok(()) => {
                    &&& index < old(self).nodes@.len()
                    &&& final(self).node_start_index == Some(index)
                    &&& final(self).needs_a_star_run
                    &&& final(self).width == old(self).width
                    &&& final(self).height == old(self).height
                    &&& final(self).nodes@ == old(self).nodes@
                    &&& final(self).node_end_index == old(self).node_end_index
                },
                Err(e) => {
                    &&& e == GridError::OutOfRange
                    &&& index >= old(self).nodes@.len()
                    &&& *final(self) == *old(self)
                },
            },
    {
        if index < self.nodes.len() {
            self.node_start_index = Some(index);
            self.needs_a_star_run = true;
            Ok(())
        } else {
            Err(GridError::OutOfRange)
        }
    }

    /// Moves the destination of the search and marks the grid dirty; an
    /// off-lattice index is rejected with `OutOfRange` and the grid is left
    /// untouched.
    pub fn set_end(&mut self, index: usize) -> (r: Result<(), GridError>)
        requires
            old(self).wf(),
        ensures
            final(self).wf(),
            match r {
                Ok(()) => {
                    &&& index < old(self).nodes@.len()
                    &&& final(self).node_end_index == Some(index)
                    &&& final(self).needs_a_star_run
                    &&& final(self).width == old(self).width
                    &&& final(self).height == old(self).height
                    &&& final(self).nodes@ == old(self).nodes@
                    &&& final(self).node_start_index == old(self).node_start_index
                },
                Err(e) => {
                    &&& e == GridError::OutOfRange
                    &&& index >= old(self).nodes@.len()
                    &&& *final(self) == *old(self)
                },
            },
    {
        if index < self.nodes.len() {
            self.node_end_index = Some(index);
            self.needs_a_star_run = true;
            Ok(())
        } else {
            Err(GridError::OutOfRange)
        }
    }

    /// Runs the search between two indices over a fresh copy of the cost
    /// fields: nothing of a prior run — `global_goal`, `local_goal`,
    /// `visited`, `parent` — can influence the result; only the obstacle
    /// layer persists. Clears the dirty flag. Off-lattice indices are
    /// rejected with `OutOfRange` and the grid is left untouched; "no route
    /// exists" is the successful result `Ok(None)`.
    pub fn find_path(&mut self, start_index: usize, goal_index: usize) -> (r: Result<
        Option<Vec<usize>>,
        GridError,
    >)
        requires
            old(self).wf(),
        ensures
            final(self).wf(),
            final(self).width == old(self).width,
            final(self).height == old(self).height,
            final(self).node_start_index == old(self).node_start_index,
            final(self).node_end_index == old(self).node_end_index,
            same_layout(old(self).nodes@, final(self).nodes@),
            match r {
                Ok(opt) => {
                    &&& start_index < old(self).nodes@.len()
                    &&& goal_index < old(self).nodes@.len()
                    &&& !final(self).needs_a_star_run
                    &&& parents_wf(final(self).nodes@)
                    &&& obstacles_untouched(final(self).nodes@)
                    &&& (!old(self).nodes@[start_index as int].obstacle && !old(
                        self,
                    ).nodes@[goal_index as int].obstacle ==> rooted_at(
                        final(self).nodes@,
                        start_index as int,
                    ))
                    &&& (old(self).nodes@[start_index as int].obstacle || old(self).nodes@[goal_index as int].obstacle ==> opt is None)
                    &&& match opt {
                        Some(p) => {
                            &&& path_connects(
                                final(self).nodes@,
                                p@,
                                start_index as int,
                                goal_index as int,
                            )
                            &&& p@.len() <= old(self).width * old(self).height
                            &&& (forall|k: int, l: int| 0 <= k < l < p@.len() ==> p@[k] != p@[l])
                            &&& (forall|k: int|
                                0 <= k < p@.len() - 1 ==> final(self).nodes@[(#[trigger] p@[k
                                    + 1]) as int].parent == Some(p@[k]))
                        },
                        None => true,
                    }
                    &&& (start_index == goal_index && !old(self).nodes@[start_index as int].obstacle ==> opt is Some
                        && opt->Some_0@.len() == 1)
                },
                Err(e) => {
                    &&& e == GridError::OutOfRange
                    &&& (start_index >= old(self).nodes@.len() || goal_index >= old(self).nodes@.len())
                    &&& *final(self) == *old(self)
                },
            },
    {
        if start_index >= self.nodes.len() || goal_index >= self.nodes.len() {
            return Err(GridError::OutOfRange);
        }
        let fresh = reset_and_clone_nodes(self.nodes.as_slice());
        self.nodes = fresh;
        let result = a_star(start_index, goal_index, &mut self.nodes, self.width, self.height);
        self.needs_a_star_run = false;
        Ok(result)
    }
}

} // verus!
