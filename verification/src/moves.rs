use vstd::prelude::*;
use crate::grid::{Cell, Grid, MAX_SIDE};

verus! {

/// Column offset of direction `k` (0..9); directions run with the column
/// offset outermost and the row offset innermost, each from -1 to 1.
pub open spec fn dir_dx(k: int) -> int {
    k / 3 - 1
}

/// Row offset of direction `k` (0..9).
pub open spec fn dir_dy(k: int) -> int {
    k % 3 - 1
}

/// `(dx, dy)` moves to one of the eight surrounding cells, and is not a
/// diagonal when only cardinal moves are allowed.
pub open spec fn king_offset(dx: int, dy: int, cardinal_only: bool) -> bool {
    &&& -1 <= dx <= 1
    &&& -1 <= dy <= 1
    &&& !(dx == 0 && dy == 0)
    &&& !(cardinal_only && dx != 0 && dy != 0)
}

pub open spec fn is_diagonal(a: Cell, b: Cell) -> bool {
    a.0 != b.0 && a.1 != b.1
}

/// A step to a neighbouring open cell (the moves the unvisited-cell search takes).
pub open spec fn open_step(g: Grid, a: Cell, b: Cell, cardinal_only: bool) -> bool {
    &&& king_offset(b.0 - a.0, b.1 - a.1, cardinal_only)
    &&& g.passable(b.0 as int, b.1 as int)
}

/// A step to a neighbouring open cell that does not cut a blocked corner:
/// for a diagonal step both cells beside it are open as well.
pub open spec fn legal_step(g: Grid, a: Cell, b: Cell, cardinal_only: bool) -> bool {
    &&& open_step(g, a, b, cardinal_only)
    &&& is_diagonal(a, b) ==> !g.blocked_at(a.0 as int, b.1 as int) && !g.blocked_at(
        b.0 as int,
        a.1 as int,
    )
}

/// Cost of a step: 14 for a diagonal, 10 otherwise.
pub open spec fn step_cost(a: Cell, b: Cell) -> u32 {
    if is_diagonal(a, b) {
        14
    } else {
        10
    }
}

/// Every consecutive pair of `p` is a legal step.
pub open spec fn legal_walk(g: Grid, p: Seq<Cell>, cardinal_only: bool) -> bool {
    forall|i: int| 0 <= i < p.len() - 1 ==> legal_step(g, #[trigger] p[i], p[i + 1], cardinal_only)
}

/// Every consecutive pair of `p` is an open step.
pub open spec fn open_walk(g: Grid, p: Seq<Cell>, cardinal_only: bool) -> bool {
    forall|i: int| 0 <= i < p.len() - 1 ==> open_step(g, #[trigger] p[i], p[i + 1], cardinal_only)
}

/// The cell reached from `c` in direction `k`, when it has non-negative coordinates.
pub open spec fn toward(c: Cell, k: int) -> Option<Cell> {
    let nx = c.0 + dir_dx(k);
    let ny = c.1 + dir_dy(k);
    if nx >= 0 && ny >= 0 {
        Some((nx as usize, ny as usize))
    } else {
        None
    }
}

/// The legal steps out of `c` in directions `0..k`, in direction order, with their costs.
pub open spec fn neighbors_upto(g: Grid, c: Cell, cardinal_only: bool, k: int) -> Seq<(Cell, u32)>
    decreases k,
{
    if k <= 0 {
        Seq::empty()
    } else {
        let prev = neighbors_upto(g, c, cardinal_only, k - 1);
        match toward(c, k - 1) {
            Some(n) => if legal_step(g, c, n, cardinal_only) {
                prev.push((n, step_cost(c, n)))
            } else {
                prev
            },
            None => prev,
        }
    }
}

/// The legal steps out of `c`, in direction order, with their costs.
pub open spec fn neighbors_spec(g: Grid, c: Cell, cardinal_only: bool) -> Seq<(Cell, u32)> {
    neighbors_upto(g, c, cardinal_only, 9)
}

/// Every step out of `c` is in one of the nine directions.
pub proof fn lemma_offset_direction(dx: int, dy: int)
    requires
        -1 <= dx <= 1,
        -1 <= dy <= 1,
    ensures
        0 <= (dx + 1) * 3 + (dy + 1) < 9,
        dir_dx((dx + 1) * 3 + (dy + 1)) == dx,
        dir_dy((dx + 1) * 3 + (dy + 1)) == dy,
{
}

/// The entries of `neighbors_upto` are exactly the legal steps in the first `k` directions.
pub proof fn lemma_neighbors_upto_members(g: Grid, c: Cell, cardinal_only: bool, k: int, n: Cell)
    requires
        0 <= k <= 9,
    ensures
        (exists|i: int|
            0 <= i < neighbors_upto(g, c, cardinal_only, k).len() && (#[trigger] neighbors_upto(
                g,
                c,
                cardinal_only,
                k,
            )[i]).0 == n) <==> (legal_step(g, c, n, cardinal_only) && 0 <= (n.0 - c.0 + 1) * 3 + (
        n.1 - c.1 + 1) < k),
        forall|i: int|
            0 <= i < neighbors_upto(g, c, cardinal_only, k).len() ==> (#[trigger] neighbors_upto(
                g,
                c,
                cardinal_only,
                k,
            )[i]).1 == step_cost(c, neighbors_upto(g, c, cardinal_only, k)[i].0),
    decreases k,
{
    if k > 0 {
        lemma_neighbors_upto_members(g, c, cardinal_only, k - 1, n);
        let prev = neighbors_upto(g, c, cardinal_only, k - 1);
        let cur = neighbors_upto(g, c, cardinal_only, k);
        let d = (n.0 - c.0 + 1) * 3 + (n.1 - c.1 + 1);
        if legal_step(g, c, n, cardinal_only) && d == k - 1 {
            assert(toward(c, k - 1) == Some(n));
            assert(cur[cur.len() - 1].0 == n);
        }
        if exists|i: int| 0 <= i < cur.len() && (#[trigger] cur[i]).0 == n {
            let i = choose|i: int| 0 <= i < cur.len() && (#[trigger] cur[i]).0 == n;
            if i < prev.len() {
                assert(prev[i] == cur[i]);
            } else {
                assert(toward(c, k - 1) == Some(n));
            }
        }
        if exists|i: int| 0 <= i < prev.len() && (#[trigger] prev[i]).0 == n {
            let i = choose|i: int| 0 <= i < prev.len() && (#[trigger] prev[i]).0 == n;
            assert(cur[i] == prev[i]);
        }
    }
}

/// The legal steps out of `(x, y)`, in direction order (column offset outer,
/// row offset inner, each from -1 to 1), each with its cost: 10 for a straight
/// step and 14 for a diagonal one. A step goes to an open cell of the grid; a
/// diagonal step needs both cells beside it open as well (no corner cutting),
/// and is left out altogether when `cardinal_only` is set.
pub fn grid_neighbors(grid: &Grid, x: usize, y: usize, cardinal_only: bool) -> (res: Vec<(Cell, u32)>)
    requires
        grid.wf(),
        grid.in_bounds(x as int, y as int),
    ensures
        res@ == neighbors_spec(*grid, (x, y), cardinal_only),
{
    let mut neighbors: Vec<(Cell, u32)> = Vec::new();
    let mut k: usize = 0;
    while k < 9
        invariant
            k <= 9,
            grid.wf(),
            grid.in_bounds(x as int, y as int),
            neighbors@ == neighbors_upto(*grid, (x, y), cardinal_only, k as int),
        decreases 9 - k,
    {
        let dx: i64 = (k / 3) as i64 - 1;
        let dy: i64 = (k % 3) as i64 - 1;
        if !(dx == 0 && dy == 0) && !(cardinal_only && dx != 0 && dy != 0) {
            let nx: i64 = x as i64 + dx;
            let ny: i64 = y as i64 + dy;
            if nx >= 0 && ny >= 0 && (nx as usize) < grid.width && (ny as usize) < grid.height {
                let n: Cell = (nx as usize, ny as usize);
                if !grid.blocked(n.0, n.1) {
                    let corner_ok = if dx != 0 && dy != 0 {
                        !grid.blocked(x, n.1) && !grid.blocked(n.0, y)
                    } else {
                        true
                    };
                    if corner_ok {
                        let cost: u32 = if dx != 0 && dy != 0 { 14 } else { 10 };
                        neighbors.push((n, cost));
                    }
                }
            }
        }
        k += 1;
    }
    neighbors
}

/// `10 * (|x - gx| + |y - gy|)`: the search's estimate of the cost to the goal.
pub open spec fn manhattan_spec(c: Cell, goal: Cell) -> int {
    10 * (abs_diff(c.0 as int, goal.0 as int) + abs_diff(c.1 as int, goal.1 as int))
}

pub open spec fn abs_diff(a: int, b: int) -> int {
    if a >= b {
        a - b
    } else {
        b - a
    }
}

/// Squared Euclidean distance between two cells.
pub open spec fn dist2(c: Cell, goal: Cell) -> int {
    (c.0 - goal.0) * (c.0 - goal.0) + (c.1 - goal.1) * (c.1 - goal.1)
}

/// Coordinates small enough for the distance arithmetic.
pub open spec fn small_cell(c: Cell) -> bool {
    c.0 <= MAX_SIDE && c.1 <= MAX_SIDE
}

/// The A* estimate of the remaining cost from `c` to `goal`.
pub fn manhattan_estimate(c: Cell, goal: Cell) -> (res: u32)
    requires
        small_cell(c),
        small_cell(goal),
    ensures
        res == manhattan_spec(c, goal),
{
    let dx: u32 = if c.0 >= goal.0 { (c.0 - goal.0) as u32 } else { (goal.0 - c.0) as u32 };
    let dy: u32 = if c.1 >= goal.1 { (c.1 - goal.1) as u32 } else { (goal.1 - c.1) as u32 };
    (dx + dy) * 10
}

/// Squared Euclidean distance from `c` to `goal`.
pub fn squared_distance(c: Cell, goal: Cell) -> (res: u32)
    requires
        small_cell(c),
        small_cell(goal),
    ensures
        res == dist2(c, goal),
{
    let dx: i64 = c.0 as i64 - goal.0 as i64;
    let dy: i64 = c.1 as i64 - goal.1 as i64;
    assert(dx * dx <= 16384 * 16384 && dy * dy <= 16384 * 16384) by (nonlinear_arith)
        requires
            -16384 <= dx <= 16384,
            -16384 <= dy <= 16384,
    ;
    assert(dx * dx >= 0 && dy * dy >= 0) by (nonlinear_arith);
    (dx * dx + dy * dy) as u32
}

/// Whether `c` is the goal cell.
pub fn at_goal(c: Cell, goal: Cell) -> (res: bool)
    ensures
        res == (c == goal),
{
    c.0 == goal.0 && c.1 == goal.1
}

/// `cands[i]` is the first of the cells of `cands` furthest from `goal`.
pub open spec fn first_furthest(cands: Seq<Cell>, goal: Cell, i: int) -> bool {
    &&& 0 <= i < cands.len()
    &&& forall|j: int| 0 <= j < cands.len() ==> dist2(#[trigger] cands[j], goal) <= dist2(cands[i], goal)
    &&& forall|j: int| 0 <= j < i ==> dist2(#[trigger] cands[j], goal) < dist2(cands[i], goal)
}

/// Index of the first cell of `cells` furthest from `goal` (the cell a stable
/// sort by decreasing distance would put first).
pub fn pick_furthest(cells: &Vec<Cell>, goal: Cell) -> (res: usize)
    requires
        cells@.len() > 0,
        forall|i: int| 0 <= i < cells@.len() ==> small_cell(#[trigger] cells@[i]),
        small_cell(goal),
    ensures
        res < cells@.len(),
        forall|i: int| 0 <= i < cells@.len() ==> dist2(#[trigger] cells@[i], goal) <= dist2(cells@[res as int], goal),
        forall|i: int| 0 <= i < res ==> dist2(#[trigger] cells@[i], goal) < dist2(cells@[res as int], goal),
{
    let mut best: usize = 0;
    let mut best_d: u32 = squared_distance(cells[0], goal);
    let mut i: usize = 1;
    while i < cells.len()
        invariant
            1 <= i <= cells@.len(),
            best < i,
            best_d == dist2(cells@[best as int], goal),
            small_cell(goal),
            forall|j: int| 0 <= j < cells@.len() ==> small_cell(#[trigger] cells@[j]),
            forall|j: int| 0 <= j < i ==> dist2(#[trigger] cells@[j], goal) <= best_d,
            forall|j: int| 0 <= j < best ==> dist2(#[trigger] cells@[j], goal) < best_d,
        decreases cells@.len() - i,
    {
        let d = squared_distance(cells[i], goal);
        if d > best_d {
            best = i;
            best_d = d;
        }
        i += 1;
    }
    best
}

} // verus!
