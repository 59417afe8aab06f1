use vstd::prelude::*;
use crate::grid::{Cell, Grid};
use crate::moves::{at_goal, grid_neighbors, legal_walk, manhattan_estimate, small_cell};

verus! {

/// The route that `pathfinding`'s A* search returns on a grid (given by its
/// view), from `start` to `goal`, stepping as `grid_neighbors` allows.
pub uninterp spec fn astar_route(
    grid: (nat, nat, Seq<Seq<bool>>),
    start: (usize, usize),
    goal: (usize, usize),
    cardinal_only: bool,
) -> Option<Seq<(usize, usize)>>;

/// A legal walk that starts at `start` and ends at `goal`.
pub open spec fn walk_between(g: Grid, p: Seq<Cell>, start: Cell, goal: Cell, cardinal_only: bool) -> bool {
    &&& p.len() >= 1
    &&& p[0] == start
    &&& p.last() == goal
    &&& legal_walk(g, p, cardinal_only)
}

/// With only straight steps, no legal walk from `start` to `goal` has fewer cells than `p`.
pub open spec fn shortest_walk(g: Grid, p: Seq<Cell>, start: Cell, goal: Cell) -> bool {
    forall|q: Seq<Cell>| #[trigger] walk_between(g, q, start, goal, true) ==> p.len() <= q.len()
}

/// Some legal walk leads from `start` to `goal`.
pub open spec fn reachable(g: Grid, start: Cell, goal: Cell, cardinal_only: bool) -> bool {
    exists|p: Seq<Cell>| #[trigger] walk_between(g, p, start, goal, cardinal_only)
}

/// Calls `pathfinding::directed::astar::astar` from `start`, with successors
/// given by `grid_neighbors`, the Manhattan estimate `manhattan_estimate` and
/// success at `goal`, and keeps the path. Claimed of it, as its source shows:
/// the result is `astar_route` of the arguments; a returned path starts at
/// `start`, ends at `goal`, repeats no cell and moves only between successors
/// (legal steps); `None` comes only when no node reachable from `start`
/// satisfies the success test, that is when no legal walk reaches `goal`.
/// Costs stay below 14 per cell plus the estimate, which `requires` keeps in
/// `u32` (the estimate needs `start` in the grid and `goal` small). With
/// `cardinal_only` every step costs 10 and the estimate never exceeds the
/// remaining cost, so, as the crate documents for such estimates, the path
/// is a shortest one: no legal walk from `start` to `goal` has fewer cells.
/// With diagonals the estimate can exceed the remaining cost and nothing is
/// claimed about length. Which path among equally short ones is taken is left
/// to the name.
#[verifier::external_body]
fn astar_grid(grid: &Grid, start: Cell, goal: Cell, cardinal_only: bool) -> (res: Option<Vec<Cell>>)
    requires
        grid.wf(),
        grid.in_bounds(start.0 as int, start.1 as int),
        small_cell(goal),
        14 * grid.width * grid.height + 10 * (grid.width + grid.height) <= u32::MAX,
    ensures
        astar_route(grid@, start, goal, cardinal_only) == (match res {
            Some(p) => Some(p@),
            None => None,
        }),
        res matches Some(p) ==> walk_between(*grid, p@, start, goal, cardinal_only) && p@.no_duplicates(),
        res is None ==> !reachable(*grid, start, goal, cardinal_only),
        cardinal_only && res is Some ==> shortest_walk(*grid, res->0@, start, goal),
{
    pathfinding::directed::astar::astar(
        &start,
        |c: &Cell| grid_neighbors(grid, c.0, c.1, cardinal_only),
        |c: &Cell| manhattan_estimate(*c, goal),
        |c: &Cell| at_goal(*c, goal),
    ).map(|found| found.0)
}

/// Grid-based A* pathfinding (shortest mode): a walk of legal steps from
/// `start` to `goal`, or `None` exactly when `goal` cannot be reached; with
/// only straight steps, a walk with as few cells as any.
pub fn find_path(grid: &Grid, start: Cell, goal: Cell, cardinal_only: bool) -> (res: Option<Vec<Cell>>)
    requires
        grid.wf(),
        grid.in_bounds(start.0 as int, start.1 as int),
        small_cell(goal),
    ensures
        astar_route(grid@, start, goal, cardinal_only) == (match res {
            Some(p) => Some(p@),
            None => None,
        }),
        res matches Some(p) ==> walk_between(*grid, p@, start, goal, cardinal_only) && p@.no_duplicates(),
        res is None <==> !reachable(*grid, start, goal, cardinal_only),
        cardinal_only && res is Some ==> shortest_walk(*grid, res->0@, start, goal),
{
    proof {
        lemma_cost_bound(grid.width as int, grid.height as int);
    }
    let res = astar_grid(grid, start, goal, cardinal_only);
    assert(res is Some ==> reachable(*grid, start, goal, cardinal_only)) by {
        if res is Some {
            assert(walk_between(*grid, res->0@, start, goal, cardinal_only));
        }
    }
    res
}

proof fn lemma_cost_bound(w: int, h: int)
    requires
        0 <= w <= 16384,
        0 <= h <= 16384,
    ensures
        14 * w * h + 10 * (w + h) <= u32::MAX,
{
    assert(w * h <= 16384 * 16384) by (nonlinear_arith)
        requires
            0 <= w <= 16384,
            0 <= h <= 16384,
    ;
    assert(14 * w * h == 14 * (w * h)) by (nonlinear_arith);
}

} // verus!
