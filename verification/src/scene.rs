use vstd::prelude::*;
use crate::grid::{Cell, Grid};
use crate::kinds::Shape;

verus! {

/// A preset rectangular wall `(x1, y1, x2, y2)`, covering the cells with
/// `x1 <= x <= x2` and `y1 <= y <= y2`.
pub type Wall = (usize, usize, usize, usize);

pub open spec fn wall_covers(wall: Wall, x: int, y: int) -> bool {
    wall.0 <= x <= wall.2 && wall.1 <= y <= wall.3
}

/// Some wall of `walls` covers `(x, y)`.
pub open spec fn walls_cover(walls: Seq<Wall>, x: int, y: int) -> bool {
    exists|i: int| 0 <= i < walls.len() && wall_covers(#[trigger] walls[i], x, y)
}

/// Whether any preset wall covers the cell `(x, y)`.
pub fn in_any_wall(walls: &Vec<Wall>, x: usize, y: usize) -> (res: bool)
    ensures
        res == walls_cover(walls@, x as int, y as int),
{
    let mut i: usize = 0;
    while i < walls.len()
        invariant
            i <= walls@.len(),
            forall|j: int| 0 <= j < i ==> !wall_covers(#[trigger] walls@[j], x as int, y as int),
        decreases walls@.len() - i,
    {
        let (x1, y1, x2, y2) = walls[i];
        if x >= x1 && x <= x2 && y >= y1 && y <= y2 {
            assert(wall_covers(walls@[i as int], x as int, y as int));
            return true;
        }
        i += 1;
    }
    false
}

/// The cell lies on the outer border of a `width` x `height` grid.
pub open spec fn on_border(width: int, height: int, x: int, y: int) -> bool {
    x == 0 || y == 0 || x == width - 1 || y == height - 1
}

/// The border of a grid is its whole outer ring: every cell of the first
/// and last row and of the first and last column, and no cell inside.
pub proof fn lemma_border_is_outer_ring(width: int, height: int)
    requires
        width >= 1,
        height >= 1,
    ensures
        forall|x: int| 0 <= x < width ==> #[trigger] on_border(width, height, x, 0) && on_border(width, height, x, height - 1),
        forall|y: int| 0 <= y < height ==> #[trigger] on_border(width, height, 0, y) && on_border(width, height, width - 1, y),
        forall|x: int, y: int| 0 < x < width - 1 && 0 < y < height - 1 ==> !#[trigger] on_border(width, height, x, y),
{
}

/// Whether `(x, y)` lies on the border of a `width` x `height` grid (the
/// rectangle boundary when no preset walls are given).
pub fn border_cell(width: usize, height: usize, x: usize, y: usize) -> (res: bool)
    requires
        x == 0 || y == 0 || (width >= 1 && (x + 1 == width || height >= 1)),
    ensures
        res == on_border(width as int, height as int, x as int, y as int),
{
    x == 0 || y == 0 || x == width - 1 || y == height - 1
}

/// Whether a scene blocks `(x, y)`: painted by the user, covered by a preset
/// wall, or outside the boundary shape. For `Rect` the boundary is the grid's
/// border when there are no preset walls (and nothing otherwise); for the
/// other shapes `outside_shape` says whether the cell lies outside the curve.
pub fn scene_blocked(
    painted: bool,
    walls: &Vec<Wall>,
    shape: Shape,
    width: usize,
    height: usize,
    x: usize,
    y: usize,
    outside_shape: bool,
) -> (res: bool)
    requires
        shape == Shape::Rect && walls@.len() == 0 ==> x == 0 || y == 0 || (width >= 1 && (x + 1 == width || height >= 1)),
    ensures
        res == (painted || walls_cover(walls@, x as int, y as int) || match shape {
            Shape::Rect => walls@.len() == 0 && on_border(width as int, height as int, x as int, y as int),
            _ => outside_shape,
        }),
        shape == Shape::Rect && walls@.len() == 0 && (x == 0 || y == 0 || x + 1 == width || y + 1 == height) ==> res,
        shape == Shape::Rect && walls@.len() == 0 && !painted && 0 < x && x + 1 < width && 0 < y && y + 1 < height ==> !res,
{
    if painted {
        return true;
    }
    if in_any_wall(walls, x, y) {
        return true;
    }
    match shape {
        Shape::Rect => {
            if walls.len() == 0 {
                border_cell(width, height, x, y)
            } else {
                false
            }
        },
        _ => outside_shape,
    }
}

/// `a - d`, or 0 when `d > a`.
pub open spec fn sat_sub(a: int, d: int) -> int {
    if a >= d {
        a - d
    } else {
        0
    }
}

/// The `d`-th cell up and to the left of the grid's centre (clamped at 0).
pub open spec fn start_probe(g: Grid, d: int) -> Cell {
    (sat_sub((g.width / 2) as int, d) as usize, sat_sub((g.height / 2) as int, d) as usize)
}

/// The `d`-th cell down and to the right of the grid's centre (clamped at the last row and column).
pub open spec fn goal_probe(g: Grid, d: int) -> Cell {
    (
        (if g.width / 2 + d <= g.width - 1 { g.width / 2 + d } else { g.width - 1 }) as usize,
        (if g.height / 2 + d <= g.height - 1 { g.height / 2 + d } else { g.height - 1 }) as usize,
    )
}

/// The first open cell on the diagonal from the centre towards the top-left,
/// probing `d = 1, 2, ..` while `d < width`; `(1, 1)` when all are blocked.
pub fn diagonal_start(grid: &Grid) -> (res: Cell)
    requires
        grid.wf(),
        grid.width <= 1 || grid.height >= 1,
    ensures
        (exists|d: int|
            1 <= d < grid.width && !grid.blocked_at(start_probe(*grid, d).0 as int, start_probe(*grid, d).1 as int)
                && (forall|e: int| 1 <= e < d ==> grid.blocked_at(#[trigger] start_probe(*grid, e).0 as int, start_probe(*grid, e).1 as int))
                && res == start_probe(*grid, d)) || ((forall|d: int|
            1 <= d < grid.width ==> grid.blocked_at(#[trigger] start_probe(*grid, d).0 as int, start_probe(*grid, d).1 as int))
            && res == (1usize, 1usize)),
{
    let cx = grid.width / 2;
    let cy = grid.height / 2;
    let mut d: usize = 1;
    while d < grid.width
        invariant
            grid.wf(),
            grid.width <= 1 || grid.height >= 1,
            cx == grid.width / 2,
            cy == grid.height / 2,
            1 <= d,
            d <= grid.width || grid.width == 0,
            forall|e: int| 1 <= e < d ==> grid.blocked_at(#[trigger] start_probe(*grid, e).0 as int, start_probe(*grid, e).1 as int),
        decreases grid.width - d,
    {
        let x = cx.saturating_sub(d);
        let y = cy.saturating_sub(d);
        assert((x, y) == start_probe(*grid, d as int));
        if !grid.blocked(x, y) {
            return (x, y);
        }
        d += 1;
    }
    (1, 1)
}

/// The first open cell on the diagonal from the centre towards the
/// bottom-right, probing `d = 1, 2, ..` while `d < width`; `(width - 2,
/// height - 2)` when all are blocked.
pub fn diagonal_goal(grid: &Grid) -> (res: Cell)
    requires
        grid.wf(),
        grid.width <= 1 || grid.height >= 1,
        (grid.width >= 2 && grid.height >= 2) || exists|d: int|
            1 <= d < grid.width && !grid.blocked_at(#[trigger] goal_probe(*grid, d).0 as int, goal_probe(*grid, d).1 as int),
    ensures
        (exists|d: int|
            1 <= d < grid.width && !grid.blocked_at(goal_probe(*grid, d).0 as int, goal_probe(*grid, d).1 as int)
                && (forall|e: int| 1 <= e < d ==> grid.blocked_at(#[trigger] goal_probe(*grid, e).0 as int, goal_probe(*grid, e).1 as int))
                && res == goal_probe(*grid, d)) || ((forall|d: int|
            1 <= d < grid.width ==> grid.blocked_at(#[trigger] goal_probe(*grid, d).0 as int, goal_probe(*grid, d).1 as int))
            && res == ((grid.width - 2) as usize, (grid.height - 2) as usize)),
{
    let cx = grid.width / 2;
    let cy = grid.height / 2;
    let mut d: usize = 1;
    while d < grid.width
        invariant
            grid.wf(),
            grid.width <= 1 || grid.height >= 1,
            cx == grid.width / 2,
            cy == grid.height / 2,
            1 <= d,
            d <= grid.width || grid.width == 0,
            forall|e: int| 1 <= e < d ==> grid.blocked_at(#[trigger] goal_probe(*grid, e).0 as int, goal_probe(*grid, e).1 as int),
        decreases grid.width - d,
    {
        let x = if cx + d <= grid.width - 1 { cx + d } else { grid.width - 1 };
        let y = if cy + d <= grid.height - 1 { cy + d } else { grid.height - 1 };
        assert((x, y) == goal_probe(*grid, d as int));
        if !grid.blocked(x, y) {
            return (x, y);
        }
        d += 1;
    }
    (grid.width - 2, grid.height - 2)
}

/// `a` comes before `b` in row-major order (by row, then by column).
pub open spec fn row_major_before(a: Cell, b: Cell) -> bool {
    a.1 < b.1 || (a.1 == b.1 && a.0 < b.0)
}

/// The blocked cells of the grid, in row-major order: the cells that the
/// drawing fills as engraved squares.
pub fn blocked_cells(grid: &Grid) -> (res: Vec<Cell>)
    requires
        grid.wf(),
    ensures
        forall|i: int|
            0 <= i < res@.len() ==> grid.in_bounds((#[trigger] res@[i]).0 as int, res@[i].1 as int) && grid.blocked_at(
                res@[i].0 as int,
                res@[i].1 as int,
            ),
        forall|c: Cell| grid.in_bounds(c.0 as int, c.1 as int) && grid.blocked_at(c.0 as int, c.1 as int) ==> #[trigger] res@.contains(c),
        forall|i: int, j: int| 0 <= i < j < res@.len() ==> row_major_before(#[trigger] res@[i], #[trigger] res@[j]),
{
    let mut res: Vec<Cell> = Vec::new();
    let mut y: usize = 0;
    while y < grid.height
        invariant
            grid.wf(),
            y <= grid.height,
            forall|i: int|
                0 <= i < res@.len() ==> grid.in_bounds((#[trigger] res@[i]).0 as int, res@[i].1 as int) && grid.blocked_at(
                    res@[i].0 as int,
                    res@[i].1 as int,
                ) && res@[i].1 < y,
            forall|c: Cell|
                grid.in_bounds(c.0 as int, c.1 as int) && c.1 < y && grid.blocked_at(c.0 as int, c.1 as int) ==> #[trigger] res@.contains(c),
            forall|i: int, j: int| 0 <= i < j < res@.len() ==> row_major_before(#[trigger] res@[i], #[trigger] res@[j]),
        decreases grid.height - y,
    {
        let mut x: usize = 0;
        let ghost before_row = res@.len();
        while x < grid.width
            invariant
                grid.wf(),
                y < grid.height,
                x <= grid.width,
                before_row <= res@.len(),
                forall|i: int|
                    0 <= i < res@.len() ==> grid.in_bounds((#[trigger] res@[i]).0 as int, res@[i].1 as int) && grid.blocked_at(
                        res@[i].0 as int,
                        res@[i].1 as int,
                    ) && res@[i].1 <= y,
                forall|i: int| 0 <= i < before_row ==> (#[trigger] res@[i]).1 < y,
                forall|i: int| before_row <= i < res@.len() ==> (#[trigger] res@[i]).1 == y && res@[i].0 < x,
                forall|c: Cell|
                    grid.in_bounds(c.0 as int, c.1 as int) && (c.1 < y || (c.1 == y && c.0 < x)) && grid.blocked_at(c.0 as int, c.1 as int)
                        ==> #[trigger] res@.contains(c),
                forall|i: int, j: int| 0 <= i < j < res@.len() ==> row_major_before(#[trigger] res@[i], #[trigger] res@[j]),
            decreases grid.width - x,
        {
            if grid.blocked(x, y) {
                let ghost old_res = res@;
                res.push((x, y));
                proof {
                    assert forall|c: Cell|
                        grid.in_bounds(c.0 as int, c.1 as int) && (c.1 < y || (c.1 == y && c.0 < x + 1)) && grid.blocked_at(c.0 as int, c.1 as int)
                            implies #[trigger] res@.contains(c) by {
                        if c == (x, y) {
                            assert(res@[res@.len() - 1] == c);
                        } else {
                            assert(c.1 < y || (c.1 == y && c.0 < x));
                            assert(old_res.contains(c));
                            let k = choose|k: int| 0 <= k < old_res.len() && old_res[k] == c;
                            assert(res@[k] == c);
                        }
                    }
                    assert forall|i: int, j: int| 0 <= i < j < res@.len() implies row_major_before(#[trigger] res@[i], #[trigger] res@[j]) by {
                        if j == res@.len() - 1 {
                            assert(res@[i] == old_res[i]);
                        } else {
                            assert(res@[i] == old_res[i] && res@[j] == old_res[j]);
                        }
                    }
                }
            }
            x += 1;
        }
        y += 1;
    }
    res
}

} // verus!
