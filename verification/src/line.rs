use vstd::prelude::*;
use crate::grid::Cell;

verus! {

/// `1` when `a < b`, else `-1`: the direction Bresenham's walk takes from `a` to `b`.
pub open spec fn step_toward(a: int, b: int) -> int {
    if a < b {
        1
    } else {
        -1
    }
}

pub open spec fn iabs(a: int) -> int {
    if a >= 0 {
        a
    } else {
        -a
    }
}

/// Bresenham's walk from `(cx, cy)` with error term `err` towards `(x1, y1)`,
/// where `dx = |x1 - x0|`, `dy = -|y1 - y0|` and `sx`, `sy` are the step
/// directions: every visited point, the current one first, until `(x1, y1)`
/// (or until `fuel` steps have been taken).
pub open spec fn line_from(
    cx: int,
    cy: int,
    err: int,
    x1: int,
    y1: int,
    dx: int,
    dy: int,
    sx: int,
    sy: int,
    fuel: nat,
) -> Seq<(int, int)>
    decreases fuel,
{
    if (cx == x1 && cy == y1) || fuel == 0 {
        seq![(cx, cy)]
    } else {
        let e2 = 2 * err;
        let err1 = if e2 >= dy { err + dy } else { err };
        let nx = if e2 >= dy { cx + sx } else { cx };
        let err2 = if e2 <= dx { err1 + dx } else { err1 };
        let ny = if e2 <= dx { cy + sy } else { cy };
        seq![(cx, cy)] + line_from(nx, ny, err2, x1, y1, dx, dy, sx, sy, (fuel - 1) as nat)
    }
}

/// All points of Bresenham's line from `(x0, y0)` to `(x1, y1)`, in order.
pub open spec fn line_trace(x0: int, y0: int, x1: int, y1: int) -> Seq<(int, int)> {
    let dx = iabs(x1 - x0);
    let dy = -iabs(y1 - y0);
    line_from(x0, y0, dx + dy, x1, y1, dx, dy, step_toward(x0, x1), step_toward(y0, y1), (dx - dy) as nat)
}

/// The points of `s` with no negative coordinate, as cells.
pub open spec fn visible(s: Seq<(int, int)>) -> Seq<Cell>
    decreases s.len(),
{
    if s.len() == 0 {
        Seq::empty()
    } else {
        let rest = visible(s.drop_first());
        if s[0].0 >= 0 && s[0].1 >= 0 {
            seq![(s[0].0 as usize, s[0].1 as usize)] + rest
        } else {
            rest
        }
    }
}

/// The state of Bresenham's walk after `u` column steps and `v` row steps.
spec fn walk_state(x0: int, y0: int, x1: int, y1: int, u: int, v: int, cx: int, cy: int, err: int) -> bool {
    let a = iabs(x1 - x0);
    let b = iabs(y1 - y0);
    &&& 0 <= u <= a
    &&& 0 <= v <= b
    &&& cx == x0 + step_toward(x0, x1) * u
    &&& cy == y0 + step_toward(y0, y1) * v
    &&& err == a * (1 + v) - b * (1 + u)
    &&& -2 * b <= err <= 2 * a
}

proof fn lemma_walk_step(x0: int, y0: int, x1: int, y1: int, u: int, v: int, cx: int, cy: int, err: int)
    requires
        walk_state(x0, y0, x1, y1, u, v, cx, cy, err),
        !(cx == x1 && cy == y1),
    ensures
        ({
            let a = iabs(x1 - x0);
            let b = iabs(y1 - y0);
            let dx = a;
            let dy = -b;
            let e2 = 2 * err;
            let xs = e2 >= dy;
            let ys = e2 <= dx;
            let err1 = if xs { err + dy } else { err };
            let nx = if xs { cx + step_toward(x0, x1) } else { cx };
            let err2 = if ys { err1 + dx } else { err1 };
            let ny = if ys { cy + step_toward(y0, y1) } else { cy };
            let u2 = if xs { u + 1 } else { u };
            let v2 = if ys { v + 1 } else { v };
            &&& walk_state(x0, y0, x1, y1, u2, v2, nx, ny, err2)
            &&& u2 + v2 > u + v
            &&& (a - u) + (b - v) >= 1
        }),
{
    let a = iabs(x1 - x0);
    let b = iabs(y1 - y0);
    let sx = step_toward(x0, x1);
    let sy = step_toward(y0, y1);
    assert(sx * a == x1 - x0 || (a == 0 && x1 == x0));
    assert(sy * b == y1 - y0 || (b == 0 && y1 == y0));
    // Not at the end point: some coordinate still has steps left.
    if u == a && v == b {
        assert(sx * u == x1 - x0);
        assert(sy * v == y1 - y0);
        assert(false);
    }
    if u == a && v < b {
        assert(a * (1 + v) <= a * b) by (nonlinear_arith)
            requires
                a >= 0,
                1 + v <= b,
        ;
        assert(b * (1 + u) == b + a * b) by (nonlinear_arith)
            requires
                u == a,
        ;
    }
    if v == b && u < a {
        assert(b * (1 + u) <= a * b) by (nonlinear_arith)
            requires
                b >= 0,
                1 + u <= a,
        ;
        assert(a * (1 + v) == a + a * b) by (nonlinear_arith)
            requires
                v == b,
        ;
    }
    assert(b * (1 + (u + 1)) == b * (1 + u) + b) by (nonlinear_arith);
    assert(a * (1 + (v + 1)) == a * (1 + v) + a) by (nonlinear_arith);
    assert(sx * (u + 1) == sx * u + sx) by (nonlinear_arith);
    assert(sy * (v + 1) == sy * v + sy) by (nonlinear_arith);
}

/// The step from `p` to `q` moves each coordinate not at all or by one
/// towards the line's end: by `sx` in the column, by `sy` in the row.
pub open spec fn steps_toward(p: (int, int), q: (int, int), sx: int, sy: int) -> bool {
    &&& (q.0 == p.0 || q.0 == p.0 + sx)
    &&& (q.1 == p.1 || q.1 == p.1 + sy)
}

/// `p` and `q` are distinct and touch at a side or a corner.
pub open spec fn king_adjacent(p: (int, int), q: (int, int)) -> bool {
    &&& -1 <= q.0 - p.0 <= 1
    &&& -1 <= q.1 - p.1 <= 1
    &&& p != q
}

proof fn lemma_line_from_shape(
    x0: int,
    y0: int,
    x1: int,
    y1: int,
    u: int,
    v: int,
    cx: int,
    cy: int,
    err: int,
    fuel: nat,
)
    requires
        walk_state(x0, y0, x1, y1, u, v, cx, cy, err),
        fuel >= (iabs(x1 - x0) - u) + (iabs(y1 - y0) - v),
    ensures
        ({
            let s = line_from(cx, cy, err, x1, y1, iabs(x1 - x0), -iabs(y1 - y0), step_toward(x0, x1), step_toward(y0, y1), fuel);
            &&& s.len() >= 1
            &&& s[0] == (cx, cy)
            &&& s.last() == (x1, y1)
            &&& forall|i: int| 0 <= i < s.len() - 1 ==> king_adjacent(#[trigger] s[i], s[i + 1])
            &&& forall|i: int| 0 <= i < s.len() - 1 ==> steps_toward(#[trigger] s[i], s[i + 1], step_toward(x0, x1), step_toward(y0, y1))
        }),
    decreases fuel,
{
    let a = iabs(x1 - x0);
    let b = iabs(y1 - y0);
    let sx = step_toward(x0, x1);
    let sy = step_toward(y0, y1);
    let s = line_from(cx, cy, err, x1, y1, a, -b, sx, sy, fuel);
    if !(cx == x1 && cy == y1) {
        lemma_walk_step(x0, y0, x1, y1, u, v, cx, cy, err);
        let e2 = 2 * err;
        let xs = e2 >= -b;
        let ys = e2 <= a;
        let err1 = if xs { err - b } else { err };
        let nx = if xs { cx + sx } else { cx };
        let err2 = if ys { err1 + a } else { err1 };
        let ny = if ys { cy + sy } else { cy };
        let u2 = if xs { u + 1 } else { u };
        let v2 = if ys { v + 1 } else { v };
        lemma_line_from_shape(x0, y0, x1, y1, u2, v2, nx, ny, err2, (fuel - 1) as nat);
        let t = line_from(nx, ny, err2, x1, y1, a, -b, sx, sy, (fuel - 1) as nat);
        assert(s == seq![(cx, cy)] + t);
        assert forall|i: int| 0 <= i < s.len() - 1 implies king_adjacent(#[trigger] s[i], s[i + 1]) && steps_toward(s[i], s[i + 1], sx, sy) by {
            if i > 0 {
                assert(s[i] == t[i - 1]);
                assert(s[i + 1] == t[i]);
            } else {
                assert(s[1] == t[0]);
            }
        }
    }
}

/// Bresenham's line starts at `(x0, y0)`, ends at `(x1, y1)`, each point
/// touches the next at a side or a corner (an 8-connected line), and no step
/// moves away from the end in either coordinate.
pub proof fn lemma_line_trace_connects(x0: int, y0: int, x1: int, y1: int)
    ensures
        line_trace(x0, y0, x1, y1).len() >= 1,
        line_trace(x0, y0, x1, y1)[0] == (x0, y0),
        line_trace(x0, y0, x1, y1).last() == (x1, y1),
        forall|i: int|
            0 <= i < line_trace(x0, y0, x1, y1).len() - 1 ==> king_adjacent(
                #[trigger] line_trace(x0, y0, x1, y1)[i],
                line_trace(x0, y0, x1, y1)[i + 1],
            ),
        forall|i: int|
            0 <= i < line_trace(x0, y0, x1, y1).len() - 1 ==> steps_toward(
                #[trigger] line_trace(x0, y0, x1, y1)[i],
                line_trace(x0, y0, x1, y1)[i + 1],
                step_toward(x0, x1),
                step_toward(y0, y1),
            ),
{
    let a = iabs(x1 - x0);
    let b = iabs(y1 - y0);
    assert(step_toward(x0, x1) * 0 == 0 && step_toward(y0, y1) * 0 == 0) by (nonlinear_arith);
    assert(a * (1 + 0) - b * (1 + 0) == a - b) by (nonlinear_arith);
    lemma_line_from_shape(x0, y0, x1, y1, 0, 0, x0, y0, a - b, (a + b) as nat);
}

/// Bresenham's line algorithm: all grid cells on the line from `(x0, y0)`
/// to `(x1, y1)`, in order, leaving out points with a negative coordinate.
pub fn bresenham(x0: i32, y0: i32, x1: i32, y1: i32) -> (cells: Vec<Cell>)
    ensures
        cells@ == visible(line_trace(x0 as int, y0 as int, x1 as int, y1 as int)),
{
    let mut cells: Vec<Cell> = Vec::new();
    let dx: i64 = if x1 >= x0 { x1 as i64 - x0 as i64 } else { x0 as i64 - x1 as i64 };
    let dy: i64 = -(if y1 >= y0 { y1 as i64 - y0 as i64 } else { y0 as i64 - y1 as i64 });
    let sx: i64 = if x0 < x1 { 1 } else { -1 };
    let sy: i64 = if y0 < y1 { 1 } else { -1 };
    let mut err: i64 = dx + dy;
    let mut cx: i64 = x0 as i64;
    let mut cy: i64 = y0 as i64;
    let ghost mut u: int = 0;
    let ghost mut v: int = 0;
    let ghost mut fuel: nat = (dx - dy) as nat;
    let ghost full = line_trace(x0 as int, y0 as int, x1 as int, y1 as int);
    assert(sx * 0 == 0 && sy * 0 == 0) by (nonlinear_arith);
    assert(dx * (1 + 0) - (-dy) * (1 + 0) == dx + dy) by (nonlinear_arith);
    loop
        invariant_except_break
            visible(full) == cells@ + visible(
                line_from(cx as int, cy as int, err as int, x1 as int, y1 as int, dx as int, dy as int, sx as int, sy as int, fuel),
            ),
        invariant
            dx == iabs(x1 - x0),
            dy == -iabs(y1 - y0),
            sx == step_toward(x0 as int, x1 as int),
            sy == step_toward(y0 as int, y1 as int),
            walk_state(x0 as int, y0 as int, x1 as int, y1 as int, u, v, cx as int, cy as int, err as int),
            fuel >= (dx - u) + (-dy - v),
        ensures
            visible(full) == cells@,
        decreases (dx - u) + (-dy - v),
    {
        proof {
            if sx == 1 {
                assert(sx * u == u) by (nonlinear_arith) requires sx == 1;
            } else {
                assert(sx * u == -u) by (nonlinear_arith) requires sx == -1;
            }
            if sy == 1 {
                assert(sy * v == v) by (nonlinear_arith) requires sy == 1;
            } else {
                assert(sy * v == -v) by (nonlinear_arith) requires sy == -1;
            }
        }
        let ghost rest = line_from(cx as int, cy as int, err as int, x1 as int, y1 as int, dx as int, dy as int, sx as int, sy as int, fuel);
        let ghost before = cells@;
        proof {
            assert(rest[0] == (cx as int, cy as int));
            assert(visible(rest) == (if cx >= 0 && cy >= 0 {
                seq![(cx as usize, cy as usize)]
            } else {
                Seq::<Cell>::empty()
            }) + visible(rest.drop_first()));
        }
        if cx >= 0 && cy >= 0 {
            cells.push((cx as usize, cy as usize));
        }
        if cx == x1 as i64 && cy == y1 as i64 {
            proof {
                assert(rest == seq![(cx as int, cy as int)]);
                assert(rest.drop_first() =~= Seq::<(int, int)>::empty());
                assert(visible(rest.drop_first()) =~= Seq::<Cell>::empty());
                assert(cells@ =~= before + visible(rest));
            }
            break;
        }
        proof {
            lemma_walk_step(x0 as int, y0 as int, x1 as int, y1 as int, u, v, cx as int, cy as int, err as int);
        }
        let e2: i64 = 2 * err;
        let xs = e2 >= dy;
        let ys = e2 <= dx;
        if xs {
            err += dy;
            cx += sx;
            proof { u = u + 1; }
        }
        if ys {
            err += dx;
            cy += sy;
            proof { v = v + 1; }
        }
        proof {
            let next = line_from(cx as int, cy as int, err as int, x1 as int, y1 as int, dx as int, dy as int, sx as int, sy as int, (fuel - 1) as nat);
            assert(rest.drop_first() =~= next);
            assert(before + visible(rest) =~= cells@ + visible(next));
            fuel = (fuel - 1) as nat;
        }
    }
    cells
}

} // verus!
