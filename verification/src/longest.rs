use vstd::prelude::*;
use crate::explore::{find_nearest_unvisited, flag, frontier_cell, frontier_choice, search_answer, walk_through_visited};
use crate::grid::{
    at, count_rows, lemma_count_rows_all_false, lemma_count_rows_bound, lemma_count_rows_set, new_rows, set_at,
    shaped, Cell, Grid,
};
use crate::moves::{
    dir_dx, dir_dy, dist2, is_diagonal, legal_step, legal_walk, lemma_offset_direction, open_step, open_walk,
    first_furthest, pick_furthest, small_cell, toward,
};
use crate::kinds::Layer;
use crate::route::{astar_route, find_path, walk_between};

verus! {

/// A tagged path segment: greedy (Cut) or link (Link).
pub struct PathSegment {
    pub points: Vec<Cell>,
    pub is_link: bool,
}

impl PathSegment {
    /// The drawing layer of the segment: `Link` for links, `Cut` for greedy segments.
    pub fn layer(&self) -> (res: Layer)
        ensures
            res == if self.is_link { Layer::Link } else { Layer::Cut },
    {
        if self.is_link {
            Layer::Link
        } else {
            Layer::Cut
        }
    }
}

/// The segments as `(points, is_link)` pairs.
pub open spec fn segs_view(v: Seq<PathSegment>) -> Seq<(Seq<Cell>, bool)> {
    v.map_values(|s: PathSegment| (s.points@, s.is_link))
}

/// Cuts `path` at visited cells: the runs of two or more unvisited cells
/// finished so far, and the run still open at the end of `path`.
pub open spec fn link_split(path: Seq<Cell>, visited: Seq<Vec<bool>>) -> (Seq<Seq<Cell>>, Seq<Cell>)
    decreases path.len(),
{
    if path.len() == 0 {
        (Seq::empty(), Seq::empty())
    } else {
        let (done, cur) = link_split(path.drop_last(), visited);
        let c = path.last();
        if flag(visited, c) {
            (if cur.len() >= 2 { done.push(cur) } else { done }, Seq::empty())
        } else {
            (done, cur.push(c))
        }
    }
}

/// The maximal runs of unvisited cells of `path` that have two or more cells, in order.
pub open spec fn link_runs(path: Seq<Cell>, visited: Seq<Vec<bool>>) -> Seq<Seq<Cell>> {
    let (done, cur) = link_split(path, visited);
    if cur.len() >= 2 {
        done.push(cur)
    } else {
        done
    }
}

/// Every cell of `path` indexes `visited`.
pub open spec fn cells_index(path: Seq<Cell>, visited: Seq<Vec<bool>>) -> bool {
    forall|i: int|
        0 <= i < path.len() ==> (#[trigger] path[i]).1 < visited.len() && path[i].0 < visited[path[i].1 as int]@.len()
}

/// Add link path segments, stripping any cells already visited by the greedy
/// walk: each maximal run of two or more unvisited cells of `link_path`
/// becomes a link segment, in order. This prevents visual overlap between link
/// and greedy segments.
pub fn add_link_segments(link_path: &[Cell], visited: &[Vec<bool>], segments: &mut Vec<PathSegment>)
    requires
        cells_index(link_path@, visited@),
    ensures
        segs_view(final(segments)@) == segs_view(old(segments)@) + link_runs(link_path@, visited@).map_values(
            |r: Seq<Cell>| (r, true),
        ),
{
    let mut current_run: Vec<Cell> = Vec::new();
    let mut i: usize = 0;
    let ghost base = segs_view(segments@);
    while i < link_path.len()
        invariant
            i <= link_path@.len(),
            cells_index(link_path@, visited@),
            segs_view(segments@) == base + link_split(link_path@.subrange(0, i as int), visited@).0.map_values(
                |r: Seq<Cell>| (r, true),
            ),
            current_run@ == link_split(link_path@.subrange(0, i as int), visited@).1,
        decreases link_path@.len() - i,
    {
        let c = link_path[i];
        let ghost prefix = link_path@.subrange(0, i as int);
        let ghost next = link_path@.subrange(0, i + 1);
        let ghost done = link_split(prefix, visited@).0;
        let ghost cur = link_split(prefix, visited@).1;
        assert(next.drop_last() =~= prefix);
        assert(next.last() == c);
        assert(link_split(next, visited@) == (if flag(visited@, c) {
            (if cur.len() >= 2 { done.push(cur) } else { done }, Seq::<Cell>::empty())
        } else {
            (done, cur.push(c))
        }));
        if visited[c.1][c.0] {
            if current_run.len() >= 2 {
                let mut run_vec: Vec<Cell> = Vec::new();
                std::mem::swap(&mut run_vec, &mut current_run);
                let ghost segs0 = segments@;
                segments.push(PathSegment { points: run_vec, is_link: true });
                proof {
                    lemma_segs_view_push(segs0, PathSegment { points: run_vec, is_link: true });
                    lemma_runs_view_push(done, cur);
                }
            } else {
                current_run = Vec::new();
            }
        } else {
            current_run.push(c);
        }
        i += 1;
    }
    assert(link_path@.subrange(0, link_path@.len() as int) =~= link_path@);
    if current_run.len() >= 2 {
        let ghost done = link_split(link_path@, visited@).0;
        let ghost run = current_run@;
        let ghost segs0 = segments@;
        let seg = PathSegment { points: current_run, is_link: true };
        segments.push(seg);
        proof {
            lemma_segs_view_push(segs0, seg);
            lemma_runs_view_push(done, run);
        }
    }
}

/// `r` is a contiguous piece of `path`.
pub open spec fn piece_of(r: Seq<Cell>, path: Seq<Cell>) -> bool {
    exists|s: int| 0 <= s && s + r.len() <= path.len() && r == #[trigger] path.subrange(s, s + r.len())
}

/// No cell of `r` is visited.
pub open spec fn all_unvisited(r: Seq<Cell>, visited: Seq<Vec<bool>>) -> bool {
    forall|i: int| 0 <= i < r.len() ==> !flag(visited, #[trigger] r[i])
}

/// What `link_split` computes: every finished run has two or more cells, is
/// a contiguous piece of `path` and holds only unvisited cells; the open run
/// is the unvisited tail of `path`.
pub proof fn lemma_link_split_pieces(path: Seq<Cell>, visited: Seq<Vec<bool>>)
    ensures
        ({
            let (done, cur) = link_split(path, visited);
            &&& forall|j: int|
                0 <= j < done.len() ==> (#[trigger] done[j]).len() >= 2 && piece_of(done[j], path) && all_unvisited(
                    done[j],
                    visited,
                )
            &&& cur.len() <= path.len()
            &&& cur == path.subrange(path.len() - cur.len(), path.len() as int)
            &&& all_unvisited(cur, visited)
        }),
    decreases path.len(),
{
    if path.len() > 0 {
        let prev = path.drop_last();
        lemma_link_split_pieces(prev, visited);
        let (done0, cur0) = link_split(prev, visited);
        let (done, cur) = link_split(path, visited);
        assert forall|j: int| 0 <= j < done0.len() implies piece_of(#[trigger] done0[j], path) by {
            let r = done0[j];
            let s = choose|s: int| 0 <= s && s + r.len() <= prev.len() && r == #[trigger] prev.subrange(s, s + r.len());
            assert(prev.subrange(s, s + r.len()) =~= path.subrange(s, s + r.len()));
        }
        let c = path.last();
        if flag(visited, c) {
            if cur0.len() >= 2 {
                let s = prev.len() - cur0.len();
                assert(prev.subrange(s, prev.len() as int) =~= path.subrange(s, s + cur0.len()));
                assert(done[done.len() - 1] == cur0);
                assert forall|j: int| 0 <= j < done.len() implies (#[trigger] done[j]).len() >= 2 && piece_of(done[j], path) && all_unvisited(done[j], visited) by {
                    if j < done0.len() {
                        assert(done[j] == done0[j]);
                    }
                }
            }
            assert(path.subrange(path.len() as int, path.len() as int) =~= cur);
        } else {
            assert(cur =~= path.subrange(path.len() - cur.len(), path.len() as int));
            assert forall|i: int| 0 <= i < cur.len() implies !flag(visited, #[trigger] cur[i]) by {
                if i < cur0.len() {
                    assert(cur[i] == cur0[i]);
                }
            }
        }
    }
}

/// `r` is the piece of `path` that starts at position `s`.
pub open spec fn run_at(path: Seq<Cell>, r: Seq<Cell>, s: int) -> bool {
    &&& 0 <= s
    &&& s + r.len() <= path.len()
    &&& r == path.subrange(s, s + r.len())
}

/// `link_split`'s runs are maximal: two consecutive unvisited cells of
/// `path` lie, at their own positions, in one finished run or both in the
/// open run; an open unvisited last cell is in the open run.
proof fn lemma_split_maximal(path: Seq<Cell>, visited: Seq<Vec<bool>>)
    ensures
        ({
            let (done, cur) = link_split(path, visited);
            &&& cur.len() <= path.len()
            &&& (path.len() > 0 && !flag(visited, path.last()) ==> cur.len() >= 1)
            &&& forall|i: int|
                0 <= i && i + 1 < path.len() && !flag(visited, #[trigger] path[i]) && !flag(visited, path[i + 1]) ==> path.len()
                    - cur.len() <= i || exists|j: int, s: int|
                    0 <= j < done.len() && s <= i && i + 1 < s + done[j].len() && #[trigger] run_at(path, done[j], s)
        }),
    decreases path.len(),
{
    lemma_link_split_pieces(path, visited);
    if path.len() > 0 {
        let prev = path.drop_last();
        lemma_split_maximal(prev, visited);
        lemma_link_split_pieces(prev, visited);
        let (done0, cur0) = link_split(prev, visited);
        let (done, cur) = link_split(path, visited);
        let c = path.last();
        assert forall|i: int|
            0 <= i && i + 1 < path.len() && !flag(visited, #[trigger] path[i]) && !flag(visited, path[i + 1]) implies path.len()
                - cur.len() <= i || exists|j: int, s: int|
                0 <= j < done.len() && s <= i && i + 1 < s + done[j].len() && #[trigger] run_at(path, done[j], s) by {
            if i + 1 < prev.len() {
                assert(prev[i] == path[i] && prev[i + 1] == path[i + 1]);
                if prev.len() - cur0.len() <= i {
                    // Both in the open run of `prev`.
                    if flag(visited, c) {
                        let s = prev.len() - cur0.len();
                        assert(cur0.len() >= 2);
                        assert(done[done.len() - 1] == cur0);
                        assert(prev.subrange(s, prev.len() as int) =~= path.subrange(s, s + cur0.len()));
                        assert(run_at(path, done[done.len() - 1], s));
                    }
                } else {
                    let (j, s) = choose|j: int, s: int|
                        0 <= j < done0.len() && s <= i && i + 1 < s + done0[j].len() && #[trigger] run_at(prev, done0[j], s);
                    assert(prev.subrange(s, s + done0[j].len()) =~= path.subrange(s, s + done0[j].len()));
                    if flag(visited, c) && cur0.len() >= 2 {
                        assert(done[j] == done0[j]);
                    } else if flag(visited, c) {
                        assert(done == done0);
                    } else {
                        assert(done == done0);
                    }
                    assert(run_at(path, done[j], s));
                }
            } else {
                assert(i + 1 == path.len() - 1);
                assert(!flag(visited, c));
                assert(prev.len() > 0 && prev.last() == path[i]);
            }
        }
    }
}

/// Link runs are maximal: any two consecutive cells of `path` that are both
/// unvisited lie, next to each other and at their own positions, in one run;
/// a run is cut only at a visited cell or at an end of the path.
pub proof fn lemma_link_runs_maximal(path: Seq<Cell>, visited: Seq<Vec<bool>>)
    ensures
        forall|i: int|
            0 <= i && i + 1 < path.len() && !flag(visited, #[trigger] path[i]) && !flag(visited, path[i + 1]) ==> exists|j: int, s: int|
                0 <= j < link_runs(path, visited).len() && s <= i && i + 1 < s + link_runs(path, visited)[j].len() && #[trigger] run_at(
                    path,
                    link_runs(path, visited)[j],
                    s,
                ),
{
    lemma_split_maximal(path, visited);
    lemma_link_split_pieces(path, visited);
    let (done, cur) = link_split(path, visited);
    let runs = link_runs(path, visited);
    assert forall|i: int|
        0 <= i && i + 1 < path.len() && !flag(visited, #[trigger] path[i]) && !flag(visited, path[i + 1]) implies exists|j: int, s: int|
            0 <= j < runs.len() && s <= i && i + 1 < s + runs[j].len() && #[trigger] run_at(path, runs[j], s) by {
        if path.len() - cur.len() <= i {
            let s = path.len() - cur.len();
            assert(cur.len() >= 2);
            assert(runs[runs.len() - 1] == cur);
            assert(run_at(path, runs[runs.len() - 1], s));
        } else {
            let (j, s) = choose|j: int, s: int|
                0 <= j < done.len() && s <= i && i + 1 < s + done[j].len() && #[trigger] run_at(path, done[j], s);
            assert(runs[j] == done[j]);
            assert(run_at(path, runs[j], s));
        }
    }
}

/// A path whose cells are all visited leaves no run of unvisited cells.
proof fn lemma_split_all_visited(path: Seq<Cell>, visited: Seq<Vec<bool>>)
    requires
        forall|i: int| 0 <= i < path.len() ==> flag(visited, #[trigger] path[i]),
    ensures
        link_split(path, visited).0.len() == 0,
        link_split(path, visited).1.len() == 0,
    decreases path.len(),
{
    if path.len() > 0 {
        let prev = path.drop_last();
        assert forall|i: int| 0 <= i < prev.len() implies flag(visited, #[trigger] prev[i]) by {
            assert(prev[i] == path[i]);
        }
        lemma_split_all_visited(prev, visited);
        assert(flag(visited, path[path.len() - 1]));
    }
}

/// A link through visited cells from a visited cell to one unvisited cell
/// leaves no link segment: only its last cell is unvisited.
proof fn lemma_visited_walk_no_runs(path: Seq<Cell>, visited: Seq<Vec<bool>>)
    requires
        path.len() >= 1,
        forall|i: int| 0 <= i < path.len() - 1 ==> flag(visited, #[trigger] path[i]),
    ensures
        link_runs(path, visited).len() == 0,
{
    let prev = path.drop_last();
    assert forall|i: int| 0 <= i < prev.len() implies flag(visited, #[trigger] prev[i]) by {
        assert(prev[i] == path[i]);
    }
    lemma_split_all_visited(prev, visited);
}

/// Each link run of a walk of open steps is itself such a walk, has two or
/// more cells, and holds no visited cell.
pub proof fn lemma_link_runs_walk(g: Grid, path: Seq<Cell>, visited: Seq<Vec<bool>>, cardinal_only: bool)
    requires
        open_walk(g, path, cardinal_only),
    ensures
        forall|j: int|
            0 <= j < link_runs(path, visited).len() ==> {
                &&& (#[trigger] link_runs(path, visited)[j]).len() >= 2
                &&& open_walk(g, link_runs(path, visited)[j], cardinal_only)
                &&& (legal_walk(g, path, cardinal_only) ==> legal_walk(g, link_runs(path, visited)[j], cardinal_only))
                &&& all_unvisited(link_runs(path, visited)[j], visited)
            },
{
    lemma_link_split_pieces(path, visited);
    let (done, cur) = link_split(path, visited);
    let runs = link_runs(path, visited);
    assert forall|j: int| 0 <= j < runs.len() implies {
        &&& (#[trigger] runs[j]).len() >= 2
        &&& open_walk(g, runs[j], cardinal_only)
        &&& (legal_walk(g, path, cardinal_only) ==> legal_walk(g, runs[j], cardinal_only))
        &&& all_unvisited(runs[j], visited)
    } by {
        let r = runs[j];
        if j < done.len() {
            assert(r == done[j]);
        } else {
            assert(r == cur);
            assert(path.subrange(path.len() - cur.len(), path.len() - cur.len() + cur.len()) == cur);
        }
        assert(piece_of(r, path));
        let s = choose|s: int| 0 <= s && s + r.len() <= path.len() && r == #[trigger] path.subrange(s, s + r.len());
        assert forall|i: int| 0 <= i < r.len() - 1 implies open_step(g, #[trigger] r[i], r[i + 1], cardinal_only) by {
            assert(r[i] == path[s + i]);
            assert(r[i + 1] == path[s + i + 1]);
        }
        if legal_walk(g, path, cardinal_only) {
            assert forall|i: int| 0 <= i < r.len() - 1 implies legal_step(g, #[trigger] r[i], r[i + 1], cardinal_only) by {
                assert(r[i] == path[s + i]);
                assert(r[i + 1] == path[s + i + 1]);
            }
        }
    }
}

/// The lower-left corner of the 2x2 block that a diagonal step crosses.
pub open spec fn diag_block(a: Cell, b: Cell) -> (usize, usize) {
    (if a.0 <= b.0 { a.0 } else { b.0 }, if a.1 <= b.1 { a.1 } else { b.1 })
}

/// Whether a step runs along the `\` diagonal of its block (both coordinates
/// grow together, or shrink together).
pub open spec fn backslash(a: Cell, b: Cell) -> bool {
    (b.0 > a.0) == (b.1 > a.1)
}

/// Whether a diagonal of kind `t` (`true` for `\`) in block `blk` is recorded as used.
pub open spec fn diag_used(back: Seq<Vec<bool>>, fwd: Seq<Vec<bool>>, blk: (usize, usize), t: bool) -> bool {
    if t {
        flag(back, blk)
    } else {
        flag(fwd, blk)
    }
}

/// A step the greedy walk may take from `pos` to `n`: a legal step to an
/// unvisited cell that does not cross a diagonal already walked.
pub open spec fn greedy_ok(
    g: Grid,
    visited: Seq<Vec<bool>>,
    back: Seq<Vec<bool>>,
    fwd: Seq<Vec<bool>>,
    pos: Cell,
    n: Cell,
    cardinal_only: bool,
) -> bool {
    &&& legal_step(g, pos, n, cardinal_only)
    &&& !flag(visited, n)
    &&& is_diagonal(pos, n) ==> !diag_used(back, fwd, diag_block(pos, n), !backslash(pos, n))
}

/// The cells the greedy walk may step to from `pos` in directions `0..k`, in direction order.
pub open spec fn greedy_upto(
    g: Grid,
    visited: Seq<Vec<bool>>,
    back: Seq<Vec<bool>>,
    fwd: Seq<Vec<bool>>,
    pos: Cell,
    cardinal_only: bool,
    k: int,
) -> Seq<Cell>
    decreases k,
{
    if k <= 0 {
        Seq::empty()
    } else {
        let prev = greedy_upto(g, visited, back, fwd, pos, cardinal_only, k - 1);
        match toward(pos, k - 1) {
            Some(n) => if greedy_ok(g, visited, back, fwd, pos, n, cardinal_only) {
                prev.push(n)
            } else {
                prev
            },
            None => prev,
        }
    }
}

/// The place of the step from `a` to its neighbour `b` in direction order
/// (column offset outermost, row offset innermost, each from -1 to 1).
pub open spec fn dir_rank(a: Cell, b: Cell) -> int {
    (b.0 - a.0 + 1) * 3 + (b.1 - a.1 + 1)
}

/// Direction `k` from `c` reaches a cell whose direction rank is `k`, and a
/// neighbour of `c` is reached by the direction of its rank.
proof fn lemma_toward_rank(c: Cell, k: int, n: Cell)
    requires
        small_cell(c),
    ensures
        0 <= k < 9 && toward(c, k) == Some(n) ==> dir_rank(c, n) == k,
        -1 <= n.0 - c.0 <= 1 && -1 <= n.1 - c.1 <= 1 ==> 0 <= dir_rank(c, n) < 9 && toward(c, dir_rank(c, n)) == Some(n),
{
    if -1 <= n.0 - c.0 <= 1 && -1 <= n.1 - c.1 <= 1 {
        lemma_offset_direction(n.0 - c.0, n.1 - c.1);
    }
    if 0 <= k < 9 && toward(c, k) == Some(n) {
        assert(k == (k / 3) * 3 + k % 3);
        assert(n.0 == c.0 + dir_dx(k) && n.1 == c.1 + dir_dy(k));
    }
}

proof fn lemma_greedy_upto_order(
    g: Grid,
    visited: Seq<Vec<bool>>,
    back: Seq<Vec<bool>>,
    fwd: Seq<Vec<bool>>,
    pos: Cell,
    cardinal_only: bool,
    k: int,
)
    requires
        0 <= k <= 9,
        small_cell(pos),
    ensures
        forall|n: Cell|
            #[trigger] greedy_upto(g, visited, back, fwd, pos, cardinal_only, k).contains(n) <==> (greedy_ok(
                g,
                visited,
                back,
                fwd,
                pos,
                n,
                cardinal_only,
            ) && dir_rank(pos, n) < k),
        forall|i: int|
            0 <= i < greedy_upto(g, visited, back, fwd, pos, cardinal_only, k).len() ==> dir_rank(
                pos,
                #[trigger] greedy_upto(g, visited, back, fwd, pos, cardinal_only, k)[i],
            ) < k,
        forall|i: int, j: int|
            0 <= i < j < greedy_upto(g, visited, back, fwd, pos, cardinal_only, k).len() ==> dir_rank(
                pos,
                #[trigger] greedy_upto(g, visited, back, fwd, pos, cardinal_only, k)[i],
            ) < dir_rank(pos, #[trigger] greedy_upto(g, visited, back, fwd, pos, cardinal_only, k)[j]),
    decreases k,
{
    let cur = greedy_upto(g, visited, back, fwd, pos, cardinal_only, k);
    if k == 0 {
        assert forall|n: Cell| #[trigger] cur.contains(n) <==> (greedy_ok(g, visited, back, fwd, pos, n, cardinal_only) && dir_rank(pos, n) < k) by {
            if greedy_ok(g, visited, back, fwd, pos, n, cardinal_only) {
                lemma_toward_rank(pos, 0, n);
            }
        }
    } else {
        lemma_greedy_upto_order(g, visited, back, fwd, pos, cardinal_only, k - 1);
        let prev = greedy_upto(g, visited, back, fwd, pos, cardinal_only, k - 1);
        match toward(pos, k - 1) {
            Some(m) => {
                lemma_toward_rank(pos, k - 1, m);
                if greedy_ok(g, visited, back, fwd, pos, m, cardinal_only) {
                    assert(cur == prev.push(m));
                    assert forall|n: Cell| #[trigger] cur.contains(n) <==> (greedy_ok(g, visited, back, fwd, pos, n, cardinal_only) && dir_rank(pos, n) < k) by {
                        if cur.contains(n) && n != m {
                            let i = choose|i: int| 0 <= i < cur.len() && cur[i] == n;
                            assert(prev[i] == n);
                            assert(prev.contains(n));
                        }
                        if greedy_ok(g, visited, back, fwd, pos, n, cardinal_only) && dir_rank(pos, n) < k {
                            lemma_toward_rank(pos, k - 1, n);
                            if dir_rank(pos, n) == k - 1 {
                                assert(n == m);
                                assert(cur[cur.len() - 1] == m);
                            } else {
                                assert(prev.contains(n));
                                let i = choose|i: int| 0 <= i < prev.len() && prev[i] == n;
                                assert(cur[i] == n);
                            }
                        }
                    }
                    assert forall|i: int| 0 <= i < cur.len() implies dir_rank(pos, #[trigger] cur[i]) < k by {
                        if i < prev.len() {
                            assert(cur[i] == prev[i]);
                        }
                    }
                    assert forall|i: int, j: int| 0 <= i < j < cur.len() implies dir_rank(pos, #[trigger] cur[i]) < dir_rank(pos, #[trigger] cur[j]) by {
                        assert(cur[i] == prev[i]);
                        if j < prev.len() {
                            assert(cur[j] == prev[j]);
                        }
                    }
                } else {
                    assert(cur == prev);
                    assert forall|n: Cell| #[trigger] cur.contains(n) <==> (greedy_ok(g, visited, back, fwd, pos, n, cardinal_only) && dir_rank(pos, n) < k) by {
                        if greedy_ok(g, visited, back, fwd, pos, n, cardinal_only) && dir_rank(pos, n) == k - 1 {
                            lemma_toward_rank(pos, k - 1, n);
                            assert(n == m);
                        }
                    }
                }
            },
            None => {
                assert(cur == prev);
                assert forall|n: Cell| #[trigger] cur.contains(n) <==> (greedy_ok(g, visited, back, fwd, pos, n, cardinal_only) && dir_rank(pos, n) < k) by {
                    if greedy_ok(g, visited, back, fwd, pos, n, cardinal_only) && dir_rank(pos, n) == k - 1 {
                        lemma_toward_rank(pos, k - 1, n);
                    }
                }
            },
        }
    }
}

/// The greedy walk's candidates from `pos` are exactly the legal steps (open
/// cell, no blocked corner cut, diagonals whenever `cardinal_only` is off) to
/// unvisited cells whose diagonal, if any, does not cross a diagonal already
/// walked in its 2x2 block; nothing else is filtered out, and they come in
/// direction order. So each greedy step goes to the cell furthest from the
/// goal among all such cells, diagonal ones included.
pub proof fn lemma_greedy_candidates_exact(
    g: Grid,
    visited: Seq<Vec<bool>>,
    back: Seq<Vec<bool>>,
    fwd: Seq<Vec<bool>>,
    pos: Cell,
    cardinal_only: bool,
)
    requires
        small_cell(pos),
    ensures
        forall|n: Cell|
            #[trigger] greedy_upto(g, visited, back, fwd, pos, cardinal_only, 9).contains(n) <==> {
                &&& legal_step(g, pos, n, cardinal_only)
                &&& !flag(visited, n)
                &&& is_diagonal(pos, n) ==> !diag_used(back, fwd, diag_block(pos, n), !backslash(pos, n))
            },
        forall|n: Cell|
            !cardinal_only && -1 <= n.0 - pos.0 <= 1 && -1 <= n.1 - pos.1 <= 1 && n.0 != pos.0 && n.1 != pos.1 && g.passable(
                n.0 as int,
                n.1 as int,
            ) && !g.blocked_at(pos.0 as int, n.1 as int) && !g.blocked_at(n.0 as int, pos.1 as int) && !flag(visited, n)
                && !diag_used(back, fwd, diag_block(pos, n), !backslash(pos, n)) ==> #[trigger] greedy_upto(
                g,
                visited,
                back,
                fwd,
                pos,
                cardinal_only,
                9,
            ).contains(n),
        forall|i: int, j: int|
            0 <= i < j < greedy_upto(g, visited, back, fwd, pos, cardinal_only, 9).len() ==> dir_rank(
                pos,
                #[trigger] greedy_upto(g, visited, back, fwd, pos, cardinal_only, 9)[i],
            ) < dir_rank(pos, #[trigger] greedy_upto(g, visited, back, fwd, pos, cardinal_only, 9)[j]),
{
    lemma_greedy_upto_order(g, visited, back, fwd, pos, cardinal_only, 9);
    assert forall|n: Cell|
        #[trigger] greedy_upto(g, visited, back, fwd, pos, cardinal_only, 9).contains(n) <==> {
            &&& legal_step(g, pos, n, cardinal_only)
            &&& !flag(visited, n)
            &&& is_diagonal(pos, n) ==> !diag_used(back, fwd, diag_block(pos, n), !backslash(pos, n))
        } by {
        if legal_step(g, pos, n, cardinal_only) {
            lemma_toward_rank(pos, 0, n);
        }
    }
}

/// The unvisited, unblocked cells next to `pos` that the greedy walk may step
/// to, in direction order.
fn greedy_candidates(
    grid: &Grid,
    visited: &Vec<Vec<bool>>,
    back: &Vec<Vec<bool>>,
    fwd: &Vec<Vec<bool>>,
    pos: Cell,
    cardinal_only: bool,
) -> (res: Vec<Cell>)
    requires
        grid.wf(),
        grid.in_bounds(pos.0 as int, pos.1 as int),
        shaped(visited@, grid.width as int, grid.height as int),
        shaped(back@, grid.width as int, grid.height as int),
        shaped(fwd@, grid.width as int, grid.height as int),
    ensures
        res@ == greedy_upto(*grid, visited@, back@, fwd@, pos, cardinal_only, 9),
        forall|i: int| 0 <= i < res@.len() ==> greedy_ok(*grid, visited@, back@, fwd@, pos, #[trigger] res@[i], cardinal_only),
{
    let mut res: Vec<Cell> = Vec::new();
    let x = pos.0;
    let y = pos.1;
    let mut k: usize = 0;
    while k < 9
        invariant
            k <= 9,
            grid.wf(),
            pos == (x, y),
            grid.in_bounds(x as int, y as int),
            shaped(visited@, grid.width as int, grid.height as int),
            shaped(back@, grid.width as int, grid.height as int),
            shaped(fwd@, grid.width as int, grid.height as int),
            res@ == greedy_upto(*grid, visited@, back@, fwd@, pos, cardinal_only, k as int),
            forall|i: int| 0 <= i < res@.len() ==> greedy_ok(*grid, visited@, back@, fwd@, pos, #[trigger] res@[i], cardinal_only),
        decreases 9 - k,
    {
        let dx: i64 = (k / 3) as i64 - 1;
        let dy: i64 = (k % 3) as i64 - 1;
        if !(dx == 0 && dy == 0) && !(cardinal_only && dx != 0 && dy != 0) {
            let nx: i64 = x as i64 + dx;
            let ny: i64 = y as i64 + dy;
            if nx >= 0 && ny >= 0 && (nx as usize) < grid.width && (ny as usize) < grid.height {
                let n: Cell = (nx as usize, ny as usize);
                assert(toward(pos, k as int) == Some(n));
                if !grid.blocked(n.0, n.1) && !visited[n.1][n.0] {
                    let mut ok = true;
                    if dx != 0 && dy != 0 {
                        if grid.blocked(x, n.1) || grid.blocked(n.0, y) {
                            ok = false;
                        } else {
                            let bx = if x <= n.0 { x } else { n.0 };
                            let by = if y <= n.1 { y } else { n.1 };
                            let is_backslash = (dx > 0) == (dy > 0);
                            // The crossing diagonal is the other kind in the same block.
                            let crossing_used = if !is_backslash { back[by][bx] } else { fwd[by][bx] };
                            if crossing_used {
                                ok = false;
                            }
                        }
                    }
                    if ok {
                        res.push(n);
                    }
                }
            }
        }
        k += 1;
    }
    res
}

/// The cells of the greedy segments, in order.
pub open spec fn greedy_trail(sv: Seq<(Seq<Cell>, bool)>) -> Seq<Cell>
    decreases sv.len(),
{
    if sv.len() == 0 {
        Seq::empty()
    } else {
        greedy_trail(sv.drop_last()) + if !sv.last().1 { sv.last().0 } else { Seq::empty() }
    }
}

/// The consecutive pairs of `s`.
pub open spec fn steps(s: Seq<Cell>) -> Seq<(Cell, Cell)> {
    Seq::new(if s.len() > 0 { (s.len() - 1) as nat } else { 0 }, |i: int| (s[i], s[i + 1]))
}

/// The steps of the greedy segments, in order.
pub open spec fn greedy_moves(sv: Seq<(Seq<Cell>, bool)>) -> Seq<(Cell, Cell)>
    decreases sv.len(),
{
    if sv.len() == 0 {
        Seq::empty()
    } else {
        greedy_moves(sv.drop_last()) + if !sv.last().1 { steps(sv.last().0) } else { Seq::empty() }
    }
}

/// No two diagonal moves cross: two diagonals in the same 2x2 block are of the same kind.
pub open spec fn no_crossing(moves: Seq<(Cell, Cell)>) -> bool {
    forall|i: int, j: int|
        0 <= i < moves.len() && 0 <= j < moves.len() && is_diagonal((#[trigger] moves[i]).0, moves[i].1)
            && is_diagonal((#[trigger] moves[j]).0, moves[j].1) && diag_block(moves[i].0, moves[i].1)
            == diag_block(moves[j].0, moves[j].1) ==> backslash(moves[i].0, moves[i].1) == backslash(
            moves[j].0,
            moves[j].1,
        )
}

/// What every result of `find_longest_path` satisfies: lawful segments, a
/// greedy trail that never repeats a cell, and greedy diagonals that never cross.
pub open spec fn longest_path_laws(g: Grid, cardinal_only: bool, sv: Seq<(Seq<Cell>, bool)>) -> bool {
    &&& segments_ok(g, cardinal_only, sv)
    &&& greedy_trail(sv).no_duplicates()
    &&& no_crossing(greedy_moves(sv))
}

/// No cell of a link segment lies on the greedy segments before it.
pub open spec fn links_clear(sv: Seq<(Seq<Cell>, bool)>) -> bool {
    forall|i: int, k: int|
        0 <= i < sv.len() && sv[i].1 && 0 <= k < sv[i].0.len() ==> !greedy_trail(sv.take(i)).contains(#[trigger] sv[i].0[k])
}

/// Every segment has two or more cells and is a walk of legal steps; link
/// segments stay off the greedy segments before them.
pub open spec fn segments_ok(g: Grid, cardinal_only: bool, sv: Seq<(Seq<Cell>, bool)>) -> bool {
    &&& forall|i: int| 0 <= i < sv.len() ==> (#[trigger] sv[i]).0.len() >= 2
    &&& forall|i: int| 0 <= i < sv.len() && (#[trigger] sv[i]).1 ==> legal_walk(g, sv[i].0, cardinal_only)
    &&& forall|i: int| 0 <= i < sv.len() && !(#[trigger] sv[i]).1 ==> legal_walk(g, sv[i].0, cardinal_only)
    &&& links_clear(sv)
}

/// The cells of the link segments, in order.
pub open spec fn link_trail(sv: Seq<(Seq<Cell>, bool)>) -> Seq<Cell>
    decreases sv.len(),
{
    if sv.len() == 0 {
        Seq::empty()
    } else {
        link_trail(sv.drop_last()) + if sv.last().1 { sv.last().0 } else { Seq::empty() }
    }
}

/// Every cell of every segment lies in the grid, and every one but `start` is open.
pub open spec fn cells_open(g: Grid, start: Cell, sv: Seq<(Seq<Cell>, bool)>) -> bool {
    forall|i: int, k: int|
        0 <= i < sv.len() && 0 <= k < sv[i].0.len() ==> g.in_bounds((#[trigger] sv[i].0[k]).0 as int, sv[i].0[k].1 as int) && (
        sv[i].0[k] == start || g.passable(sv[i].0[k].0 as int, sv[i].0[k].1 as int))
}

/// The link segments never repeat a cell and share none with the greedy segments.
pub open spec fn links_apart(sv: Seq<(Seq<Cell>, bool)>) -> bool {
    &&& link_trail(sv).no_duplicates()
    &&& forall|c: Cell| #[trigger] link_trail(sv).contains(c) ==> !greedy_trail(sv).contains(c)
}

/// The cells of a list of runs, in order.
pub open spec fn cells_of(runs: Seq<Seq<Cell>>) -> Seq<Cell>
    decreases runs.len(),
{
    if runs.len() == 0 {
        Seq::empty()
    } else {
        cells_of(runs.drop_last()) + runs.last()
    }
}

/// A cell of a greedy segment is on the greedy trail; a cell of a link segment on the link trail.
proof fn lemma_seg_cells(sv: Seq<(Seq<Cell>, bool)>, i: int, k: int)
    requires
        0 <= i < sv.len(),
        0 <= k < sv[i].0.len(),
    ensures
        !sv[i].1 ==> greedy_trail(sv).contains(sv[i].0[k]),
        sv[i].1 ==> link_trail(sv).contains(sv[i].0[k]),
    decreases sv.len(),
{
    let prev = sv.drop_last();
    if i < sv.len() - 1 {
        assert(prev[i] == sv[i]);
        lemma_seg_cells(prev, i, k);
        if !sv[i].1 {
            let m = choose|m: int| 0 <= m < greedy_trail(prev).len() && greedy_trail(prev)[m] == sv[i].0[k];
            assert(greedy_trail(sv)[m] == sv[i].0[k]);
        } else {
            let m = choose|m: int| 0 <= m < link_trail(prev).len() && link_trail(prev)[m] == sv[i].0[k];
            assert(link_trail(sv)[m] == sv[i].0[k]);
        }
    } else {
        if !sv[i].1 {
            assert(greedy_trail(sv)[greedy_trail(prev).len() + k] == sv[i].0[k]);
        } else {
            assert(link_trail(sv)[link_trail(prev).len() + k] == sv[i].0[k]);
        }
    }
}

/// Segments without links have an empty link trail, and appending link runs
/// puts their cells on the link trail.
proof fn lemma_link_trail_runs(sv: Seq<(Seq<Cell>, bool)>, runs: Seq<Seq<Cell>>)
    ensures
        link_trail(sv + runs.map_values(|r: Seq<Cell>| (r, true))) == link_trail(sv) + cells_of(runs),
    decreases runs.len(),
{
    let all = sv + runs.map_values(|r: Seq<Cell>| (r, true));
    if runs.len() == 0 {
        assert(all =~= sv);
        assert(link_trail(sv) + cells_of(runs) =~= link_trail(sv));
    } else {
        let prev = runs.drop_last();
        lemma_link_trail_runs(sv, prev);
        assert(all.drop_last() =~= sv + prev.map_values(|r: Seq<Cell>| (r, true)));
        assert(all.last() == (runs.last(), true));
        assert(link_trail(all) =~= link_trail(sv) + cells_of(runs));
    }
}

/// Segments without links have an empty link trail.
proof fn lemma_no_links(sv: Seq<(Seq<Cell>, bool)>)
    requires
        forall|i: int| 0 <= i < sv.len() ==> !(#[trigger] sv[i]).1,
    ensures
        link_trail(sv) == Seq::<Cell>::empty(),
    decreases sv.len(),
{
    if sv.len() > 0 {
        let prev = sv.drop_last();
        assert forall|i: int| 0 <= i < prev.len() implies !(#[trigger] prev[i]).1 by {
            assert(prev[i] == sv[i]);
        }
        lemma_no_links(prev);
        assert(!sv[sv.len() - 1].1);
        assert(link_trail(sv) =~= Seq::<Cell>::empty());
    }
}

/// The runs of unvisited cells of a path without repeats: together they
/// repeat no cell, and each of their cells is a cell of the path after its
/// first.
proof fn lemma_split_cells(path: Seq<Cell>, visited: Seq<Vec<bool>>)
    requires
        path.no_duplicates(),
        path.len() >= 1 ==> flag(visited, path[0]),
    ensures
        ({
            let (done, cur) = link_split(path, visited);
            let f = cells_of(done) + cur;
            &&& f.no_duplicates()
            &&& forall|i: int|
                0 <= i < f.len() ==> !flag(visited, #[trigger] f[i]) && exists|j: int| 1 <= j < path.len() && path[j] == f[i]
        }),
    decreases path.len(),
{
    if path.len() > 0 {
        let prev = path.drop_last();
        assert(prev.no_duplicates()) by {
            assert forall|a: int, b: int| 0 <= a < prev.len() && 0 <= b < prev.len() && a != b implies prev[a] != prev[b] by {
                assert(prev[a] == path[a] && prev[b] == path[b]);
            }
        }
        assert(prev.len() >= 1 ==> prev[0] == path[0]);
        lemma_split_cells(prev, visited);
        let (done0, cur0) = link_split(prev, visited);
        let f0 = cells_of(done0) + cur0;
        let (done, cur) = link_split(path, visited);
        let f = cells_of(done) + cur;
        let c = path.last();
        assert forall|i: int| 0 <= i < f0.len() implies exists|j: int| 1 <= j < path.len() && path[j] == #[trigger] f0[i] by {
            let j = choose|j: int| 1 <= j < prev.len() && prev[j] == f0[i];
            assert(path[j] == prev[j]);
        }
        if flag(visited, c) {
            if cur0.len() >= 2 {
                assert(done.drop_last() =~= done0);
                assert(f =~= f0);
            } else {
                assert(f =~= cells_of(done0));
                assert forall|i: int| 0 <= i < f.len() implies !flag(visited, #[trigger] f[i]) && exists|j: int| 1 <= j < path.len() && path[j] == f[i] by {
                    assert(f[i] == f0[i]);
                }
                assert(f.no_duplicates()) by {
                    assert forall|a: int, b: int| 0 <= a < f.len() && 0 <= b < f.len() && a != b implies f[a] != f[b] by {
                        assert(f[a] == f0[a] && f[b] == f0[b]);
                    }
                }
            }
        } else {
            assert(path.len() >= 2);
            assert(f =~= f0.push(c));
            assert(!f0.contains(c)) by {
                if f0.contains(c) {
                    let i = choose|i: int| 0 <= i < f0.len() && f0[i] == c;
                    let j = choose|j: int| 1 <= j < prev.len() && prev[j] == f0[i];
                    assert(path[j] == c);
                    assert(path[path.len() - 1] == c);
                }
            }
            assert forall|i: int| 0 <= i < f.len() implies !flag(visited, #[trigger] f[i]) && exists|j: int| 1 <= j < path.len() && path[j] == f[i] by {
                if i < f0.len() {
                    assert(f[i] == f0[i]);
                } else {
                    assert(path[path.len() - 1] == f[i]);
                }
            }
            assert(f.no_duplicates()) by {
                assert forall|a: int, b: int| 0 <= a < f.len() && 0 <= b < f.len() && a != b implies f[a] != f[b] by {
                    if a < f0.len() && b < f0.len() {
                        assert(f[a] == f0[a] && f[b] == f0[b]);
                    } else if a < f0.len() {
                        assert(f[a] == f0[a]);
                        assert(f0.contains(f0[a]));
                    } else if b < f0.len() {
                        assert(f[b] == f0[b]);
                        assert(f0.contains(f0[b]));
                    }
                }
            }
        }
    }
}

/// The link runs of a legal walk without repeats that starts at a visited
/// cell: their cells repeat nothing, are unvisited, lie in the grid and are open.
proof fn lemma_path_runs(g: Grid, path: Seq<Cell>, visited: Seq<Vec<bool>>, cardinal_only: bool)
    requires
        legal_walk(g, path, cardinal_only),
        path.no_duplicates(),
        path.len() >= 1,
        flag(visited, path[0]),
    ensures
        cells_of(link_runs(path, visited)).no_duplicates(),
        forall|i: int|
            0 <= i < cells_of(link_runs(path, visited)).len() ==> !flag(visited, #[trigger] cells_of(link_runs(path, visited))[i])
                && g.passable(cells_of(link_runs(path, visited))[i].0 as int, cells_of(link_runs(path, visited))[i].1 as int),
{
    lemma_split_cells(path, visited);
    let (done, cur) = link_split(path, visited);
    let f = cells_of(done) + cur;
    let runs = link_runs(path, visited);
    let r = cells_of(runs);
    if cur.len() >= 2 {
        assert(runs.drop_last() =~= done);
        assert(r =~= f);
    } else {
        assert(r =~= cells_of(done));
    }
    assert forall|i: int| 0 <= i < r.len() implies #[trigger] r[i] == f[i] by {
    }
    assert(r.no_duplicates()) by {
        assert forall|a: int, b: int| 0 <= a < r.len() && 0 <= b < r.len() && a != b implies r[a] != r[b] by {
            assert(r[a] == f[a] && r[b] == f[b]);
        }
    }
    assert forall|i: int| 0 <= i < r.len() implies !flag(visited, #[trigger] r[i]) && g.passable(r[i].0 as int, r[i].1 as int) by {
        assert(r[i] == f[i]);
        let j = choose|j: int| 1 <= j < path.len() && path[j] == f[i];
        assert(legal_step(g, path[j - 1], path[j], cardinal_only));
    }
}

/// The greedy trail once the segment under way is closed is a prefix of the
/// trail with that segment.
proof fn lemma_closed_trail(sv: Seq<(Seq<Cell>, bool)>, cur: Seq<Cell>)
    ensures
        greedy_trail(closed_segs(sv, cur)).len() <= (greedy_trail(sv) + cur).len(),
        forall|i: int|
            0 <= i < greedy_trail(closed_segs(sv, cur)).len() ==> #[trigger] greedy_trail(closed_segs(sv, cur))[i] == (greedy_trail(sv)
                + cur)[i],
{
    if cur.len() >= 2 {
        lemma_trail_push(sv, cur, false);
    }
}

/// At the end of the walk, with the greedy segment under way closed and the
/// last link's runs added: every cell lies in the grid and all but `start`
/// are open, and the link cells repeat nothing and avoid the greedy cells.
proof fn lemma_final_cells(
    g: Grid,
    start: Cell,
    visited: Seq<Vec<bool>>,
    sv: Seq<(Seq<Cell>, bool)>,
    cur: Seq<Cell>,
    runs: Seq<Seq<Cell>>,
)
    requires
        forall|i: int| 0 <= i < sv.len() ==> !(#[trigger] sv[i]).1,
        forall|i: int|
            0 <= i < (greedy_trail(sv) + cur).len() ==> {
                let c = #[trigger] (greedy_trail(sv) + cur)[i];
                &&& g.in_bounds(c.0 as int, c.1 as int)
                &&& flag(visited, c)
                &&& (c == start || g.passable(c.0 as int, c.1 as int))
            },
        cells_of(runs).no_duplicates(),
        forall|i: int|
            0 <= i < cells_of(runs).len() ==> !flag(visited, #[trigger] cells_of(runs)[i]) && g.passable(
                cells_of(runs)[i].0 as int,
                cells_of(runs)[i].1 as int,
            ),
    ensures
        cells_open(g, start, closed_segs(sv, cur) + runs.map_values(|r: Seq<Cell>| (r, true))),
        links_apart(closed_segs(sv, cur) + runs.map_values(|r: Seq<Cell>| (r, true))),
{
    let trail = greedy_trail(sv) + cur;
    let sv1 = closed_segs(sv, cur);
    let sv2 = sv1 + runs.map_values(|r: Seq<Cell>| (r, true));
    assert forall|i: int| 0 <= i < sv1.len() implies !(#[trigger] sv1[i]).1 by {
        if i < sv.len() {
            assert(sv1[i] == sv[i]);
        }
    }
    lemma_no_links(sv1);
    lemma_link_trail_runs(sv1, runs);
    lemma_trail_links(sv1, runs);
    lemma_closed_trail(sv, cur);
    assert(link_trail(sv2) =~= cells_of(runs));
    assert forall|i: int, k: int|
        0 <= i < sv2.len() && 0 <= k < sv2[i].0.len() implies g.in_bounds((#[trigger] sv2[i].0[k]).0 as int, sv2[i].0[k].1 as int) && (
        sv2[i].0[k] == start || g.passable(sv2[i].0[k].0 as int, sv2[i].0[k].1 as int)) by {
        lemma_seg_cells(sv2, i, k);
        let c = sv2[i].0[k];
        if !sv2[i].1 {
            let m = choose|m: int| 0 <= m < greedy_trail(sv2).len() && greedy_trail(sv2)[m] == c;
            assert(greedy_trail(sv1)[m] == trail[m]);
        } else {
            let m = choose|m: int| 0 <= m < link_trail(sv2).len() && link_trail(sv2)[m] == c;
            assert(cells_of(runs)[m] == c);
        }
    }
    assert forall|c: Cell| #[trigger] link_trail(sv2).contains(c) implies !greedy_trail(sv2).contains(c) by {
        let m = choose|m: int| 0 <= m < link_trail(sv2).len() && link_trail(sv2)[m] == c;
        assert(cells_of(runs)[m] == c);
        if greedy_trail(sv2).contains(c) {
            let n = choose|n: int| 0 <= n < greedy_trail(sv2).len() && greedy_trail(sv2)[n] == c;
            assert(greedy_trail(sv1)[n] == trail[n]);
            assert(flag(visited, trail[n]));
        }
    }
}

/// Every diagonal move is recorded in the used-diagonal flags.
pub open spec fn diagonals_recorded(moves: Seq<(Cell, Cell)>, back: Seq<Vec<bool>>, fwd: Seq<Vec<bool>>) -> bool {
    forall|i: int|
        0 <= i < moves.len() && is_diagonal((#[trigger] moves[i]).0, moves[i].1) ==> diag_used(
            back,
            fwd,
            diag_block(moves[i].0, moves[i].1),
            backslash(moves[i].0, moves[i].1),
        )
}

/// What the longest-path walk keeps true: `cur` is the greedy segment under way, ending at `pos`.
pub open spec fn walk_inv(
    g: Grid,
    cardinal_only: bool,
    visited: Seq<Vec<bool>>,
    back: Seq<Vec<bool>>,
    fwd: Seq<Vec<bool>>,
    sv: Seq<(Seq<Cell>, bool)>,
    cur: Seq<Cell>,
    pos: Cell,
) -> bool {
    let w = g.width as int;
    let h = g.height as int;
    let trail = greedy_trail(sv) + cur;
    let moves = greedy_moves(sv) + steps(cur);
    &&& shaped(visited, w, h)
    &&& shaped(back, w, h)
    &&& shaped(fwd, w, h)
    &&& cur.len() >= 1
    &&& cur.last() == pos
    &&& g.in_bounds(pos.0 as int, pos.1 as int)
    &&& legal_walk(g, cur, cardinal_only)
    &&& segments_ok(g, cardinal_only, sv)
    &&& trail.no_duplicates()
    &&& forall|i: int| 0 <= i < trail.len() ==> g.in_bounds((#[trigger] trail[i]).0 as int, trail[i].1 as int) && flag(visited, trail[i])
    &&& no_crossing(moves)
    &&& diagonals_recorded(moves, back, fwd)
}

/// The state of the longest-path walk between two of its steps.
pub struct WalkState {
    pub visited: Seq<Vec<bool>>,
    pub back: Seq<Vec<bool>>,
    pub fwd: Seq<Vec<bool>>,
    pub segs: Seq<(Seq<Cell>, bool)>,
    pub cur: Seq<Cell>,
    pub pos: Cell,
    pub done: bool,
}

/// `r1` is `r0`, over the cells of the grid, with the flag of `c` set.
pub open spec fn marked(g: Grid, r0: Seq<Vec<bool>>, r1: Seq<Vec<bool>>, c: Cell) -> bool {
    &&& shaped(r1, g.width as int, g.height as int)
    &&& forall|d: Cell| g.in_bounds(d.0 as int, d.1 as int) ==> #[trigger] flag(r1, d) == (flag(r0, d) || d == c)
}

/// The walk's first state: only `start` visited, no diagonal taken, no
/// segment yet, and a greedy segment under way that holds `start` alone.
pub open spec fn walk_start(g: Grid, start: Cell, s: WalkState) -> bool {
    let w = g.width as int;
    let h = g.height as int;
    &&& shaped(s.visited, w, h)
    &&& shaped(s.back, w, h)
    &&& shaped(s.fwd, w, h)
    &&& forall|c: Cell|
        g.in_bounds(c.0 as int, c.1 as int) ==> (#[trigger] flag(s.visited, c) == (c == start)) && !flag(s.back, c) && !flag(
            s.fwd,
            c,
        )
    &&& s.segs == Seq::<(Seq<Cell>, bool)>::empty()
    &&& s.cur == seq![start]
    &&& s.pos == start
    &&& !s.done
}

/// `t` is `s` after a greedy step to `n`: `n` is visited, a diagonal step
/// is recorded in its block, and `n` ends the greedy segment under way.
pub open spec fn stepped_to(g: Grid, s: WalkState, t: WalkState, n: Cell) -> bool {
    &&& marked(g, s.visited, t.visited, n)
    &&& if !is_diagonal(s.pos, n) {
        t.back == s.back && t.fwd == s.fwd
    } else if backslash(s.pos, n) {
        marked(g, s.back, t.back, diag_block(s.pos, n)) && t.fwd == s.fwd
    } else {
        marked(g, s.fwd, t.fwd, diag_block(s.pos, n)) && t.back == s.back
    }
    &&& t.segs == s.segs
    &&& t.cur == s.cur.push(n)
    &&& t.pos == n
    &&& !t.done
}

/// The link segments that a link path leaves: its runs of unvisited cells.
pub open spec fn link_segs(path: Seq<Cell>, visited: Seq<Vec<bool>>) -> Seq<(Seq<Cell>, bool)> {
    link_runs(path, visited).map_values(|r: Seq<Cell>| (r, true))
}

/// `t` is `s` after a link along `path` to `target`: the greedy segment
/// under way is closed, the link's runs follow it, and a new greedy segment
/// starts at `target`, which is now visited.
pub open spec fn linked_to(g: Grid, s: WalkState, t: WalkState, target: Cell, path: Seq<Cell>) -> bool {
    &&& marked(g, s.visited, t.visited, target)
    &&& t.back == s.back
    &&& t.fwd == s.fwd
    &&& t.segs == closed_segs(s.segs, s.cur) + link_segs(path, s.visited)
    &&& t.cur == seq![target]
    &&& t.pos == target
    &&& !t.done
}

/// One step of the longest-path walk from `s` to `t`. At `goal` the greedy
/// segment under way is closed and the walk is done. Otherwise it steps to
/// the first furthest of its greedy candidates; with none, it links to the
/// cell, along the walk, that the unvisited-cell search answers; when the
/// search answers none, it closes its segment, adds the links of the A* route
/// to `goal`, if any, and is done.
pub open spec fn walk_step(g: Grid, goal: Cell, cardinal_only: bool, s: WalkState, t: WalkState) -> bool {
    let cands = greedy_upto(g, s.visited, s.back, s.fwd, s.pos, cardinal_only, 9);
    &&& !s.done
    &&& if s.pos == goal {
        t.done && t.segs == closed_segs(s.segs, s.cur)
    } else if cands.len() > 0 {
        exists|i: int| #[trigger] first_furthest(cands, goal, i) && stepped_to(g, s, t, cands[i])
    } else {
        ||| exists|target: Cell, path: Seq<Cell>|
            #[trigger] search_answer(g, s.visited, s.pos, goal, cardinal_only, Some((target, path))) && linked_to(
                g,
                s,
                t,
                target,
                path,
            )
        ||| {
            &&& search_answer(g, s.visited, s.pos, goal, cardinal_only, None)
            &&& t.done
            &&& t.segs == closed_segs(s.segs, s.cur) + match astar_route(g@, s.pos, goal, cardinal_only) {
                Some(p) => link_segs(p, s.visited),
                None => Seq::empty(),
            }
        }
    }
}

/// A greedy step of the walk goes to a cell it may step to (a legal step to
/// an unvisited cell crossing no walked diagonal, diagonal steps included
/// unless `cardinal_only`) that is at least as far from `goal` as every
/// other such cell.
pub proof fn lemma_greedy_step_furthest(g: Grid, goal: Cell, cardinal_only: bool, s: WalkState, t: WalkState)
    requires
        small_cell(s.pos),
        s.pos != goal,
        greedy_upto(g, s.visited, s.back, s.fwd, s.pos, cardinal_only, 9).len() > 0,
        walk_step(g, goal, cardinal_only, s, t),
    ensures
        legal_step(g, s.pos, t.pos, cardinal_only),
        !flag(s.visited, t.pos),
        is_diagonal(s.pos, t.pos) ==> !diag_used(s.back, s.fwd, diag_block(s.pos, t.pos), !backslash(s.pos, t.pos)),
        forall|n: Cell|
            legal_step(g, s.pos, n, cardinal_only) && !flag(s.visited, n) && (is_diagonal(s.pos, n) ==> !diag_used(
                s.back,
                s.fwd,
                diag_block(s.pos, n),
                !backslash(s.pos, n),
            )) ==> #[trigger] dist2(n, goal) <= dist2(t.pos, goal),
{
    let cands = greedy_upto(g, s.visited, s.back, s.fwd, s.pos, cardinal_only, 9);
    lemma_greedy_candidates_exact(g, s.visited, s.back, s.fwd, s.pos, cardinal_only);
    let i = choose|i: int| #[trigger] first_furthest(cands, goal, i) && stepped_to(g, s, t, cands[i]);
    assert(cands.contains(cands[i]));
    assert forall|n: Cell|
        legal_step(g, s.pos, n, cardinal_only) && !flag(s.visited, n) && (is_diagonal(s.pos, n) ==> !diag_used(
            s.back,
            s.fwd,
            diag_block(s.pos, n),
            !backslash(s.pos, n),
        )) implies #[trigger] dist2(n, goal) <= dist2(t.pos, goal) by {
        assert(cands.contains(n));
        let j = choose|j: int| 0 <= j < cands.len() && cands[j] == n;
        assert(dist2(cands[j], goal) <= dist2(cands[i], goal));
    }
}

/// `tr` is a run of the longest-path walk from `start`: its first state
/// starts the walk and each state follows from the one before it.
pub open spec fn walk_run(g: Grid, start: Cell, goal: Cell, cardinal_only: bool, tr: Seq<WalkState>) -> bool {
    &&& tr.len() >= 1
    &&& walk_start(g, start, tr[0])
    &&& forall|i: int, j: int|
        0 <= i && j == i + 1 && j < tr.len() ==> walk_step(g, goal, cardinal_only, #[trigger] tr[i], #[trigger] tr[j])
}

/// A run that takes one more step is still a run.
proof fn lemma_run_push(g: Grid, start: Cell, goal: Cell, cardinal_only: bool, tr: Seq<WalkState>, t: WalkState)
    requires
        walk_run(g, start, goal, cardinal_only, tr),
        walk_step(g, goal, cardinal_only, tr.last(), t),
    ensures
        walk_run(g, start, goal, cardinal_only, tr.push(t)),
        tr.push(t).last() == t,
{
    let tr2 = tr.push(t);
    assert(tr2[0] == tr[0]);
    assert forall|i: int, j: int| 0 <= i && j == i + 1 && j < tr2.len() implies walk_step(g, goal, cardinal_only, #[trigger] tr2[i], #[trigger] tr2[j]) by {
        assert(tr2[i] == tr[i]);
        if j < tr.len() {
            assert(tr2[j] == tr[j]);
        } else {
            assert(tr2[j] == t);
        }
    }
}

proof fn lemma_trail_push(sv: Seq<(Seq<Cell>, bool)>, s: Seq<Cell>, link: bool)
    ensures
        greedy_trail(sv.push((s, link))) == greedy_trail(sv) + if !link { s } else { Seq::empty() },
        greedy_moves(sv.push((s, link))) == greedy_moves(sv) + if !link { steps(s) } else { Seq::empty() },
{
    assert(sv.push((s, link)).drop_last() =~= sv);
}

proof fn lemma_trail_links(sv: Seq<(Seq<Cell>, bool)>, runs: Seq<Seq<Cell>>)
    ensures
        greedy_trail(sv + runs.map_values(|r: Seq<Cell>| (r, true))) == greedy_trail(sv),
        greedy_moves(sv + runs.map_values(|r: Seq<Cell>| (r, true))) == greedy_moves(sv),
    decreases runs.len(),
{
    if runs.len() > 0 {
        let prev = runs.drop_last();
        lemma_trail_links(sv, prev);
        let all = sv + runs.map_values(|r: Seq<Cell>| (r, true));
        assert(all.drop_last() =~= sv + prev.map_values(|r: Seq<Cell>| (r, true)));
        assert(all.last() == (runs.last(), true));
        assert(greedy_trail(all) =~= greedy_trail(all.drop_last()));
        assert(greedy_moves(all) =~= greedy_moves(all.drop_last()));
    }
}

proof fn lemma_steps_push(s: Seq<Cell>, x: Cell)
    requires
        s.len() >= 1,
    ensures
        steps(s.push(x)) == steps(s).push((s.last(), x)),
{
    assert(steps(s.push(x)) =~= steps(s).push((s.last(), x)));
}

proof fn lemma_no_dup_prefix(a: Seq<Cell>, b: Seq<Cell>)
    requires
        (a + b).no_duplicates(),
    ensures
        a.no_duplicates(),
{
    assert forall|i: int, j: int| 0 <= i < a.len() && 0 <= j < a.len() && i != j implies a[i] != a[j] by {
        assert((a + b)[i] == a[i] && (a + b)[j] == a[j]);
    }
}

/// The segments once the greedy segment under way is closed: kept when it
/// has two or more cells, dropped otherwise.
pub open spec fn closed_segs(sv: Seq<(Seq<Cell>, bool)>, cur: Seq<Cell>) -> Seq<(Seq<Cell>, bool)> {
    if cur.len() >= 2 {
        sv.push((cur, false))
    } else {
        sv
    }
}

/// Closing the greedy segment under way at the goal leaves a result with all the laws.
proof fn lemma_close_segment(
    g: Grid,
    cardinal_only: bool,
    visited: Seq<Vec<bool>>,
    back: Seq<Vec<bool>>,
    fwd: Seq<Vec<bool>>,
    sv: Seq<(Seq<Cell>, bool)>,
    cur: Seq<Cell>,
    pos: Cell,
)
    requires
        walk_inv(g, cardinal_only, visited, back, fwd, sv, cur, pos),
    ensures
        ({
            let sv1 = closed_segs(sv, cur);
            &&& segments_ok(g, cardinal_only, sv1)
            &&& greedy_trail(sv1).no_duplicates()
            &&& forall|i: int|
                0 <= i < greedy_trail(sv1).len() ==> g.in_bounds((#[trigger] greedy_trail(sv1)[i]).0 as int, greedy_trail(sv1)[i].1 as int) && flag(
                    visited,
                    greedy_trail(sv1)[i],
                )
            &&& greedy_moves(sv1) == greedy_moves(sv) + steps(cur)
            &&& longest_path_laws(g, cardinal_only, sv1)
        }),
{
    let trail = greedy_trail(sv) + cur;
    if cur.len() >= 2 {
        lemma_trail_push(sv, cur, false);
        let sv1 = sv.push((cur, false));
        assert forall|i: int| 0 <= i < sv1.len() implies (#[trigger] sv1[i]).0.len() >= 2 by {
            if i < sv.len() {
                assert(sv1[i] == sv[i]);
            }
        }
        assert forall|i: int| 0 <= i < sv1.len() && (#[trigger] sv1[i]).1 implies legal_walk(g, sv1[i].0, cardinal_only) by {
            assert(sv1[i] == sv[i]);
        }
        assert forall|i: int| 0 <= i < sv1.len() && !(#[trigger] sv1[i]).1 implies legal_walk(g, sv1[i].0, cardinal_only) by {
            if i < sv.len() {
                assert(sv1[i] == sv[i]);
            }
        }
        assert forall|i: int, k: int|
            0 <= i < sv1.len() && sv1[i].1 && 0 <= k < sv1[i].0.len() implies !greedy_trail(sv1.take(i)).contains(#[trigger] sv1[i].0[k]) by {
            assert(sv1[i] == sv[i]);
            assert(sv1.take(i) =~= sv.take(i));
        }
    } else {
        lemma_no_dup_prefix(greedy_trail(sv), cur);
        assert(steps(cur) =~= Seq::<(Cell, Cell)>::empty());
        assert(greedy_moves(sv) + steps(cur) =~= greedy_moves(sv));
        assert forall|i: int| 0 <= i < greedy_trail(sv).len() implies g.in_bounds((#[trigger] greedy_trail(sv)[i]).0 as int, greedy_trail(sv)[i].1 as int) && flag(visited, greedy_trail(sv)[i]) by {
            assert(trail[i] == greedy_trail(sv)[i]);
        }
    }
}

/// Appending link runs that are walks of open steps keeps the segments lawful
/// and leaves the greedy trail and moves as they were.
proof fn lemma_add_links(
    g: Grid,
    cardinal_only: bool,
    visited: Seq<Vec<bool>>,
    sv: Seq<(Seq<Cell>, bool)>,
    runs: Seq<Seq<Cell>>,
)
    requires
        segments_ok(g, cardinal_only, sv),
        forall|j: int| 0 <= j < runs.len() ==> (#[trigger] runs[j]).len() >= 2 && legal_walk(g, runs[j], cardinal_only),
        forall|j: int| 0 <= j < runs.len() ==> all_unvisited(#[trigger] runs[j], visited),
        forall|i: int| 0 <= i < greedy_trail(sv).len() ==> flag(visited, #[trigger] greedy_trail(sv)[i]),
    ensures
        segments_ok(g, cardinal_only, sv + runs.map_values(|r: Seq<Cell>| (r, true))),
        greedy_trail(sv + runs.map_values(|r: Seq<Cell>| (r, true))) == greedy_trail(sv),
        greedy_moves(sv + runs.map_values(|r: Seq<Cell>| (r, true))) == greedy_moves(sv),
{
    lemma_trail_links(sv, runs);
    let all = sv + runs.map_values(|r: Seq<Cell>| (r, true));
    assert forall|i: int| 0 <= i < all.len() implies (#[trigger] all[i]).0.len() >= 2 && (all[i].1 ==> legal_walk(g, all[i].0, cardinal_only)) && (!all[i].1 ==> legal_walk(g, all[i].0, cardinal_only)) by {
        if i < sv.len() {
            assert(all[i] == sv[i]);
        } else {
            assert(all[i] == (runs[i - sv.len()], true));
        }
    }
    assert forall|i: int, k: int|
        0 <= i < all.len() && all[i].1 && 0 <= k < all[i].0.len() implies !greedy_trail(all.take(i)).contains(#[trigger] all[i].0[k]) by {
        if i < sv.len() {
            assert(all[i] == sv[i]);
            assert(all.take(i) =~= sv.take(i));
        } else {
            let j = i - sv.len();
            let r = runs[j];
            assert(all[i] == (r, true));
            assert(all.take(i) =~= sv + runs.take(j).map_values(|r: Seq<Cell>| (r, true)));
            lemma_trail_links(sv, runs.take(j));
            let t = greedy_trail(sv);
            if t.contains(r[k]) {
                let m = choose|m: int| 0 <= m < t.len() && t[m] == r[k];
                assert(flag(visited, t[m]));
                assert(all_unvisited(r, visited));
                assert(!flag(visited, r[k]));
            }
        }
    }
}

/// One greedy step from `pos` to an allowed unvisited `next`, marking it
/// visited and recording its diagonal, keeps the walk invariant.
proof fn lemma_greedy_advance(
    g: Grid,
    cardinal_only: bool,
    visited: Seq<Vec<bool>>,
    back: Seq<Vec<bool>>,
    fwd: Seq<Vec<bool>>,
    visited1: Seq<Vec<bool>>,
    back1: Seq<Vec<bool>>,
    fwd1: Seq<Vec<bool>>,
    sv: Seq<(Seq<Cell>, bool)>,
    cur: Seq<Cell>,
    pos: Cell,
    next: Cell,
)
    requires
        walk_inv(g, cardinal_only, visited, back, fwd, sv, cur, pos),
        greedy_ok(g, visited, back, fwd, pos, next, cardinal_only),
        shaped(visited1, g.width as int, g.height as int),
        shaped(back1, g.width as int, g.height as int),
        shaped(fwd1, g.width as int, g.height as int),
        forall|c: Cell| g.in_bounds(c.0 as int, c.1 as int) ==> #[trigger] flag(visited1, c) == (flag(visited, c) || c == next),
        forall|b: Cell, t: bool|
            g.in_bounds(b.0 as int, b.1 as int) ==> #[trigger] diag_used(back1, fwd1, b, t) == (diag_used(back, fwd, b, t) || (
            is_diagonal(pos, next) && b == diag_block(pos, next) && t == backslash(pos, next))),
    ensures
        walk_inv(g, cardinal_only, visited1, back1, fwd1, sv, cur.push(next), next),
{
    let trail = greedy_trail(sv) + cur;
    let moves = greedy_moves(sv) + steps(cur);
    let cur1 = cur.push(next);
    let trail1 = greedy_trail(sv) + cur1;
    let moves1 = greedy_moves(sv) + steps(cur1);
    lemma_steps_push(cur, next);
    assert(trail1 =~= trail.push(next));
    assert(moves1 =~= moves.push((pos, next)));
    assert(!trail.contains(next)) by {
        if trail.contains(next) {
            let i = choose|i: int| 0 <= i < trail.len() && trail[i] == next;
            assert(flag(visited, trail[i]));
        }
    }
    assert forall|i: int| 0 <= i < trail1.len() implies g.in_bounds((#[trigger] trail1[i]).0 as int, trail1[i].1 as int) && flag(visited1, trail1[i]) by {
        if i < trail.len() {
            assert(trail1[i] == trail[i]);
        }
    }
    assert forall|i: int| 0 <= i < cur1.len() - 1 implies legal_step(g, #[trigger] cur1[i], cur1[i + 1], cardinal_only) by {
        if i < cur.len() - 1 {
            assert(cur1[i] == cur[i] && cur1[i + 1] == cur[i + 1]);
        } else {
            assert(cur1[i] == pos);
        }
    }
    assert(diag_block(pos, next).0 < g.width && diag_block(pos, next).1 < g.height);
    assert forall|i: int|
        0 <= i < moves1.len() && is_diagonal((#[trigger] moves1[i]).0, moves1[i].1) implies diag_used(
        back1,
        fwd1,
        diag_block(moves1[i].0, moves1[i].1),
        backslash(moves1[i].0, moves1[i].1),
    ) by {
        if i < moves.len() {
            assert(moves1[i] == moves[i]);
            lemma_move_in_bounds(g, cardinal_only, sv, cur, pos, i);
        }
    }
    assert forall|i: int, j: int|
        0 <= i < moves1.len() && 0 <= j < moves1.len() && is_diagonal((#[trigger] moves1[i]).0, moves1[i].1)
            && is_diagonal((#[trigger] moves1[j]).0, moves1[j].1) && diag_block(moves1[i].0, moves1[i].1)
            == diag_block(moves1[j].0, moves1[j].1) implies backslash(moves1[i].0, moves1[i].1) == backslash(
        moves1[j].0,
        moves1[j].1,
    ) by {
        let last = moves.len() as int;
        if i < last && j < last {
            assert(moves1[i] == moves[i] && moves1[j] == moves[j]);
        } else if i < last {
            assert(moves1[i] == moves[i]);
            assert(diag_used(back, fwd, diag_block(moves[i].0, moves[i].1), backslash(moves[i].0, moves[i].1)));
        } else if j < last {
            assert(moves1[j] == moves[j]);
            assert(diag_used(back, fwd, diag_block(moves[j].0, moves[j].1), backslash(moves[j].0, moves[j].1)));
        }
    }
}

/// The blocks of all moves so far lie in the grid.
proof fn lemma_move_in_bounds(
    g: Grid,
    cardinal_only: bool,
    sv: Seq<(Seq<Cell>, bool)>,
    cur: Seq<Cell>,
    pos: Cell,
    i: int,
)
    requires
        0 <= i < (greedy_moves(sv) + steps(cur)).len(),
        segments_ok(g, cardinal_only, sv),
        legal_walk(g, cur, cardinal_only),
        cur.len() >= 1,
        forall|k: int| 0 <= k < (greedy_trail(sv) + cur).len() ==> g.in_bounds((#[trigger] (greedy_trail(sv) + cur)[k]).0 as int, (greedy_trail(sv) + cur)[k].1 as int),
    ensures
        ({
            let m = (greedy_moves(sv) + steps(cur))[i];
            g.in_bounds(m.0.0 as int, m.0.1 as int) && g.in_bounds(m.1.0 as int, m.1.1 as int)
        }),
{
    lemma_moves_cells(sv);
    let moves = greedy_moves(sv);
    let trail = greedy_trail(sv);
    if i < moves.len() {
        let m = moves[i];
        assert((greedy_moves(sv) + steps(cur))[i] == m);
        assert(trail.contains(m.0) && trail.contains(m.1));
        let a = choose|a: int| 0 <= a < trail.len() && trail[a] == m.0;
        let b = choose|b: int| 0 <= b < trail.len() && trail[b] == m.1;
        assert((trail + cur)[a] == m.0);
        assert((trail + cur)[b] == m.1);
    } else {
        let k = i - moves.len();
        assert((greedy_moves(sv) + steps(cur))[i] == (cur[k], cur[k + 1]));
        assert((trail + cur)[trail.len() + k] == cur[k]);
        assert((trail + cur)[trail.len() + k + 1] == cur[k + 1]);
    }
}

/// Both ends of every greedy move are cells of the greedy trail.
proof fn lemma_moves_cells(sv: Seq<(Seq<Cell>, bool)>)
    ensures
        forall|i: int|
            0 <= i < greedy_moves(sv).len() ==> greedy_trail(sv).contains((#[trigger] greedy_moves(sv)[i]).0)
                && greedy_trail(sv).contains(greedy_moves(sv)[i].1),
    decreases sv.len(),
{
    if sv.len() > 0 {
        let prev = sv.drop_last();
        lemma_moves_cells(prev);
        let t0 = greedy_trail(prev);
        let m0 = greedy_moves(prev);
        let last = sv.last();
        assert forall|i: int| 0 <= i < greedy_moves(sv).len() implies greedy_trail(sv).contains((#[trigger] greedy_moves(sv)[i]).0)
            && greedy_trail(sv).contains(greedy_moves(sv)[i].1) by {
            let t = greedy_trail(sv);
            let m = greedy_moves(sv);
            if i < m0.len() {
                assert(m[i] == m0[i]);
                let a = choose|a: int| 0 <= a < t0.len() && t0[a] == m0[i].0;
                let b = choose|b: int| 0 <= b < t0.len() && t0[b] == m0[i].1;
                assert(t[a] == t0[a] && t[b] == t0[b]);
            } else {
                let k = i - m0.len();
                assert(!last.1);
                assert(m[i] == steps(last.0)[k]);
                assert(t[t0.len() + k] == last.0[k]);
                assert(t[t0.len() + k + 1] == last.0[k + 1]);
            }
        }
    }
}

/// After a stuck greedy segment is closed, link runs added and the walk
/// resumed at a newly visited unvisited cell `target`, the walk invariant holds again.
proof fn lemma_resume_at(
    g: Grid,
    cardinal_only: bool,
    visited: Seq<Vec<bool>>,
    visited1: Seq<Vec<bool>>,
    back: Seq<Vec<bool>>,
    fwd: Seq<Vec<bool>>,
    sv: Seq<(Seq<Cell>, bool)>,
    cur: Seq<Cell>,
    pos: Cell,
    runs: Seq<Seq<Cell>>,
    target: Cell,
)
    requires
        walk_inv(g, cardinal_only, visited, back, fwd, sv, cur, pos),
        forall|j: int| 0 <= j < runs.len() ==> (#[trigger] runs[j]).len() >= 2 && legal_walk(g, runs[j], cardinal_only),
        forall|j: int| 0 <= j < runs.len() ==> all_unvisited(#[trigger] runs[j], visited),
        g.in_bounds(target.0 as int, target.1 as int),
        !flag(visited, target),
        shaped(visited1, g.width as int, g.height as int),
        forall|c: Cell| g.in_bounds(c.0 as int, c.1 as int) ==> #[trigger] flag(visited1, c) == (flag(visited, c) || c == target),
    ensures
        walk_inv(
            g,
            cardinal_only,
            visited1,
            back,
            fwd,
            closed_segs(sv, cur) + runs.map_values(|r: Seq<Cell>| (r, true)),
            seq![target],
            target,
        ),
{
    lemma_close_segment(g, cardinal_only, visited, back, fwd, sv, cur, pos);
    let sv1 = closed_segs(sv, cur);
    assert forall|i: int| 0 <= i < greedy_trail(sv1).len() implies flag(visited, #[trigger] greedy_trail(sv1)[i]) by {
        assert(g.in_bounds(greedy_trail(sv1)[i].0 as int, greedy_trail(sv1)[i].1 as int) && flag(visited, greedy_trail(sv1)[i]));
    }
    lemma_add_links(g, cardinal_only, visited, sv1, runs);
    let sv2 = sv1 + runs.map_values(|r: Seq<Cell>| (r, true));
    let t1 = greedy_trail(sv1);
    let trail = greedy_trail(sv) + cur;
    if cur.len() >= 2 {
        lemma_trail_push(sv, cur, false);
        assert(t1 =~= trail);
    }
    assert(t1.len() <= trail.len());
    assert(forall|i: int| 0 <= i < t1.len() ==> #[trigger] t1[i] == trail[i]);
    let trail2 = greedy_trail(sv2) + seq![target];
    assert(trail2 =~= t1.push(target));
    assert(!t1.contains(target)) by {
        if t1.contains(target) {
            let i = choose|i: int| 0 <= i < t1.len() && t1[i] == target;
            assert(t1[i] == trail[i]);
            assert(flag(visited, trail[i]));
        }
    }
    assert forall|i: int| 0 <= i < trail2.len() implies g.in_bounds((#[trigger] trail2[i]).0 as int, trail2[i].1 as int) && flag(visited1, trail2[i]) by {
        if i < t1.len() {
            assert(trail2[i] == t1[i]);
            assert(t1[i] == trail[i]);
            assert(flag(visited, trail[i]));
        }
    }
    assert(steps(seq![target]) =~= Seq::<(Cell, Cell)>::empty());
    assert(greedy_moves(sv2) + steps(seq![target]) =~= greedy_moves(sv) + steps(cur));
}

/// Setting one entry of a rectangular array of rows to true changes only that cell's flag.
proof fn lemma_set_true(rows0: Seq<Vec<bool>>, rows1: Seq<Vec<bool>>, x: usize, y: usize, w: int, h: int)
    requires
        shaped(rows0, w, h),
        0 <= x < w,
        0 <= y < h,
        rows1.len() == rows0.len(),
        forall|j: int| 0 <= j < rows0.len() && j != y ==> #[trigger] rows1[j] == rows0[j],
        rows1[y as int]@ == rows0[y as int]@.update(x as int, true),
    ensures
        shaped(rows1, w, h),
        forall|c: Cell| 0 <= c.0 < w && 0 <= c.1 < h ==> #[trigger] flag(rows1, c) == (flag(rows0, c) || c == (x, y)),
{
    assert forall|j: int| 0 <= j < h implies (#[trigger] rows1[j])@.len() == w by {
        if j != y {
            assert(rows1[j] == rows0[j]);
        }
    }
    assert forall|c: Cell| 0 <= c.0 < w && 0 <= c.1 < h implies #[trigger] flag(rows1, c) == (flag(rows0, c) || c == (x, y)) by {
        if c.1 != y {
            assert(rows1[c.1 as int] == rows0[c.1 as int]);
        }
    }
}

proof fn lemma_count_bound_shaped(rows: Seq<Vec<bool>>, w: int, h: int)
    requires
        w >= 0,
        shaped(rows, w, h),
    ensures
        count_rows(rows) <= w * h,
{
    lemma_count_rows_bound(rows, w);
    assert(h * w == w * h) by (nonlinear_arith);
}

/// A walk of open steps from a cell of the grid stays in the grid.
proof fn lemma_walk_in_bounds(g: Grid, p: Seq<Cell>, cardinal_only: bool)
    requires
        g.wf(),
        open_walk(g, p, cardinal_only),
        p.len() >= 1,
        g.in_bounds(p[0].0 as int, p[0].1 as int),
    ensures
        forall|i: int| 0 <= i < p.len() ==> g.in_bounds((#[trigger] p[i]).0 as int, p[i].1 as int),
        cells_index(p, g.cells@),
{
    assert forall|i: int| 0 <= i < p.len() implies g.in_bounds((#[trigger] p[i]).0 as int, p[i].1 as int) by {
        if i > 0 {
            assert(open_step(g, p[i - 1], p[i], cardinal_only));
        }
    }
}

/// Longest path: greedy walk (furthest from goal) with links when stuck.
/// Returns tagged segments so links can be drawn in a different color.
///
/// From `start` the walk repeatedly steps to the unvisited cell, among the
/// legal steps that cross no diagonal it has already taken, that is furthest
/// from `goal` (the first such in direction order). When stuck it closes its
/// segment and links, through visited cells, to the unvisited cell furthest
/// from `goal` that the nearest-unvisited search finds; when none is left it
/// links to `goal` by A* and stops. Link segments keep only the runs of
/// unvisited cells of a link path. The walk stops at `goal`.
///
/// The result is always `Some`: the segments that a run of `walk_step`s
/// from `start` ends with, and they satisfy `longest_path_laws`.
#[verifier::rlimit(40)]
pub fn find_longest_path(grid: &Grid, start: Cell, goal: Cell, cardinal_only: bool) -> (res: Option<Vec<PathSegment>>)
    requires
        grid.wf(),
        grid.in_bounds(start.0 as int, start.1 as int),
        small_cell(goal),
    ensures
        res matches Some(segs) && longest_path_laws(*grid, cardinal_only, segs_view(segs@)) && exists|tr: Seq<WalkState>|
            #[trigger] walk_run(*grid, start, goal, cardinal_only, tr) && tr.last().done && tr.last().segs == segs_view(
                segs@,
            ),
        res matches Some(segs) ==> cells_open(*grid, start, segs_view(segs@)) && links_apart(segs_view(segs@)),
{
    let w = grid.width;
    let h = grid.height;
    let mut visited: Vec<Vec<bool>> = new_rows(w, h, false);
    let mut back_diag: Vec<Vec<bool>> = new_rows(w, h, false);
    let mut fwd_diag: Vec<Vec<bool>> = new_rows(w, h, false);
    let mut segments: Vec<PathSegment> = Vec::new();
    let mut current_greedy: Vec<Cell> = Vec::new();
    current_greedy.push(start);
    let ghost visited0 = visited@;
    set_at(&mut visited, start.0, start.1, true);
    let mut pos = start;
    proof {
        lemma_set_true(visited0, visited@, start.0, start.1, w as int, h as int);
        lemma_count_bound_shaped(visited@, w as int, h as int);
        let sv = segs_view(segments@);
        assert(sv =~= Seq::<(Seq<Cell>, bool)>::empty());
        assert(greedy_trail(sv) + current_greedy@ =~= seq![start]);
        assert(steps(current_greedy@) =~= Seq::<(Cell, Cell)>::empty());
        assert(greedy_moves(sv) + steps(current_greedy@) =~= Seq::<(Cell, Cell)>::empty());
    }
    let ghost mut tr: Seq<WalkState> = seq![
        WalkState {
            visited: visited@,
            back: back_diag@,
            fwd: fwd_diag@,
            segs: segs_view(segments@),
            cur: current_greedy@,
            pos,
            done: false,
        },
    ];
    proof {
        assert forall|c: Cell| grid.in_bounds(c.0 as int, c.1 as int) implies (#[trigger] flag(visited@, c) == (c == start))
            && !flag(back_diag@, c) && !flag(fwd_diag@, c) by {
            assert(!at(visited0, c.0 as int, c.1 as int));
            assert(!at(back_diag@, c.0 as int, c.1 as int));
            assert(!at(fwd_diag@, c.0 as int, c.1 as int));
        }
        assert(current_greedy@ =~= seq![start]);
        assert(walk_start(*grid, start, tr[0]));
        assert(greedy_trail(segs_view(segments@)) + current_greedy@ =~= seq![start]);
    }
    loop
        invariant
            grid.wf(),
            small_cell(goal),
            w == grid.width,
            h == grid.height,
            walk_inv(*grid, cardinal_only, visited@, back_diag@, fwd_diag@, segs_view(segments@), current_greedy@, pos),
            count_rows(visited@) <= w * h,
            forall|i: int| 0 <= i < segs_view(segments@).len() ==> !(#[trigger] segs_view(segments@)[i]).1,
            forall|i: int|
                0 <= i < (greedy_trail(segs_view(segments@)) + current_greedy@).len() ==> {
                    let c = #[trigger] (greedy_trail(segs_view(segments@)) + current_greedy@)[i];
                    c == start || grid.passable(c.0 as int, c.1 as int)
                },
            walk_run(*grid, start, goal, cardinal_only, tr),
            tr.last() == (WalkState {
                visited: visited@,
                back: back_diag@,
                fwd: fwd_diag@,
                segs: segs_view(segments@),
                cur: current_greedy@,
                pos,
                done: false,
            }),
        decreases w * h - count_rows(visited@),
    {
        let ghost sv = segs_view(segments@);
        let ghost cur = current_greedy@;
        if pos.0 == goal.0 && pos.1 == goal.1 {
            proof {
                lemma_close_segment(*grid, cardinal_only, visited@, back_diag@, fwd_diag@, sv, cur, pos);
            }
            if current_greedy.len() >= 2 {
                let seg = PathSegment { points: current_greedy, is_link: false };
                let ghost segs0 = segments@;
                segments.push(seg);
                proof {
                    lemma_segs_view_push(segs0, seg);
                }
            }
            proof {
                lemma_final_cells(*grid, start, visited@, sv, cur, Seq::<Seq<Cell>>::empty());
                assert(closed_segs(sv, cur) + Seq::<Seq<Cell>>::empty().map_values(|r: Seq<Cell>| (r, true)) =~= segs_view(segments@));
                let t = WalkState { segs: segs_view(segments@), done: true, ..tr.last() };
                assert(walk_step(*grid, goal, cardinal_only, tr.last(), t));
                lemma_run_push(*grid, start, goal, cardinal_only, tr, t);
                tr = tr.push(t);
            }
            return Some(segments);
        }
        let ghost s0 = tr.last();
        let neighbors = greedy_candidates(grid, &visited, &back_diag, &fwd_diag, pos, cardinal_only);
        if neighbors.len() > 0 {
            proof {
                assert forall|i: int| 0 <= i < neighbors@.len() implies small_cell(#[trigger] neighbors@[i]) by {
                    assert(greedy_ok(*grid, visited@, back_diag@, fwd_diag@, pos, neighbors@[i], cardinal_only));
                }
            }
            let idx = pick_furthest(&neighbors, goal);
            let next = neighbors[idx];
            assert(greedy_ok(*grid, visited@, back_diag@, fwd_diag@, pos, next, cardinal_only));
            let ghost v0 = visited@;
            let ghost b0 = back_diag@;
            let ghost f0 = fwd_diag@;
            set_at(&mut visited, next.0, next.1, true);
            proof {
                lemma_set_true(v0, visited@, next.0, next.1, w as int, h as int);
                assert(!at(v0, next.0 as int, next.1 as int));
                lemma_count_rows_set(v0, visited@, next.0 as int, next.1 as int);
                lemma_count_bound_shaped(visited@, w as int, h as int);
            }
            // Record diagonal edge if applicable.
            if next.0 != pos.0 && next.1 != pos.1 {
                let bx = if pos.0 <= next.0 { pos.0 } else { next.0 };
                let by = if pos.1 <= next.1 { pos.1 } else { next.1 };
                let is_backslash = (next.0 > pos.0) == (next.1 > pos.1);
                if is_backslash {
                    set_at(&mut back_diag, bx, by, true);
                    proof {
                        lemma_set_true(b0, back_diag@, bx, by, w as int, h as int);
                    }
                } else {
                    set_at(&mut fwd_diag, bx, by, true);
                    proof {
                        lemma_set_true(f0, fwd_diag@, bx, by, w as int, h as int);
                    }
                }
            }
            proof {
                lemma_greedy_advance(*grid, cardinal_only, v0, b0, f0, visited@, back_diag@, fwd_diag@, sv, cur, pos, next);
            }
            current_greedy.push(next);
            pos = next;
            proof {
                let t = WalkState {
                    visited: visited@,
                    back: back_diag@,
                    fwd: fwd_diag@,
                    segs: segs_view(segments@),
                    cur: current_greedy@,
                    pos,
                    done: false,
                };
                assert(first_furthest(neighbors@, goal, idx as int));
                assert(greedy_trail(sv) + current_greedy@ =~= (greedy_trail(sv) + cur).push(next));
                assert(grid.passable(next.0 as int, next.1 as int));
                assert(stepped_to(*grid, s0, t, neighbors@[idx as int]));
                assert(walk_step(*grid, goal, cardinal_only, s0, t));
                lemma_run_push(*grid, start, goal, cardinal_only, tr, t);
                tr = tr.push(t);
            }
            continue;
        }
        // Stuck. Save current greedy segment.
        let mut finished: Vec<Cell> = Vec::new();
        std::mem::swap(&mut finished, &mut current_greedy);
        if finished.len() >= 2 {
            let seg = PathSegment { points: finished, is_link: false };
            let ghost segs0 = segments@;
            segments.push(seg);
            proof {
                lemma_segs_view_push(segs0, seg);
            }
        }
        let ghost sv1 = segs_view(segments@);
        assert(sv1 == closed_segs(sv, cur));
        // Find nearest unvisited cell reachable through visited cells.
        let link_target = find_nearest_unvisited(grid, pos, goal, visited.as_slice(), cardinal_only);
        match link_target {
            Some((target, link_path)) => {
                proof {
                    lemma_walk_in_bounds(*grid, link_path@, cardinal_only);
                    let trail = greedy_trail(sv) + cur;
                    assert(trail[trail.len() - 1] == pos);
                    assert(flag(visited@, pos));
                    assert forall|i: int| 0 <= i < link_path@.len() - 1 implies flag(visited@, #[trigger] link_path@[i]) by {
                        if i == 0 {
                            assert(link_path@[0] == pos);
                        }
                    }
                    lemma_visited_walk_no_runs(link_path@, visited@);
                }
                add_link_segments(link_path.as_slice(), visited.as_slice(), &mut segments);
                let ghost runs = link_runs(link_path@, visited@);
                let ghost v0 = visited@;
                set_at(&mut visited, target.0, target.1, true);
                proof {
                    lemma_set_true(v0, visited@, target.0, target.1, w as int, h as int);
                    assert(!at(v0, target.0 as int, target.1 as int));
                    lemma_count_rows_set(v0, visited@, target.0 as int, target.1 as int);
                    lemma_count_bound_shaped(visited@, w as int, h as int);
                    lemma_resume_at(*grid, cardinal_only, v0, visited@, back_diag@, fwd_diag@, sv, cur, pos, runs, target);
                }
                current_greedy = Vec::new();
                current_greedy.push(target);
                pos = target;
                assert(current_greedy@ =~= seq![target]);
                proof {
                    let t = WalkState {
                        visited: visited@,
                        back: back_diag@,
                        fwd: fwd_diag@,
                        segs: segs_view(segments@),
                        cur: current_greedy@,
                        pos,
                        done: false,
                    };
                    assert(frontier_choice(*grid, v0, s0.pos, goal, target, link_path@, cardinal_only));
                    assert(search_answer(*grid, v0, s0.pos, goal, cardinal_only, Some((target, link_path@))));
                    let sv2 = segs_view(segments@);
                    assert(sv2 =~= closed_segs(sv, cur));
                    assert forall|i: int| 0 <= i < sv2.len() implies !(#[trigger] sv2[i]).1 by {
                        if i < sv.len() {
                            assert(sv2[i] == sv[i]);
                        }
                    }
                    lemma_closed_trail(sv, cur);
                    let lp = link_path@;
                    assert(lp.len() >= 2 && open_step(*grid, lp[lp.len() - 2], lp[lp.len() - 1], cardinal_only));
                    let t1 = greedy_trail(sv2);
                    assert forall|i: int| 0 <= i < (t1 + current_greedy@).len() implies {
                        let c = #[trigger] (t1 + current_greedy@)[i];
                        c == start || grid.passable(c.0 as int, c.1 as int)
                    } by {
                        if i < t1.len() {
                            assert(t1[i] == (greedy_trail(sv) + cur)[i]);
                        } else {
                            assert((t1 + current_greedy@)[i] == target);
                        }
                    }
                    assert(linked_to(*grid, s0, t, target, link_path@));
                    assert(walk_step(*grid, goal, cardinal_only, s0, t));
                    lemma_run_push(*grid, start, goal, cardinal_only, tr, t);
                    tr = tr.push(t);
                }
            },
            None => {
                // No unvisited cells reachable. Try to link directly to goal.
                proof {
                    lemma_close_segment(*grid, cardinal_only, visited@, back_diag@, fwd_diag@, sv, cur, pos);
                }
                let result = find_path(grid, pos, goal, cardinal_only);
                match result {
                    Some(link_path) => {
                        proof {
                            assert(open_walk(*grid, link_path@, cardinal_only)) by {
                                assert forall|i: int| 0 <= i < link_path@.len() - 1 implies open_step(*grid, #[trigger] link_path@[i], link_path@[i + 1], cardinal_only) by {
                                    assert(legal_step(*grid, link_path@[i], link_path@[i + 1], cardinal_only));
                                }
                            }
                            lemma_walk_in_bounds(*grid, link_path@, cardinal_only);
                            lemma_link_runs_walk(*grid, link_path@, visited@, cardinal_only);
                            let sv_closed = closed_segs(sv, cur);
                            assert forall|i: int| 0 <= i < greedy_trail(sv_closed).len() implies flag(visited@, #[trigger] greedy_trail(sv_closed)[i]) by {
                                assert(grid.in_bounds(greedy_trail(sv_closed)[i].0 as int, greedy_trail(sv_closed)[i].1 as int) && flag(visited@, greedy_trail(sv_closed)[i]));
                            }
                            lemma_add_links(*grid, cardinal_only, visited@, sv1, link_runs(link_path@, visited@));
                            let trail = greedy_trail(sv) + cur;
                            assert(trail[trail.len() - 1] == pos);
                            assert(flag(visited@, pos));
                            lemma_path_runs(*grid, link_path@, visited@, cardinal_only);
                            lemma_final_cells(*grid, start, visited@, sv, cur, link_runs(link_path@, visited@));
                        }
                        add_link_segments(link_path.as_slice(), visited.as_slice(), &mut segments);
                    },
                    None => {
                        proof {
                            lemma_final_cells(*grid, start, visited@, sv, cur, Seq::<Seq<Cell>>::empty());
                            assert(closed_segs(sv, cur) + Seq::<Seq<Cell>>::empty().map_values(|r: Seq<Cell>| (r, true))
                                =~= segs_view(segments@));
                        }
                    },
                }
                proof {
                    let t = WalkState { segs: segs_view(segments@), done: true, ..s0 };
                    assert(walk_step(*grid, goal, cardinal_only, s0, t));
                    lemma_run_push(*grid, start, goal, cardinal_only, tr, t);
                    tr = tr.push(t);
                }
                return Some(segments);
            },
        }
    }
}

proof fn lemma_segs_view_push(v: Seq<PathSegment>, s: PathSegment)
    ensures
        segs_view(v.push(s)) == segs_view(v).push((s.points@, s.is_link)),
{
    assert(segs_view(v.push(s)) =~= segs_view(v).push((s.points@, s.is_link)));
}

proof fn lemma_runs_view_push(done: Seq<Seq<Cell>>, run: Seq<Cell>)
    ensures
        done.push(run).map_values(|r: Seq<Cell>| (r, true)) == done.map_values(|r: Seq<Cell>| (r, true)).push(
            (run, true),
        ),
{
    assert(done.push(run).map_values(|r: Seq<Cell>| (r, true)) =~= done.map_values(|r: Seq<Cell>| (r, true)).push(
        (run, true),
    ));
}

} // verus!
