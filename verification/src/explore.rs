use vstd::prelude::*;
use std::collections::VecDeque;
use crate::grid::{
    at, count_rows, lemma_count_rows_all_false, lemma_count_rows_bound, lemma_count_rows_set, new_rows, set_at,
    shaped, Cell, Grid,
};
use crate::moves::{dist2, first_furthest, lemma_offset_direction, open_step, open_walk, pick_furthest, small_cell, toward};

verus! {

/// The entry of `rows` for cell `c`.
pub open spec fn flag<T>(rows: Seq<Vec<T>>, c: Cell) -> T {
    at(rows, c.0 as int, c.1 as int)
}

/// The search may pass through `c`: it is the starting cell or already visited.
pub open spec fn expandable(visited: Seq<Vec<bool>>, pos: Cell, c: Cell) -> bool {
    c == pos || flag(visited, c)
}

/// `p` starts at `pos`, takes open steps, and every cell strictly inside it
/// is visited.
pub open spec fn walk_through_visited(
    g: Grid,
    visited: Seq<Vec<bool>>,
    pos: Cell,
    p: Seq<Cell>,
    cardinal_only: bool,
) -> bool {
    &&& p.len() >= 1
    &&& p[0] == pos
    &&& open_walk(g, p, cardinal_only)
    &&& forall|i: int| 0 < i < p.len() - 1 ==> flag(visited, #[trigger] p[i])
}

/// An unvisited cell, other than `pos`, that a walk through visited cells
/// reaches from `pos`: the cells the unvisited-cell search can find.
pub open spec fn frontier_cell(
    g: Grid,
    visited: Seq<Vec<bool>>,
    pos: Cell,
    c: Cell,
    cardinal_only: bool,
) -> bool {
    &&& c != pos
    &&& g.in_bounds(c.0 as int, c.1 as int)
    &&& !flag(visited, c)
    &&& exists|p: Seq<Cell>| #[trigger] walk_through_visited(g, visited, pos, p, cardinal_only) && p.last() == c
}

/// What the unvisited-cell search may answer: a frontier cell `t` furthest
/// from `goal` among all frontier cells and, among the equally far ones, one
/// nearest to `pos`, with a shortest walk `path` through visited cells from
/// `pos` to it.
pub open spec fn frontier_choice(
    g: Grid,
    visited: Seq<Vec<bool>>,
    pos: Cell,
    goal: Cell,
    t: Cell,
    path: Seq<Cell>,
    cardinal_only: bool,
) -> bool {
    &&& frontier_cell(g, visited, pos, t, cardinal_only)
    &&& walk_through_visited(g, visited, pos, path, cardinal_only)
    &&& path.last() == t
    &&& forall|c: Cell| #[trigger] frontier_cell(g, visited, pos, c, cardinal_only) ==> dist2(c, goal) <= dist2(t, goal)
    &&& forall|p: Seq<Cell>|
        #[trigger] walk_through_visited(g, visited, pos, p, cardinal_only) && p.last() == t ==> path.len() <= p.len()
    &&& forall|p: Seq<Cell>|
        #[trigger] walk_through_visited(g, visited, pos, p, cardinal_only) && frontier_cell(g, visited, pos, p.last(), cardinal_only)
            && dist2(p.last(), goal) == dist2(t, goal) ==> path.len() <= p.len()
}

/// The unvisited-cell search between two of its steps: the cells seen, the
/// cell each seen cell was reached from, the queue of cells to search, and
/// the unvisited cells found so far, in the order found.
pub struct SearchState {
    pub seen: Set<Cell>,
    pub parent: Map<Cell, Cell>,
    pub queue: Seq<Cell>,
    pub cands: Seq<Cell>,
}

/// The search's first state: `pos` seen and queued.
pub open spec fn search_start(pos: Cell) -> SearchState {
    SearchState { seen: set![pos], parent: Map::empty(), queue: seq![pos], cands: Seq::empty() }
}

/// Expanding `c` over directions `0..k`, in direction order: each open step
/// to a cell not yet seen marks it seen, records `c` as its parent and queues it.
pub open spec fn expand_upto(g: Grid, cardinal_only: bool, c: Cell, s: SearchState, k: int) -> SearchState
    decreases k,
{
    if k <= 0 {
        s
    } else {
        let t = expand_upto(g, cardinal_only, c, s, k - 1);
        match toward(c, k - 1) {
            Some(n) => if open_step(g, c, n, cardinal_only) && !t.seen.contains(n) {
                SearchState { seen: t.seen.insert(n), parent: t.parent.insert(n, c), queue: t.queue.push(n), cands: t.cands }
            } else {
                t
            },
            None => t,
        }
    }
}

/// One step of the search: the first queued cell is taken off the queue; an
/// unvisited cell other than `pos` is a find, any other is expanded.
pub open spec fn search_next(g: Grid, visited: Seq<Vec<bool>>, pos: Cell, cardinal_only: bool, s: SearchState) -> SearchState {
    let c = s.queue[0];
    let rest = SearchState { queue: s.queue.drop_first(), ..s };
    if c != pos && !flag(visited, c) {
        SearchState { cands: s.cands.push(c), ..rest }
    } else {
        expand_upto(g, cardinal_only, c, rest, 9)
    }
}

/// `t` follows `s` by one step of the search, taken while the queue is not empty.
pub open spec fn search_step(g: Grid, visited: Seq<Vec<bool>>, pos: Cell, cardinal_only: bool, s: SearchState, t: SearchState) -> bool {
    s.queue.len() > 0 && t == search_next(g, visited, pos, cardinal_only, s)
}

/// `tr` is a run of the search from `pos`: it starts the search and each
/// state is the step after the one before it, taken while the queue is not empty.
pub open spec fn search_run(g: Grid, visited: Seq<Vec<bool>>, pos: Cell, cardinal_only: bool, tr: Seq<SearchState>) -> bool {
    &&& tr.len() >= 1
    &&& tr[0] == search_start(pos)
    &&& forall|i: int, j: int|
        0 <= i && j == i + 1 && j < tr.len() ==> search_step(g, visited, pos, cardinal_only, #[trigger] tr[i], #[trigger] tr[j])
}

/// `path` runs from `pos` along recorded parents: each cell after the first
/// is not `pos`, and was reached from the cell before it.
pub open spec fn follows_parents(parent: Map<Cell, Cell>, pos: Cell, path: Seq<Cell>) -> bool {
    &&& path.len() >= 1
    &&& path[0] == pos
    &&& forall|i: int| 0 < i < path.len() ==> #[trigger] path[i] != pos && parent.contains_key(path[i]) && parent[path[i]] == path[i - 1]
}

/// The search's answer: the run until the queue is empty; with no find,
/// `None`; otherwise the first find furthest from `goal`, with the walk
/// along recorded parents from `pos` to it.
pub open spec fn search_answer(
    g: Grid,
    visited: Seq<Vec<bool>>,
    pos: Cell,
    goal: Cell,
    cardinal_only: bool,
    res: Option<(Cell, Seq<Cell>)>,
) -> bool {
    exists|tr: Seq<SearchState>|
        #[trigger] search_run(g, visited, pos, cardinal_only, tr) && tr.last().queue.len() == 0 && match res {
            None => tr.last().cands.len() == 0,
            Some((t, path)) => {
                &&& exists|i: int| #[trigger] first_furthest(tr.last().cands, goal, i) && tr.last().cands[i] == t
                &&& follows_parents(tr.last().parent, pos, path)
                &&& path.last() == t
            },
        }
}

/// The search's grids, queue and finds match the state `s`.
spec fn mirrors(
    g: Grid,
    seen: Seq<Vec<bool>>,
    parent: Seq<Vec<Option<Cell>>>,
    queue: Seq<Cell>,
    cands: Seq<Cell>,
    s: SearchState,
) -> bool {
    &&& forall|c: Cell| g.in_bounds(c.0 as int, c.1 as int) ==> (#[trigger] flag(seen, c) <==> s.seen.contains(c))
    &&& forall|c: Cell|
        g.in_bounds(c.0 as int, c.1 as int) ==> #[trigger] flag(parent, c) == if s.parent.contains_key(c) {
            Some(s.parent[c])
        } else {
            None
        }
    &&& queue == s.queue
    &&& cands == s.cands
}

/// Setting one entry of a rectangular array of rows changes only that cell's entry.
proof fn lemma_set_flag<T>(rows0: Seq<Vec<T>>, rows1: Seq<Vec<T>>, x: usize, y: usize, v: T, w: int, h: int)
    requires
        shaped(rows0, w, h),
        0 <= x < w,
        0 <= y < h,
        rows1.len() == rows0.len(),
        forall|j: int| 0 <= j < rows0.len() && j != y ==> #[trigger] rows1[j] == rows0[j],
        rows1[y as int]@ == rows0[y as int]@.update(x as int, v),
    ensures
        forall|c: Cell| 0 <= c.0 < w && 0 <= c.1 < h ==> #[trigger] flag(rows1, c) == if c == (x, y) { v } else { flag(rows0, c) },
{
    assert forall|c: Cell| 0 <= c.0 < w && 0 <= c.1 < h implies #[trigger] flag(rows1, c) == if c == (x, y) { v } else { flag(rows0, c) } by {
        if c.1 != y {
            assert(rows1[c.1 as int] == rows0[c.1 as int]);
        }
    }
}

/// A run that takes one more step is still a run.
proof fn lemma_search_push(g: Grid, visited: Seq<Vec<bool>>, pos: Cell, cardinal_only: bool, tr: Seq<SearchState>)
    requires
        search_run(g, visited, pos, cardinal_only, tr),
        tr.last().queue.len() > 0,
    ensures
        search_run(g, visited, pos, cardinal_only, tr.push(search_next(g, visited, pos, cardinal_only, tr.last()))),
{
    let t = search_next(g, visited, pos, cardinal_only, tr.last());
    let tr2 = tr.push(t);
    assert(tr2[0] == tr[0]);
    assert forall|i: int, j: int| 0 <= i && j == i + 1 && j < tr2.len() implies search_step(g, visited, pos, cardinal_only, #[trigger] tr2[i], #[trigger] tr2[j]) by {
        assert(tr2[i] == tr[i]);
        if j < tr.len() {
            assert(tr2[j] == tr[j]);
        } else {
            assert(tr2[j] == t);
        }
    }
}

/// What the breadth-first search keeps true, apart from the expansion of searched cells.
spec fn search_frame(
    g: Grid,
    visited: Seq<Vec<bool>>,
    pos: Cell,
    cardinal_only: bool,
    seen: Seq<Vec<bool>>,
    parent: Seq<Vec<Option<Cell>>>,
    queue: Seq<Cell>,
    closed: Set<Cell>,
    depth: Map<Cell, nat>,
    cands: Seq<Cell>,
) -> bool {
    let w = g.width as int;
    let h = g.height as int;
    &&& shaped(seen, w, h)
    &&& shaped(parent, w, h)
    &&& flag(seen, pos)
    &&& flag(parent, pos) is None
    &&& depth.contains_key(pos)
    &&& depth[pos] == 0
    &&& forall|i: int| 0 <= i < queue.len() ==> g.in_bounds((#[trigger] queue[i]).0 as int, queue[i].1 as int) && flag(seen, queue[i])
    &&& forall|c: Cell| #[trigger] closed.contains(c) ==> g.in_bounds(c.0 as int, c.1 as int) && flag(seen, c)
    &&& forall|c: Cell|
        g.in_bounds(c.0 as int, c.1 as int) && #[trigger] flag(seen, c) ==> closed.contains(c) || queue.contains(c)
    &&& forall|c: Cell|
        #[trigger] closed.contains(c) && !expandable(visited, pos, c) ==> cands.contains(c)
    &&& forall|i: int| 0 <= i < cands.len() ==> {
        &&& g.in_bounds((#[trigger] cands[i]).0 as int, cands[i].1 as int)
        &&& flag(seen, cands[i])
        &&& !expandable(visited, pos, cands[i])
    }
    &&& forall|c: Cell|
        g.in_bounds(c.0 as int, c.1 as int) && #[trigger] flag(seen, c) && c != pos ==> parent_ok(g, visited, pos, cardinal_only, parent, closed, depth, c)
}

/// Every searched cell the search may pass through has all its open steps seen.
spec fn expanded(
    g: Grid,
    visited: Seq<Vec<bool>>,
    pos: Cell,
    cardinal_only: bool,
    seen: Seq<Vec<bool>>,
    closed: Set<Cell>,
) -> bool {
    forall|c: Cell, n: Cell|
        #[trigger] closed.contains(c) && expandable(visited, pos, c) && #[trigger] open_step(g, c, n, cardinal_only) ==> flag(seen, n)
}

/// Breadth-first order: the queue's depths never decrease and lie in
/// `level ..= level + 1`, and every seen cell has a depth of at most `level + 1`.
spec fn bfs_layers(g: Grid, seen: Seq<Vec<bool>>, queue: Seq<Cell>, depth: Map<Cell, nat>, level: int) -> bool {
    &&& forall|i: int, j: int| 0 <= i <= j < queue.len() ==> depth[#[trigger] queue[i]] <= depth[#[trigger] queue[j]]
    &&& forall|i: int| 0 <= i < queue.len() ==> level <= depth[#[trigger] queue[i]]
    &&& forall|c: Cell|
        g.in_bounds(c.0 as int, c.1 as int) && #[trigger] flag(seen, c) ==> depth.contains_key(c) && depth[c] <= level + 1
}

/// The open steps of every searched cell the search may pass through lie at most one level deeper.
spec fn expanded_depth(
    g: Grid,
    visited: Seq<Vec<bool>>,
    pos: Cell,
    cardinal_only: bool,
    closed: Set<Cell>,
    depth: Map<Cell, nat>,
) -> bool {
    forall|c: Cell, n: Cell|
        #[trigger] closed.contains(c) && expandable(visited, pos, c) && #[trigger] open_step(g, c, n, cardinal_only) ==> depth.contains_key(n)
            && depth.contains_key(c) && depth[n] <= depth[c] + 1
}

/// As `expanded_depth`, for every searched cell but `c0`.
spec fn expanded_depth_except(
    g: Grid,
    visited: Seq<Vec<bool>>,
    pos: Cell,
    cardinal_only: bool,
    closed: Set<Cell>,
    depth: Map<Cell, nat>,
    c0: Cell,
) -> bool {
    forall|c: Cell, n: Cell|
        #[trigger] closed.contains(c) && c != c0 && expandable(visited, pos, c) && #[trigger] open_step(g, c, n, cardinal_only)
            ==> depth.contains_key(n) && depth.contains_key(c) && depth[n] <= depth[c] + 1
}

/// `c` was reached from a searched cell one step away, one level deeper.
spec fn parent_ok(
    g: Grid,
    visited: Seq<Vec<bool>>,
    pos: Cell,
    cardinal_only: bool,
    parent: Seq<Vec<Option<Cell>>>,
    closed: Set<Cell>,
    depth: Map<Cell, nat>,
    c: Cell,
) -> bool {
    match flag(parent, c) {
        Some(p) => {
            &&& closed.contains(p)
            &&& expandable(visited, pos, p)
            &&& open_step(g, p, c, cardinal_only)
            &&& depth.contains_key(c)
            &&& depth.contains_key(p)
            &&& depth[c] == depth[p] + 1
        },
        None => false,
    }
}

/// The cells of `v` in reverse order.
pub fn reversed(v: &Vec<Cell>) -> (res: Vec<Cell>)
    ensures
        res@ == v@.reverse(),
{
    let mut res: Vec<Cell> = Vec::new();
    let mut i: usize = v.len();
    while i > 0
        invariant
            i <= v@.len(),
            res@ == v@.subrange(i as int, v@.len() as int).reverse(),
        decreases i,
    {
        i -= 1;
        res.push(v[i]);
        assert(res@ =~= v@.subrange(i as int, v@.len() as int).reverse());
    }
    assert(v@.subrange(0, v@.len() as int) =~= v@);
    res
}

/// After a newly seen cell `n` is pushed with parent `c`, the search frame still holds.
proof fn lemma_frame_after_push(
    g: Grid,
    visited: Seq<Vec<bool>>,
    pos: Cell,
    cardinal_only: bool,
    seen0: Seq<Vec<bool>>,
    seen: Seq<Vec<bool>>,
    parent0: Seq<Vec<Option<Cell>>>,
    parent: Seq<Vec<Option<Cell>>>,
    queue0: Seq<Cell>,
    queue: Seq<Cell>,
    closed: Set<Cell>,
    depth0: Map<Cell, nat>,
    depth: Map<Cell, nat>,
    cands: Seq<Cell>,
    c: Cell,
    n: Cell,
)
    requires
        search_frame(g, visited, pos, cardinal_only, seen0, parent0, queue0, closed, depth0, cands),
        g.in_bounds(pos.0 as int, pos.1 as int),
        closed.contains(c),
        expandable(visited, pos, c),
        open_step(g, c, n, cardinal_only),
        !flag(seen0, n),
        seen.len() == seen0.len(),
        forall|j: int| 0 <= j < seen0.len() && j != n.1 ==> #[trigger] seen[j] == seen0[j],
        seen[n.1 as int]@ == seen0[n.1 as int]@.update(n.0 as int, true),
        parent.len() == parent0.len(),
        forall|j: int| 0 <= j < parent0.len() && j != n.1 ==> #[trigger] parent[j] == parent0[j],
        parent[n.1 as int]@ == parent0[n.1 as int]@.update(n.0 as int, Some(c)),
        queue == queue0.push(n),
        depth == depth0.insert(n, (depth0[c] + 1) as nat),
    ensures
        search_frame(g, visited, pos, cardinal_only, seen, parent, queue, closed, depth, cands),
        forall|d: Cell| g.in_bounds(d.0 as int, d.1 as int) && #[trigger] flag(seen0, d) ==> flag(seen, d),
        flag(seen, n),
        forall|d: Cell| #[trigger] depth0.contains_key(d) && d != n ==> depth.contains_key(d) && depth[d] == depth0[d],
{
    assert forall|d: Cell| g.in_bounds(d.0 as int, d.1 as int) && #[trigger] flag(seen0, d) implies flag(seen, d) by {
        if d.1 == n.1 {
            assert(seen[n.1 as int]@[d.0 as int] == seen0[n.1 as int]@.update(n.0 as int, true)[d.0 as int]);
        }
    }
    assert forall|d: Cell| d != n && g.in_bounds(d.0 as int, d.1 as int) implies flag(seen, d) == flag(seen0, d) && flag(parent, d) == flag(parent0, d) by {
        if d.1 == n.1 {
            assert(seen[n.1 as int]@[d.0 as int] == seen0[n.1 as int]@.update(n.0 as int, true)[d.0 as int]);
            assert(parent[n.1 as int]@[d.0 as int] == parent0[n.1 as int]@.update(n.0 as int, Some(c))[d.0 as int]);
        }
    }
    assert(flag(seen, n));
    assert(flag(parent, n) == Some(c));
    assert(n != pos);
    assert(flag(seen, pos));
    assert(flag(parent, pos) is None);
    assert(depth.contains_key(pos) && depth[pos] == 0);
    assert forall|d: Cell| #[trigger] closed.contains(d) implies g.in_bounds(d.0 as int, d.1 as int) && flag(seen, d) by {
        assert(flag(seen0, d));
    }
    assert forall|d: Cell| #[trigger] closed.contains(d) && !expandable(visited, pos, d) implies cands.contains(d) by {
    }
    assert forall|i: int| 0 <= i < cands.len() implies {
        &&& g.in_bounds((#[trigger] cands[i]).0 as int, cands[i].1 as int)
        &&& flag(seen, cands[i])
        &&& !expandable(visited, pos, cands[i])
    } by {
        assert(flag(seen0, cands[i]));
    }
    assert forall|j: int| 0 <= j < seen.len() implies (#[trigger] seen[j])@.len() == g.width by {
        if j != n.1 {
            assert(seen[j] == seen0[j]);
        }
    }
    assert forall|j: int| 0 <= j < parent.len() implies (#[trigger] parent[j])@.len() == g.width by {
        if j != n.1 {
            assert(parent[j] == parent0[j]);
        }
    }
    assert forall|i: int| 0 <= i < queue.len() implies g.in_bounds((#[trigger] queue[i]).0 as int, queue[i].1 as int) && flag(seen, queue[i]) by {
        if i < queue0.len() {
            assert(queue[i] == queue0[i]);
        }
    }
    assert forall|d: Cell| g.in_bounds(d.0 as int, d.1 as int) && #[trigger] flag(seen, d) implies closed.contains(d) || queue.contains(d) by {
        if d == n {
            assert(queue[queue.len() - 1] == n);
        } else if queue0.contains(d) {
            let i = choose|i: int| 0 <= i < queue0.len() && queue0[i] == d;
            assert(queue[i] == d);
        }
    }
    assert forall|d: Cell|
        g.in_bounds(d.0 as int, d.1 as int) && #[trigger] flag(seen, d) && d != pos implies parent_ok(g, visited, pos, cardinal_only, parent, closed, depth, d) by {
        if d != n {
            assert(parent_ok(g, visited, pos, cardinal_only, parent0, closed, depth0, d));
            let p = flag(parent0, d)->0;
            assert(flag(seen0, p));
            assert(p != n);
        } else {
            assert(depth0.contains_key(c)) by {
                if c != pos {
                    assert(parent_ok(g, visited, pos, cardinal_only, parent0, closed, depth0, c));
                }
            }
        }
    }
}

/// Pushing a newly seen cell `n`, one level below the cell `c` being
/// expanded at level `dc`, keeps the breadth-first order and the depth bounds.
proof fn lemma_layers_after_push(
    g: Grid,
    visited: Seq<Vec<bool>>,
    pos: Cell,
    cardinal_only: bool,
    seen0: Seq<Vec<bool>>,
    seen: Seq<Vec<bool>>,
    queue0: Seq<Cell>,
    queue: Seq<Cell>,
    closed: Set<Cell>,
    depth0: Map<Cell, nat>,
    depth: Map<Cell, nat>,
    c: Cell,
    n: Cell,
    dc: int,
)
    requires
        bfs_layers(g, seen0, queue0, depth0, dc),
        expanded_depth_except(g, visited, pos, cardinal_only, closed, depth0, c),
        expanded_except(g, visited, pos, cardinal_only, seen0, closed, c),
        closed.contains(c),
        depth0.contains_key(c),
        depth0[c] == dc,
        g.in_bounds(n.0 as int, n.1 as int),
        !flag(seen0, n),
        flag(seen, n),
        forall|d: Cell| g.in_bounds(d.0 as int, d.1 as int) && d != n ==> #[trigger] flag(seen, d) == flag(seen0, d),
        forall|i: int| 0 <= i < queue0.len() ==> g.in_bounds((#[trigger] queue0[i]).0 as int, queue0[i].1 as int) && flag(seen0, queue0[i]),
        forall|c2: Cell| #[trigger] closed.contains(c2) ==> g.in_bounds(c2.0 as int, c2.1 as int) && flag(seen0, c2),
        queue == queue0.push(n),
        depth == depth0.insert(n, (dc + 1) as nat),
    ensures
        bfs_layers(g, seen, queue, depth, dc),
        expanded_depth_except(g, visited, pos, cardinal_only, closed, depth, c),
        depth.contains_key(c),
        depth[c] == dc,
{
    assert(flag(seen0, c));
    assert forall|i: int| 0 <= i < queue0.len() implies #[trigger] queue0[i] != n by {
        assert(flag(seen0, queue0[i]));
    }
    assert forall|i: int, j: int| 0 <= i <= j < queue.len() implies depth[#[trigger] queue[i]] <= depth[#[trigger] queue[j]] by {
        if j < queue0.len() {
            assert(queue[i] == queue0[i] && queue[j] == queue0[j]);
        } else {
            assert(queue[j] == n);
            if i < queue0.len() {
                assert(queue[i] == queue0[i]);
                assert(depth0[queue0[i]] <= dc + 1);
            }
        }
    }
    assert forall|i: int| 0 <= i < queue.len() implies dc <= depth[#[trigger] queue[i]] by {
        if i < queue0.len() {
            assert(queue[i] == queue0[i]);
        }
    }
    assert forall|d: Cell| g.in_bounds(d.0 as int, d.1 as int) && #[trigger] flag(seen, d) implies depth.contains_key(d) && depth[d] <= dc + 1 by {
        if d != n {
            assert(flag(seen0, d));
        }
    }
    assert forall|d: Cell, m: Cell|
        #[trigger] closed.contains(d) && d != c && expandable(visited, pos, d) && #[trigger] open_step(g, d, m, cardinal_only)
            implies depth.contains_key(m) && depth.contains_key(d) && depth[m] <= depth[d] + 1 by {
        assert(depth0.contains_key(m) && depth0.contains_key(d));
        assert(flag(seen0, d));
        if m == n {
            assert(flag(seen0, n));
        }
    }
}

/// Every cell of a walk through visited cells is seen once the search is done.
proof fn lemma_walk_seen(
    g: Grid,
    visited: Seq<Vec<bool>>,
    pos: Cell,
    cardinal_only: bool,
    seen: Seq<Vec<bool>>,
    parent: Seq<Vec<Option<Cell>>>,
    closed: Set<Cell>,
    depth: Map<Cell, nat>,
    cands: Seq<Cell>,
    p: Seq<Cell>,
)
    requires
        search_frame(g, visited, pos, cardinal_only, seen, parent, Seq::empty(), closed, depth, cands),
        expanded(g, visited, pos, cardinal_only, seen, closed),
        g.in_bounds(pos.0 as int, pos.1 as int),
        walk_through_visited(g, visited, pos, p, cardinal_only),
        expanded_depth(g, visited, pos, cardinal_only, closed, depth),
    ensures
        flag(seen, p.last()),
        g.in_bounds(p.last().0 as int, p.last().1 as int),
        depth.contains_key(p.last()),
        depth[p.last()] <= p.len() - 1,
    decreases p.len(),
{
    if p.len() > 1 {
        let q = p.drop_last();
        assert(walk_through_visited(g, visited, pos, q, cardinal_only)) by {
            assert forall|i: int| 0 <= i < q.len() - 1 implies open_step(g, #[trigger] q[i], q[i + 1], cardinal_only) by {
                assert(q[i] == p[i] && q[i + 1] == p[i + 1]);
            }
            assert forall|i: int| 0 < i < q.len() - 1 implies flag(visited, #[trigger] q[i]) by {
                assert(q[i] == p[i]);
            }
        }
        lemma_walk_seen(g, visited, pos, cardinal_only, seen, parent, closed, depth, cands, q);
        let prev = p[p.len() - 2];
        assert(q.last() == prev);
        assert(closed.contains(prev) || Seq::<Cell>::empty().contains(prev));
        assert(expandable(visited, pos, prev)) by {
            if p.len() - 2 > 0 {
                assert(flag(visited, p[p.len() - 2]));
            }
        }
        assert(open_step(g, p[p.len() - 2], p[p.len() - 1], cardinal_only));
    } else {
        assert(p.last() == pos);
    }
}

/// A searched cell, other than `c`, that the search may pass through has all its open steps seen.
spec fn expanded_except(
    g: Grid,
    visited: Seq<Vec<bool>>,
    pos: Cell,
    cardinal_only: bool,
    seen: Seq<Vec<bool>>,
    closed: Set<Cell>,
    c: Cell,
) -> bool {
    forall|d: Cell, n: Cell|
        #[trigger] closed.contains(d) && d != c && expandable(visited, pos, d) && #[trigger] open_step(g, d, n, cardinal_only) ==> flag(seen, n)
}

proof fn lemma_pop_candidate(
    g: Grid,
    visited: Seq<Vec<bool>>,
    pos: Cell,
    cardinal_only: bool,
    seen: Seq<Vec<bool>>,
    parent: Seq<Vec<Option<Cell>>>,
    q0: Seq<Cell>,
    closed: Set<Cell>,
    depth: Map<Cell, nat>,
    cands: Seq<Cell>,
    level: int,
)
    requires
        search_frame(g, visited, pos, cardinal_only, seen, parent, q0, closed, depth, cands),
        expanded(g, visited, pos, cardinal_only, seen, closed),
        q0.len() > 0,
        !expandable(visited, pos, q0[0]),
        bfs_layers(g, seen, q0, depth, level),
        expanded_depth(g, visited, pos, cardinal_only, closed, depth),
    ensures
        search_frame(g, visited, pos, cardinal_only, seen, parent, q0.drop_first(), closed.insert(q0[0]), depth, cands.push(q0[0])),
        expanded(g, visited, pos, cardinal_only, seen, closed.insert(q0[0])),
        depth.contains_key(q0[0]),
        level <= depth[q0[0]],
        bfs_layers(g, seen, q0.drop_first(), depth, depth[q0[0]] as int),
        expanded_depth(g, visited, pos, cardinal_only, closed.insert(q0[0]), depth),
{
    assert(flag(seen, q0[0]) && g.in_bounds(q0[0].0 as int, q0[0].1 as int));
    assert forall|i: int| 0 <= i < q0.drop_first().len() implies depth[q0[0]] <= depth[#[trigger] q0.drop_first()[i]] by {
        assert(q0.drop_first()[i] == q0[i + 1]);
        assert(depth[q0[0]] <= depth[q0[i + 1]]);
    }
    assert forall|i: int, j: int| 0 <= i <= j < q0.drop_first().len() implies depth[#[trigger] q0.drop_first()[i]] <= depth[#[trigger] q0.drop_first()[j]] by {
        assert(q0.drop_first()[i] == q0[i + 1] && q0.drop_first()[j] == q0[j + 1]);
    }
    assert forall|i: int| 0 <= i < q0.drop_first().len() implies level <= depth[#[trigger] q0.drop_first()[i]] by {
        assert(q0.drop_first()[i] == q0[i + 1]);
    }
    let c = q0[0];
    let q = q0.drop_first();
    let closed1 = closed.insert(c);
    let cands1 = cands.push(c);
    assert forall|d: Cell| g.in_bounds(d.0 as int, d.1 as int) && #[trigger] flag(seen, d) implies closed1.contains(d) || q.contains(d) by {
        if q0.contains(d) && d != c {
            let i = choose|i: int| 0 <= i < q0.len() && q0[i] == d;
            assert(q[i - 1] == d);
        }
    }
    assert forall|i: int| 0 <= i < q.len() implies g.in_bounds((#[trigger] q[i]).0 as int, q[i].1 as int) && flag(seen, q[i]) by {
        assert(q[i] == q0[i + 1]);
    }
    assert forall|d: Cell| #[trigger] closed1.contains(d) && !expandable(visited, pos, d) implies cands1.contains(d) by {
        if d == c {
            assert(cands1[cands1.len() - 1] == c);
        } else {
            let j = choose|j: int| 0 <= j < cands.len() && cands[j] == d;
            assert(cands1[j] == d);
        }
    }
    assert forall|i: int| 0 <= i < cands1.len() implies {
        &&& g.in_bounds((#[trigger] cands1[i]).0 as int, cands1[i].1 as int)
        &&& flag(seen, cands1[i])
        &&& !expandable(visited, pos, cands1[i])
    } by {
        if i < cands.len() {
            assert(cands1[i] == cands[i]);
        } else {
            assert(cands1[i] == q0[0]);
        }
    }
    assert(g.in_bounds(c.0 as int, c.1 as int) && flag(seen, c));
}

proof fn lemma_pop_expand(
    g: Grid,
    visited: Seq<Vec<bool>>,
    pos: Cell,
    cardinal_only: bool,
    seen: Seq<Vec<bool>>,
    parent: Seq<Vec<Option<Cell>>>,
    q0: Seq<Cell>,
    closed: Set<Cell>,
    depth: Map<Cell, nat>,
    cands: Seq<Cell>,
    level: int,
)
    requires
        search_frame(g, visited, pos, cardinal_only, seen, parent, q0, closed, depth, cands),
        expanded(g, visited, pos, cardinal_only, seen, closed),
        q0.len() > 0,
        expandable(visited, pos, q0[0]),
        bfs_layers(g, seen, q0, depth, level),
        expanded_depth(g, visited, pos, cardinal_only, closed, depth),
    ensures
        search_frame(g, visited, pos, cardinal_only, seen, parent, q0.drop_first(), closed.insert(q0[0]), depth, cands),
        expanded_except(g, visited, pos, cardinal_only, seen, closed.insert(q0[0]), q0[0]),
        g.in_bounds(q0[0].0 as int, q0[0].1 as int),
        depth.contains_key(q0[0]),
        level <= depth[q0[0]],
        bfs_layers(g, seen, q0.drop_first(), depth, depth[q0[0]] as int),
        expanded_depth_except(g, visited, pos, cardinal_only, closed.insert(q0[0]), depth, q0[0]),
{
    assert(depth[q0[0]] >= level);
    assert forall|i: int, j: int| 0 <= i <= j < q0.drop_first().len() implies depth[#[trigger] q0.drop_first()[i]] <= depth[#[trigger] q0.drop_first()[j]] by {
        assert(q0.drop_first()[i] == q0[i + 1] && q0.drop_first()[j] == q0[j + 1]);
    }
    assert forall|i: int| 0 <= i < q0.drop_first().len() implies depth[q0[0]] <= depth[#[trigger] q0.drop_first()[i]] by {
        assert(q0.drop_first()[i] == q0[i + 1]);
        assert(depth[q0[0]] <= depth[q0[i + 1]]);
    }
    assert(flag(seen, q0[0]) && g.in_bounds(q0[0].0 as int, q0[0].1 as int));
    let c = q0[0];
    let q = q0.drop_first();
    let closed1 = closed.insert(c);
    assert forall|d: Cell| g.in_bounds(d.0 as int, d.1 as int) && #[trigger] flag(seen, d) implies closed1.contains(d) || q.contains(d) by {
        if q0.contains(d) && d != c {
            let i = choose|i: int| 0 <= i < q0.len() && q0[i] == d;
            assert(q[i - 1] == d);
        }
    }
    assert forall|i: int| 0 <= i < q.len() implies g.in_bounds((#[trigger] q[i]).0 as int, q[i].1 as int) && flag(seen, q[i]) by {
        assert(q[i] == q0[i + 1]);
    }
    assert(g.in_bounds(c.0 as int, c.1 as int) && flag(seen, c));
}

/// Marks every unseen open step of `c` as seen, with parent `c`, and queues it.
#[verifier::rlimit(40)]
fn expand_cell(
    grid: &Grid,
    visited: &[Vec<bool>],
    pos: Cell,
    cardinal_only: bool,
    c: Cell,
    seen: &mut Vec<Vec<bool>>,
    parent: &mut Vec<Vec<Option<Cell>>>,
    queue: &mut VecDeque<Cell>,
    closed: Ghost<Set<Cell>>,
    depth0: Ghost<Map<Cell, nat>>,
    cands: Ghost<Seq<Cell>>,
    ss: Ghost<SearchState>,
) -> (depth: Ghost<Map<Cell, nat>>)
    requires
        grid.wf(),
        grid.in_bounds(pos.0 as int, pos.1 as int),
        grid.in_bounds(c.0 as int, c.1 as int),
        shaped(visited@, grid.width as int, grid.height as int),
        closed@.contains(c),
        expandable(visited@, pos, c),
        search_frame(*grid, visited@, pos, cardinal_only, old(seen)@, old(parent)@, old(queue)@, closed@, depth0@, cands@),
        expanded_except(*grid, visited@, pos, cardinal_only, old(seen)@, closed@, c),
        count_rows(old(seen)@) <= grid.width * grid.height,
        depth0@.contains_key(c),
        bfs_layers(*grid, old(seen)@, old(queue)@, depth0@, depth0@[c] as int),
        expanded_depth_except(*grid, visited@, pos, cardinal_only, closed@, depth0@, c),
        mirrors(*grid, old(seen)@, old(parent)@, old(queue)@, cands@, ss@),
    ensures
        mirrors(*grid, final(seen)@, final(parent)@, final(queue)@, cands@, expand_upto(*grid, cardinal_only, c, ss@, 9)),
        search_frame(*grid, visited@, pos, cardinal_only, final(seen)@, final(parent)@, final(queue)@, closed@, depth@, cands@),
        expanded(*grid, visited@, pos, cardinal_only, final(seen)@, closed@),
        bfs_layers(*grid, final(seen)@, final(queue)@, depth@, depth0@[c] as int),
        expanded_depth(*grid, visited@, pos, cardinal_only, closed@, depth@),
        forall|i: int| 0 <= i < cands@.len() ==> #[trigger] depth@[cands@[i]] == depth0@[cands@[i]],
        count_rows(final(seen)@) <= grid.width * grid.height,
        count_rows(final(seen)@) - count_rows(old(seen)@) == final(queue)@.len() - old(queue)@.len(),
        final(queue)@.len() >= old(queue)@.len(),
{
    let w = grid.width;
    let h = grid.height;
    let x = c.0;
    let y = c.1;
    let ghost mut depth = depth0@;
    let ghost dc: int = depth0@[c] as int;
    let ghost seen_start = seen@;
    let ghost queue_start = queue@;
    let mut k: usize = 0;
    while k < 9
        invariant
            k <= 9,
            grid.wf(),
            grid.in_bounds(pos.0 as int, pos.1 as int),
            shaped(visited@, grid.width as int, grid.height as int),
            w == grid.width,
            h == grid.height,
            c == (x, y),
            grid.in_bounds(x as int, y as int),
            expandable(visited@, pos, c),
            closed@.contains(c),
            search_frame(*grid, visited@, pos, cardinal_only, seen@, parent@, queue@, closed@, depth, cands@),
            expanded_except(*grid, visited@, pos, cardinal_only, seen@, closed@, c),
            forall|j: int|
                0 <= j < k && #[trigger] toward(c, j) is Some && open_step(*grid, c, toward(c, j)->0, cardinal_only) ==> flag(seen@, toward(c, j)->0),
            count_rows(seen@) <= w * h,
            count_rows(seen@) - count_rows(seen_start) == queue@.len() - queue_start.len(),
            queue@.len() >= queue_start.len(),
            depth.contains_key(c),
            depth[c] == dc,
            bfs_layers(*grid, seen@, queue@, depth, dc),
            expanded_depth_except(*grid, visited@, pos, cardinal_only, closed@, depth, c),
            forall|d: Cell| #[trigger] depth0@.contains_key(d) ==> depth.contains_key(d),
            forall|i: int| 0 <= i < cands@.len() ==> #[trigger] depth[cands@[i]] == depth0@[cands@[i]],
            mirrors(*grid, seen@, parent@, queue@, cands@, expand_upto(*grid, cardinal_only, c, ss@, k as int)),
        decreases 9 - k,
    {
        let ghost e = expand_upto(*grid, cardinal_only, c, ss@, k as int);
        let ghost e1 = expand_upto(*grid, cardinal_only, c, ss@, k + 1);
        let dx: i64 = (k / 3) as i64 - 1;
        let dy: i64 = (k % 3) as i64 - 1;
        if !(dx == 0 && dy == 0) && !(cardinal_only && dx != 0 && dy != 0) {
            let nx: i64 = x as i64 + dx;
            let ny: i64 = y as i64 + dy;
            if nx >= 0 && ny >= 0 && (nx as usize) < w && (ny as usize) < h {
                let n: Cell = (nx as usize, ny as usize);
                assert(toward(c, k as int) == Some(n));
                if !grid.blocked(n.0, n.1) && !seen[n.1][n.0] {
                    let ghost seen0 = seen@;
                    let ghost parent0 = parent@;
                    let ghost queue0 = queue@;
                    let ghost d0 = depth;
                    set_at(seen, n.0, n.1, true);
                    set_at(parent, n.0, n.1, Some(c));
                    queue.push_back(n);
                    proof {
                        lemma_set_flag(seen0, seen@, n.0, n.1, true, w as int, h as int);
                        lemma_set_flag(parent0, parent@, n.0, n.1, Some(c), w as int, h as int);
                        assert(!flag(seen0, n));
                        assert(!e.seen.contains(n));
                        assert(open_step(*grid, c, n, cardinal_only));
                        assert(e1 == SearchState { seen: e.seen.insert(n), parent: e.parent.insert(n, c), queue: e.queue.push(n), cands: e.cands });
                        assert(mirrors(*grid, seen@, parent@, queue@, cands@, e1));
                        depth = depth.insert(n, (depth[c] + 1) as nat);
                        assert(!at(seen0, n.0 as int, n.1 as int));
                        lemma_count_rows_set(seen0, seen@, n.0 as int, n.1 as int);
                        lemma_count_rows_bound(seen@, w as int);
                        lemma_frame_after_push(*grid, visited@, pos, cardinal_only, seen0, seen@, parent0, parent@, queue0, queue@, closed@, d0, depth, cands@, c, n);
                        assert(forall|d: Cell| grid.in_bounds(d.0 as int, d.1 as int) && d != n ==> #[trigger] flag(seen@, d) == flag(seen0, d));
                        lemma_layers_after_push(*grid, visited@, pos, cardinal_only, seen0, seen@, queue0, queue@, closed@, d0, depth, c, n, dc);
                        assert forall|i: int| 0 <= i < cands@.len() implies #[trigger] depth[cands@[i]] == depth0@[cands@[i]] by {
                            assert(grid.in_bounds(cands@[i].0 as int, cands@[i].1 as int) && flag(seen0, cands@[i]));
                            assert(d0.contains_key(cands@[i]));
                            assert(cands@[i] != n);
                        }
                    }
                } else {
                    proof {
                        if !grid.blocked_at(n.0 as int, n.1 as int) {
                            assert(flag(seen@, n));
                            assert(e.seen.contains(n));
                        }
                        assert(e1 == e);
                    }
                }
            } else {
                proof {
                    if toward(c, k as int) is Some {
                        let n = toward(c, k as int)->0;
                        assert(!grid.in_bounds(n.0 as int, n.1 as int));
                    }
                    assert(e1 == e);
                }
            }
        } else {
            proof {
                if toward(c, k as int) is Some {
                    let n = toward(c, k as int)->0;
                    assert(n.0 - c.0 == dx && n.1 - c.1 == dy);
                    assert(!open_step(*grid, c, n, cardinal_only));
                }
                assert(e1 == e);
            }
        }
        k += 1;
    }
    proof {
        assert forall|d: Cell, n: Cell|
            #[trigger] closed@.contains(d) && expandable(visited@, pos, d) && #[trigger] open_step(*grid, d, n, cardinal_only) implies flag(seen@, n) by {
            if d == c {
                let ddx = n.0 - c.0;
                let ddy = n.1 - c.1;
                lemma_offset_direction(ddx, ddy);
                let j = (ddx + 1) * 3 + (ddy + 1);
                assert(toward(c, j) == Some(n));
            }
        }
        assert forall|d: Cell, n: Cell|
            #[trigger] closed@.contains(d) && expandable(visited@, pos, d) && #[trigger] open_step(*grid, d, n, cardinal_only) implies depth.contains_key(n)
                && depth.contains_key(d) && depth[n] <= depth[d] + 1 by {
            if d == c {
                assert(flag(seen@, n));
            }
        }
    }
    Ghost(depth)
}

/// Find the nearest unvisited cell from `pos` using a breadth-first search
/// over passable cells that only passes through visited cells. Of all the
/// unvisited cells it finds, the one furthest from `goal` is returned, with
/// the search's walk from `pos` to it, which takes as few steps as any such
/// walk; `None` when there is no such cell.
pub fn find_nearest_unvisited(
    grid: &Grid,
    pos: Cell,
    goal: Cell,
    visited: &[Vec<bool>],
    cardinal_only: bool,
) -> (res: Option<(Cell, Vec<Cell>)>)
    requires
        grid.wf(),
        grid.in_bounds(pos.0 as int, pos.1 as int),
        small_cell(goal),
        shaped(visited@, grid.width as int, grid.height as int),
    ensures
        match res {
            None => forall|c: Cell| !#[trigger] frontier_cell(*grid, visited@, pos, c, cardinal_only),
            Some((t, path)) => frontier_choice(*grid, visited@, pos, goal, t, path@, cardinal_only),
        },
        search_answer(
            *grid,
            visited@,
            pos,
            goal,
            cardinal_only,
            match res {
                Some((t, path)) => Some((t, path@)),
                None => None,
            },
        ),
{
    let w = grid.width;
    let h = grid.height;
    let mut seen: Vec<Vec<bool>> = new_rows(w, h, false);
    let mut parent: Vec<Vec<Option<Cell>>> = new_rows(w, h, None);
    let mut queue: VecDeque<Cell> = VecDeque::new();
    let mut candidates: Vec<Cell> = Vec::new();
    let ghost mut closed: Set<Cell> = Set::empty();
    let ghost mut depth: Map<Cell, nat> = Map::empty().insert(pos, 0nat);
    proof {
        assert forall|y: int, x: int| 0 <= y < seen@.len() && 0 <= x < seen@[y]@.len() implies !#[trigger] seen@[y]@[x] by {
            assert(!at(seen@, x, y));
        }
        lemma_count_rows_all_false(seen@);
    }
    let ghost before = seen@;
    set_at(&mut seen, pos.0, pos.1, true);
    proof {
        assert(!at(before, pos.0 as int, pos.1 as int));
        lemma_count_rows_set(before, seen@, pos.0 as int, pos.1 as int);
        lemma_count_rows_bound(seen@, w as int);
    }
    let ghost mut nseen: int = 1;
    let ghost mut level: int = 0;
    queue.push_back(pos);
    proof {
        assert forall|c: Cell| grid.in_bounds(c.0 as int, c.1 as int) && #[trigger] flag(seen@, c) implies closed.contains(c) || queue@.contains(c) by {
            if c != pos {
                assert(flag(before, c) == flag(seen@, c));
            }
            assert(queue@[0] == pos);
        }
        assert forall|c: Cell| grid.in_bounds(c.0 as int, c.1 as int) && #[trigger] flag(seen@, c) implies depth.contains_key(c) && depth[c] <= level + 1 by {
            if c != pos {
                assert(flag(before, c) == flag(seen@, c));
                assert(!at(before, c.0 as int, c.1 as int));
            }
        }
        assert(queue@.len() == 1);
    }
    let ghost mut tr: Seq<SearchState> = seq![search_start(pos)];
    proof {
        lemma_set_flag(before, seen@, pos.0, pos.1, true, w as int, h as int);
        assert forall|c: Cell| grid.in_bounds(c.0 as int, c.1 as int) implies (#[trigger] flag(seen@, c) <==> tr.last().seen.contains(c)) by {
            assert(!at(before, c.0 as int, c.1 as int));
        }
        assert forall|c: Cell| grid.in_bounds(c.0 as int, c.1 as int) implies #[trigger] flag(parent@, c) == if tr.last().parent.contains_key(c) {
            Some(tr.last().parent[c])
        } else {
            None
        } by {
            assert(at(parent@, c.0 as int, c.1 as int) == None::<Cell>);
        }
        assert(queue@ =~= seq![pos]);
        assert(mirrors(*grid, seen@, parent@, queue@, candidates@, tr.last()));
    }
    while queue.len() > 0
        invariant
            grid.wf(),
            grid.in_bounds(pos.0 as int, pos.1 as int),
            small_cell(goal),
            shaped(visited@, grid.width as int, grid.height as int),
            w == grid.width,
            h == grid.height,
            search_frame(*grid, visited@, pos, cardinal_only, seen@, parent@, queue@, closed, depth, candidates@),
            expanded(*grid, visited@, pos, cardinal_only, seen@, closed),
            nseen == count_rows(seen@),
            nseen <= w * h,
            bfs_layers(*grid, seen@, queue@, depth, level),
            expanded_depth(*grid, visited@, pos, cardinal_only, closed, depth),
            forall|i: int| 0 <= i < candidates@.len() ==> depth[#[trigger] candidates@[i]] <= level,
            forall|i: int, j: int| 0 <= i <= j < candidates@.len() ==> depth[#[trigger] candidates@[i]] <= depth[#[trigger] candidates@[j]],
            search_run(*grid, visited@, pos, cardinal_only, tr),
            mirrors(*grid, seen@, parent@, queue@, candidates@, tr.last()),
        decreases 2 * (w * h - nseen) + queue@.len(),
    {
        let ghost q0 = queue@;
        let ghost s0 = tr.last();
        let ghost rest = SearchState { queue: s0.queue.drop_first(), ..s0 };
        let c = queue.pop_front().unwrap();
        proof {
            assert(c == q0[0]);
            assert(queue@ =~= q0.drop_first());
        }
        if !(c.0 == pos.0 && c.1 == pos.1) && !visited[c.1][c.0] {
            let ghost cands0 = candidates@;
            candidates.push(c);
            proof {
                lemma_pop_candidate(*grid, visited@, pos, cardinal_only, seen@, parent@, q0, closed, depth, cands0, level);
                closed = closed.insert(c);
                assert forall|i: int| 0 <= i < candidates@.len() implies depth[#[trigger] candidates@[i]] <= depth[c] by {
                    if i < cands0.len() {
                        assert(candidates@[i] == cands0[i]);
                    }
                }
                assert forall|i: int, j: int| 0 <= i <= j < candidates@.len() implies depth[#[trigger] candidates@[i]] <= depth[#[trigger] candidates@[j]] by {
                    assert(candidates@[i] == cands0[i] || i == cands0.len());
                    if j < cands0.len() {
                        assert(candidates@[i] == cands0[i] && candidates@[j] == cands0[j]);
                    } else if i < cands0.len() {
                        assert(candidates@[i] == cands0[i]);
                    }
                }
                level = depth[c] as int;
                assert(search_next(*grid, visited@, pos, cardinal_only, s0) == SearchState { cands: s0.cands.push(c), ..rest });
                lemma_search_push(*grid, visited@, pos, cardinal_only, tr);
                tr = tr.push(search_next(*grid, visited@, pos, cardinal_only, s0));
            }
            continue;
        }
        proof {
            lemma_pop_expand(*grid, visited@, pos, cardinal_only, seen@, parent@, q0, closed, depth, candidates@, level);
            closed = closed.insert(c);
            level = depth[c] as int;
        }
        let ghost count0 = nseen;
        let ghost queue_len0 = queue@.len();
        assert(2 * (w * h - nseen) + queue@.len() < 2 * (w * h - nseen) + q0.len());
        let new_depth = expand_cell(
            grid,
            visited,
            pos,
            cardinal_only,
            c,
            &mut seen,
            &mut parent,
            &mut queue,
            Ghost(closed),
            Ghost(depth),
            Ghost(candidates@),
            Ghost(rest),
        );
        proof {
            assert(search_next(*grid, visited@, pos, cardinal_only, s0) == expand_upto(*grid, cardinal_only, c, rest, 9));
            lemma_search_push(*grid, visited@, pos, cardinal_only, tr);
            tr = tr.push(search_next(*grid, visited@, pos, cardinal_only, s0));
            depth = new_depth@;
            nseen = count_rows(seen@) as int;
            assert(nseen - count0 == queue@.len() - queue_len0);
        }
    }
    if candidates.len() == 0 {
        proof {
            assert forall|t: Cell| !#[trigger] frontier_cell(*grid, visited@, pos, t, cardinal_only) by {
                if frontier_cell(*grid, visited@, pos, t, cardinal_only) {
                    let p = choose|p: Seq<Cell>| #[trigger] walk_through_visited(*grid, visited@, pos, p, cardinal_only) && p.last() == t;
                    lemma_walk_seen(*grid, visited@, pos, cardinal_only, seen@, parent@, closed, depth, candidates@, p);
                    assert(queue@ =~= Seq::<Cell>::empty());
                    assert(closed.contains(t));
                    assert(candidates@.contains(t));
                }
            }
        }
        return None;
    }
    proof {
        assert forall|i: int| 0 <= i < candidates@.len() implies small_cell(#[trigger] candidates@[i]) by {
            assert(grid.in_bounds(candidates@[i].0 as int, candidates@[i].1 as int));
        }
    }
    let idx = pick_furthest(&candidates, goal);
    let target = candidates[idx];
    let mut back: Vec<Cell> = Vec::new();
    back.push(target);
    let mut cur = target;
    proof {
        assert(candidates@[idx as int] == target);
        assert(flag(seen@, target));
        assert(!expandable(visited@, pos, target));
    }
    loop
        invariant_except_break
            cur != pos,
        invariant
            grid.wf(),
            shaped(visited@, grid.width as int, grid.height as int),
            search_frame(*grid, visited@, pos, cardinal_only, seen@, parent@, queue@, closed, depth, candidates@),
            grid.in_bounds(cur.0 as int, cur.1 as int),
            flag(seen@, cur),
            depth.contains_key(cur),
            back@.len() >= 1,
            back@[0] == target,
            back@.last() == cur,
            depth.contains_key(target),
            back@.len() - 1 + depth[cur] == depth[target],
            forall|i: int| 0 <= i < back@.len() - 1 ==> open_step(*grid, back@[i + 1], #[trigger] back@[i], cardinal_only),
            forall|i: int| 0 < i < back@.len() ==> expandable(visited@, pos, #[trigger] back@[i]),
            forall|i: int| 0 < i < back@.len() - 1 ==> #[trigger] back@[i] != pos,
            mirrors(*grid, seen@, parent@, queue@, candidates@, tr.last()),
            target != pos,
            forall|i: int|
                0 <= i < back@.len() - 1 ==> tr.last().parent.contains_key(#[trigger] back@[i]) && tr.last().parent[back@[i]] == back@[i + 1],
        ensures
            cur == pos,
            back@.len() >= 2,
            back@[0] == target,
            back@.last() == pos,
            back@.len() == depth[target] + 1,
            forall|i: int| 0 <= i < back@.len() - 1 ==> open_step(*grid, back@[i + 1], #[trigger] back@[i], cardinal_only),
            forall|i: int| 0 < i < back@.len() ==> expandable(visited@, pos, #[trigger] back@[i]),
            forall|i: int| 0 < i < back@.len() - 1 ==> #[trigger] back@[i] != pos,
            forall|i: int|
                0 <= i < back@.len() - 1 ==> tr.last().parent.contains_key(#[trigger] back@[i]) && tr.last().parent[back@[i]] == back@[i + 1],
        decreases depth[cur],
    {
        let step = parent[cur.1][cur.0];
        proof {
            assert(parent_ok(*grid, visited@, pos, cardinal_only, parent@, closed, depth, cur));
            assert(step == flag(parent@, cur));
        }
        match step {
            Some(p) => {
                back.push(p);
                cur = p;
                if cur.0 == pos.0 && cur.1 == pos.1 {
                    break;
                }
            },
            None => {
                break;
            },
        }
    }
    let path = reversed(&back);
    proof {
        let r = path@;
        let n = back@.len();
        assert(r.len() == n);
        assert(r[0] == pos);
        assert(r.last() == target);
        assert forall|i: int| 0 <= i < r.len() - 1 implies open_step(*grid, #[trigger] r[i], r[i + 1], cardinal_only) by {
            assert(r[i] == back@[n - 1 - i]);
            assert(r[i + 1] == back@[n - 2 - i]);
        }
        assert forall|i: int| 0 < i < r.len() - 1 implies flag(visited@, #[trigger] r[i]) by {
            assert(r[i] == back@[n - 1 - i]);
        }
        assert(walk_through_visited(*grid, visited@, pos, r, cardinal_only));
        assert forall|i: int| 0 < i < r.len() implies #[trigger] r[i] != pos && tr.last().parent.contains_key(r[i]) && tr.last().parent[r[i]]
            == r[i - 1] by {
            assert(r[i] == back@[n - 1 - i]);
            assert(r[i - 1] == back@[n - i]);
        }
        assert(follows_parents(tr.last().parent, pos, r));
        assert(first_furthest(tr.last().cands, goal, idx as int));
        assert(search_run(*grid, visited@, pos, cardinal_only, tr) && tr.last().queue.len() == 0);
        assert(candidates@[idx as int] == target);
        assert(frontier_cell(*grid, visited@, pos, target, cardinal_only));
        assert forall|t: Cell| #[trigger] frontier_cell(*grid, visited@, pos, t, cardinal_only) implies dist2(t, goal) <= dist2(target, goal) by {
            let p = choose|p: Seq<Cell>| #[trigger] walk_through_visited(*grid, visited@, pos, p, cardinal_only) && p.last() == t;
            lemma_walk_seen(*grid, visited@, pos, cardinal_only, seen@, parent@, closed, depth, candidates@, p);
            assert(queue@ =~= Seq::<Cell>::empty());
            assert(closed.contains(t));
            assert(candidates@.contains(t));
            let j = choose|j: int| 0 <= j < candidates@.len() && candidates@[j] == t;
            assert(dist2(candidates@[j], goal) <= dist2(candidates@[idx as int], goal));
        }
        assert forall|p: Seq<Cell>|
            #[trigger] walk_through_visited(*grid, visited@, pos, p, cardinal_only) && p.last() == target implies r.len() <= p.len() by {
            lemma_walk_seen(*grid, visited@, pos, cardinal_only, seen@, parent@, closed, depth, candidates@, p);
            assert(queue@ =~= Seq::<Cell>::empty());
        }
        assert forall|p: Seq<Cell>|
            #[trigger] walk_through_visited(*grid, visited@, pos, p, cardinal_only) && frontier_cell(*grid, visited@, pos, p.last(), cardinal_only)
                && dist2(p.last(), goal) == dist2(target, goal) implies r.len() <= p.len() by {
            let c = p.last();
            lemma_walk_seen(*grid, visited@, pos, cardinal_only, seen@, parent@, closed, depth, candidates@, p);
            assert(queue@ =~= Seq::<Cell>::empty());
            assert(closed.contains(c));
            assert(candidates@.contains(c));
            let j = choose|j: int| 0 <= j < candidates@.len() && candidates@[j] == c;
            if j < idx {
                assert(dist2(candidates@[j], goal) < dist2(candidates@[idx as int], goal));
            }
            assert(depth[candidates@[idx as int]] <= depth[candidates@[j]]);
        }
    }
    Some((target, path))
}

} // verus!
