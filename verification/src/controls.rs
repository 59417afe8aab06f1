use vstd::prelude::*;
use crate::grid::Cell;
use crate::kinds::Shape;
use crate::line::{bresenham, line_trace, visible};
use crate::moves::small_cell;
use crate::walls::Walls;

verus! {

/// Which drawing a frame's input calls for.
#[derive(Clone, Copy, Debug, PartialEq, Eq, Structural)]
pub enum Rebuild {
    /// Keep the current drawing.
    Keep,
    /// Walls and markers only, no pathfinding (fast, while a wall line is dragged).
    WallsOnly,
    /// The full drawing with the path.
    Full,
}

/// The toggle keys held down in a frame.
#[derive(Clone, Copy, Debug, PartialEq, Eq, Structural)]
pub struct Keys {
    pub c: bool,
    pub d: bool,
    pub w: bool,
    pub l: bool,
    pub m: bool,
    pub s: bool,
}

/// What the keys of a frame ask of the scene.
pub struct KeyReaction {
    /// Clear the painted walls.
    pub clear_painted: bool,
    /// Toggle diagonal movement.
    pub toggle_cardinal: bool,
    /// Switch to this boundary shape.
    pub shape: Option<Shape>,
    /// Export SVG and DXF.
    pub export: bool,
    pub rebuild: Rebuild,
}

/// What the left mouse button of a frame asks of the viewer (the painted
/// walls themselves are updated in place).
pub struct LeftReaction {
    /// Remember the pointer position of this press (for the drag threshold).
    pub record_press: bool,
    /// Forget the remembered press position.
    pub forget_press: bool,
    pub rebuild: Rebuild,
}

/// The interactive viewer's state between frames.
pub struct Controls {
    pub start: Cell,
    pub goal: Cell,
    /// The next right click sets the start (else the goal).
    pub click_sets_start: bool,
    pub show_walls: bool,
    pub show_links: bool,
    pub show_markers: bool,
    /// The toggle keys as they were in the previous frame.
    pub prev_keys: Keys,
    pub lmb_was_down: bool,
    pub lmb_dragged: bool,
    pub lmb_erasing: bool,
    pub lmb_start_cell: Option<Cell>,
    /// The cells of the wall line being dragged.
    pub line_preview: Vec<Cell>,
    /// The cells whose paint the previewed line changed: added ones while
    /// drawing, removed ones while erasing.
    pub line_flipped: Vec<Cell>,
    pub rmb_was_down: bool,
    /// The window needs redrawing.
    pub dirty: bool,
}

/// A key went down this frame.
pub open spec fn edge(down: bool, prev: bool) -> bool {
    down && !prev
}

/// The cells of the wall line from `a` to `b`.
#[verifier::opaque]
pub open spec fn line_cells(a: Cell, b: Cell) -> Seq<Cell> {
    visible(line_trace(a.0 as int, a.1 as int, b.0 as int, b.1 as int))
}

/// The left-button part of the viewer state: was the button down, has the
/// press become a drag, is it erasing, the pressed cell, the previewed line,
/// and the cells whose paint the preview changed.
pub type DragState = (bool, bool, bool, Option<Cell>, Seq<Cell>, Set<Cell>);

/// A left-button frame's requests: record press, forget press, rebuild.
pub type LeftOut = (bool, bool, Rebuild);

/// The left-button state after a frame with the button down over the
/// window: a press remembers the cell under the pointer and whether Ctrl
/// erases; a held button becomes a drag once the pointer moved far enough.
pub open spec fn press_spec(st: DragState, mouse_cell: Option<Cell>, ctrl: bool, moved_far: bool) -> DragState {
    let (was, dragged, erasing, start_cell, preview, flipped) = st;
    if !was {
        (true, false, ctrl, mouse_cell, Seq::empty(), Set::empty())
    } else {
        (true, dragged || moved_far, erasing, start_cell, preview, flipped)
    }
}

/// While dragging, the previewed wall line follows the pointer: when the
/// line from the pressed cell to the cell under the pointer differs (as a
/// set) from the preview, the paint changes of the old preview are undone,
/// and the new line is painted (or, erasing, unpainted), remembering which
/// cells it changed. Returns the new state, painted cells and rebuild.
#[verifier::opaque]
pub open spec fn drag_spec(st: DragState, painted: Set<Cell>, mouse_cell: Option<Cell>) -> (DragState, Set<Cell>, Rebuild) {
    let (was, dragged, erasing, start_cell, preview, flipped) = st;
    if dragged && start_cell is Some && mouse_cell is Some && line_cells(start_cell->0, mouse_cell->0).to_set() != preview.to_set() {
        let l = line_cells(start_cell->0, mouse_cell->0);
        let base = if erasing { painted.union(flipped) } else { painted.difference(flipped) };
        let after = if erasing { base.difference(l.to_set()) } else { base.union(l.to_set()) };
        let changed = if erasing { base.intersect(l.to_set()) } else { l.to_set().difference(base) };
        ((was, dragged, erasing, start_cell, l, changed), after, Rebuild::WallsOnly)
    } else {
        (st, painted, Rebuild::Keep)
    }
}

/// Releasing the button: after a drag the previewed line's changes stay;
/// without a drag the pressed cell's paint is toggled.
#[verifier::opaque]
pub open spec fn release_spec(st: DragState, painted: Set<Cell>) -> (DragState, Set<Cell>, LeftOut) {
    let (was, dragged, erasing, start_cell, preview, flipped) = st;
    let cleared = (false, dragged, erasing, None, Seq::<Cell>::empty(), Set::<Cell>::empty());
    if dragged && preview.len() > 0 {
        (cleared, painted, (false, true, Rebuild::Full))
    } else if !dragged && start_cell is Some {
        let c = start_cell->0;
        (cleared, if painted.contains(c) { painted.remove(c) } else { painted.insert(c) }, (false, true, Rebuild::Full))
    } else {
        (cleared, painted, (false, true, Rebuild::Keep))
    }
}

/// The left-button step of a frame, on the state and the painted cells.
pub open spec fn left_spec(
    st: DragState,
    painted: Set<Cell>,
    lmb_down: bool,
    has_mouse: bool,
    mouse_cell: Option<Cell>,
    ctrl: bool,
    moved_far: bool,
) -> (DragState, Set<Cell>, LeftOut) {
    let (was, dragged, erasing, start_cell, preview, flipped) = st;
    if lmb_down {
        if has_mouse {
            let st1 = press_spec(st, mouse_cell, ctrl, moved_far);
            let (st2, p2, rebuild) = drag_spec(st1, painted, mouse_cell);
            (st2, p2, (!was, false, rebuild))
        } else {
            ((true, dragged, erasing, start_cell, preview, flipped), painted, (false, false, Rebuild::Keep))
        }
    } else if was {
        release_spec(st, painted)
    } else {
        (st, painted, (false, false, Rebuild::Keep))
    }
}

/// The right-button step on `(start, goal, click_sets_start, was_down)`: a
/// press over an open cell sets the start or the goal, alternately. Returns
/// the new four and the rebuild.
pub open spec fn right_spec(st: (Cell, Cell, bool, bool), rmb_down: bool, cell: Option<Cell>) -> (Cell, Cell, bool, bool, Rebuild) {
    let (start, goal, sets_start, was) = st;
    if rmb_down && !was && cell is Some {
        let c = cell->0;
        if sets_start {
            (c, goal, false, true, Rebuild::Full)
        } else {
            (start, c, true, true, Rebuild::Full)
        }
    } else {
        (start, goal, sets_start, rmb_down, Rebuild::Keep)
    }
}

/// A left-button reaction as a tuple.
pub open spec fn left_out(r: LeftReaction) -> LeftOut {
    (r.record_press, r.forget_press, r.rebuild)
}

/// Whether `v` holds cell `c`.
fn contains_cell(v: &Vec<Cell>, c: Cell) -> (res: bool)
    ensures
        res == v@.contains(c),
{
    let mut i: usize = 0;
    while i < v.len()
        invariant
            i <= v@.len(),
            forall|j: int| 0 <= j < i ==> v@[j] != c,
        decreases v@.len() - i,
    {
        if v[i].0 == c.0 && v[i].1 == c.1 {
            assert(v@[i as int] == c);
            return true;
        }
        i += 1;
    }
    false
}

/// Whether `a` and `b` hold the same cells (as sets).
fn same_cells(a: &Vec<Cell>, b: &Vec<Cell>) -> (res: bool)
    ensures
        res == (a@.to_set() == b@.to_set()),
{
    let mut i: usize = 0;
    while i < a.len()
        invariant
            i <= a@.len(),
            forall|j: int| 0 <= j < i ==> b@.contains(#[trigger] a@[j]),
        decreases a@.len() - i,
    {
        if !contains_cell(b, a[i]) {
            assert(a@.to_set().contains(a@[i as int]));
            assert(!b@.to_set().contains(a@[i as int]));
            return false;
        }
        i += 1;
    }
    let mut j: usize = 0;
    while j < b.len()
        invariant
            j <= b@.len(),
            forall|k: int| 0 <= k < a@.len() ==> b@.contains(#[trigger] a@[k]),
            forall|k: int| 0 <= k < j ==> a@.contains(#[trigger] b@[k]),
        decreases b@.len() - j,
    {
        if !contains_cell(a, b[j]) {
            assert(b@.to_set().contains(b@[j as int]));
            assert(!a@.to_set().contains(b@[j as int]));
            return false;
        }
        j += 1;
    }
    assert(a@.to_set() =~= b@.to_set()) by {
        assert forall|c: Cell| a@.to_set().contains(c) implies b@.to_set().contains(c) by {
            let k = choose|k: int| 0 <= k < a@.len() && a@[k] == c;
            assert(b@.contains(a@[k]));
        }
        assert forall|c: Cell| b@.to_set().contains(c) implies a@.to_set().contains(c) by {
            let k = choose|k: int| 0 <= k < b@.len() && b@[k] == c;
            assert(a@.contains(b@[k]));
        }
    }
    true
}

/// Holding a toggle key down over two frames toggles its setting once.
pub proof fn lemma_held_key_toggles_once(shown: bool)
    ensures
        ({
            let after_first = shown != edge(true, false);
            let after_second = after_first != edge(true, true);
            after_first == !shown && after_second == !shown
        }),
{
}

/// Every right press over an open cell, whether it sets the start or the
/// goal, asks for a full rebuild and places that cell; every other frame asks
/// for nothing and moves neither.
pub proof fn lemma_right_press_rebuilds(st: (Cell, Cell, bool, bool), rmb_down: bool, cell: Option<Cell>)
    ensures
        ({
            let r = right_spec(st, rmb_down, cell);
            &&& (r.4 == Rebuild::Full) == (rmb_down && !st.3 && cell is Some)
            &&& r.4 == Rebuild::Full || r.4 == Rebuild::Keep
            &&& r.4 == Rebuild::Full ==> (r.0 == cell->0 && r.1 == st.1 && st.2) || (r.1 == cell->0 && r.0 == st.0 && !st.2)
            &&& r.4 == Rebuild::Keep ==> r.0 == st.0 && r.1 == st.1 && r.2 == st.2
            &&& r.3 == rmb_down
        }),
{
}

/// Right-button frames `(rmb_down, cell)` applied in turn to
/// `(start, goal, click_sets_start, was_down)`.
pub open spec fn right_frames(st: (Cell, Cell, bool, bool), frames: Seq<(bool, Option<Cell>)>) -> (Cell, Cell, bool, bool)
    decreases frames.len(),
{
    if frames.len() == 0 {
        st
    } else {
        let s1 = right_frames(st, frames.drop_last());
        let f = frames.last();
        let r = right_spec(s1, f.0, f.1);
        (r.0, r.1, r.2, r.3)
    }
}

/// The cells of the presses among the frames, in order: the frames where
/// the button goes down over an open cell (`was_down`: the button before
/// the first frame).
pub open spec fn press_cells(was_down: bool, frames: Seq<(bool, Option<Cell>)>) -> Seq<Cell>
    decreases frames.len(),
{
    if frames.len() == 0 {
        Seq::empty()
    } else {
        let prev = press_cells(was_down, frames.drop_last());
        let before = if frames.len() >= 2 {
            frames[frames.len() - 2].0
        } else {
            was_down
        };
        let f = frames.last();
        if f.0 && !before && f.1 is Some {
            prev.push(f.1->0)
        } else {
            prev
        }
    }
}

/// Right clicks alternate, over any number of frames: starting when the
/// next click sets the start (at start-up or after a shape key), the
/// presses over open cells set the start, the goal, the start, ... in turn;
/// other frames (held button, releases, presses off the open cells) change
/// neither. So the start is the last press at an even position, the goal
/// the last press at an odd position.
pub proof fn lemma_right_clicks_alternate(start: Cell, goal: Cell, was_down: bool, frames: Seq<(bool, Option<Cell>)>)
    ensures
        ({
            let r = right_frames((start, goal, true, was_down), frames);
            let ps = press_cells(was_down, frames);
            let n = ps.len() as int;
            &&& r.2 == (n % 2 == 0)
            &&& r.0 == if n >= 1 { ps[2 * ((n - 1) / 2)] } else { start }
            &&& r.1 == if n >= 2 { ps[2 * (n / 2) - 1] } else { goal }
            &&& r.3 == if frames.len() > 0 { frames.last().0 } else { was_down }
        }),
    decreases frames.len(),
{
    if frames.len() > 0 {
        let prev = frames.drop_last();
        lemma_right_clicks_alternate(start, goal, was_down, prev);
        let ps0 = press_cells(was_down, prev);
        let ps = press_cells(was_down, frames);
        let n = ps0.len() as int;
        assert(prev.len() >= 1 ==> prev.last() == frames[frames.len() - 2]);
        if ps.len() > n {
            assert(ps == ps0.push(frames.last().1->0));
            if n % 2 == 0 {
                assert(2 * ((n + 1 - 1) / 2) == n);
                assert(n >= 2 ==> 2 * ((n + 1) / 2) - 1 == 2 * (n / 2) - 1);
                assert(n >= 2 ==> ps[2 * (n / 2) - 1] == ps0[2 * (n / 2) - 1]);
            } else {
                assert(2 * ((n + 1) / 2) - 1 == n);
                assert(2 * ((n + 1 - 1) / 2) == 2 * ((n - 1) / 2));
                assert(ps[2 * ((n - 1) / 2)] == ps0[2 * ((n - 1) / 2)]);
            }
        }
    }
}

/// During a drag that started with the cells `before` painted, the painted
/// cells are `before` with the previewed line added (or, erasing, cut out),
/// and the remembered changes are exactly the cells where the two differ.
pub open spec fn drag_inv(st: DragState, painted: Set<Cell>, before: Set<Cell>) -> bool {
    let l = st.4.to_set();
    if st.2 {
        painted == before.difference(l) && st.5 == before.intersect(l)
    } else {
        painted == before.union(l) && st.5 == l.difference(before)
    }
}

/// Frames with the left button held, `(has_mouse, mouse_cell, moved_far)`,
/// applied in turn to the state and the painted cells.
pub open spec fn hold(st: DragState, painted: Set<Cell>, ctrl: bool, frames: Seq<(bool, Option<Cell>, bool)>) -> (DragState, Set<Cell>)
    decreases frames.len(),
{
    if frames.len() == 0 {
        (st, painted)
    } else {
        let (s1, p1) = hold(st, painted, ctrl, frames.drop_last());
        let f = frames.last();
        let (s2, p2, o) = left_spec(s1, p1, true, f.0, f.1, ctrl, f.2);
        (s2, p2)
    }
}

/// One held-button frame keeps the drag's bookkeeping; after it, a drag's
/// preview is the line to the cell under the pointer.
proof fn lemma_drag_frame(st: DragState, painted: Set<Cell>, before: Set<Cell>, f: (bool, Option<Cell>, bool), ctrl: bool)
    requires
        st.0,
        drag_inv(st, painted, before),
    ensures
        ({
            let (s2, p2, o) = left_spec(st, painted, true, f.0, f.1, ctrl, f.2);
            &&& s2.0
            &&& s2.2 == st.2
            &&& s2.3 == st.3
            &&& s2.1 == (st.1 || (f.0 && f.2))
            &&& drag_inv(s2, p2, before)
            &&& (s2.1 && f.0 && st.3 is Some && f.1 is Some ==> s2.4.to_set() == line_cells(st.3->0, f.1->0).to_set())
        }),
{
    reveal(drag_spec);
    let (s2, p2, o) = left_spec(st, painted, true, f.0, f.1, ctrl, f.2);
    if f.0 {
        let st1 = press_spec(st, f.1, ctrl, f.2);
        let l0 = st.4.to_set();
        if st1.1 && st1.3 is Some && f.1 is Some && line_cells(st1.3->0, f.1->0).to_set() != l0 {
            let l = line_cells(st1.3->0, f.1->0).to_set();
            if st.2 {
                assert(painted.union(st.5) =~= before);
                assert(p2 =~= before.difference(l));
                assert(s2.5 =~= before.intersect(l));
            } else {
                assert(painted.difference(st.5) =~= before);
                assert(p2 =~= before.union(l));
                assert(s2.5 =~= l.difference(before));
            }
        }
    }
}

/// Any number of held-button frames keep the drag's bookkeeping; the press
/// becomes a drag once some frame moved the pointer far enough, and the
/// preview is then the line to the cell under the pointer in the last frame.
proof fn lemma_hold(st: DragState, painted: Set<Cell>, before: Set<Cell>, ctrl: bool, frames: Seq<(bool, Option<Cell>, bool)>)
    requires
        st.0,
        drag_inv(st, painted, before),
    ensures
        ({
            let (s2, p2) = hold(st, painted, ctrl, frames);
            &&& s2.0
            &&& s2.2 == st.2
            &&& s2.3 == st.3
            &&& s2.1 == (st.1 || exists|i: int| 0 <= i < frames.len() && (#[trigger] frames[i]).0 && frames[i].2)
            &&& drag_inv(s2, p2, before)
            &&& (frames.len() > 0 && s2.1 && frames.last().0 && st.3 is Some && frames.last().1 is Some ==> s2.4.to_set()
                == line_cells(st.3->0, frames.last().1->0).to_set())
        }),
    decreases frames.len(),
{
    if frames.len() > 0 {
        let prev = frames.drop_last();
        lemma_hold(st, painted, before, ctrl, prev);
        let (s1, p1) = hold(st, painted, ctrl, prev);
        lemma_drag_frame(s1, p1, before, frames.last(), ctrl);
        let f = frames.last();
        if st.1 || exists|i: int| 0 <= i < frames.len() && (#[trigger] frames[i]).0 && frames[i].2 {
            if !st.1 && !(f.0 && f.2) {
                let i = choose|i: int| 0 <= i < frames.len() && (#[trigger] frames[i]).0 && frames[i].2;
                assert(i < prev.len());
                assert(prev[i] == frames[i]);
            }
        }
        if s1.1 {
            if !st.1 {
                let i = choose|i: int| 0 <= i < prev.len() && (#[trigger] prev[i]).0 && prev[i].2;
                assert(frames[i] == prev[i]);
            }
        }
        if f.0 && f.2 {
            assert(frames[frames.len() - 1] == f);
        }
    } else {
        assert(!exists|i: int| 0 <= i < frames.len() && (#[trigger] frames[i]).0 && frames[i].2);
    }
}

/// Dragging a wall line: press at cell `a` (erasing when `ctrl`), hold the
/// button over any number of frames in which the pointer at some point moves
/// far enough and ends over cell `e`, and release. Drawing, the painted
/// cells become those before the press plus the line from `a` to `e`;
/// erasing, those before the press minus that line. The lines previewed on
/// the way leave no trace.
pub proof fn lemma_drag_sets_line(
    painted: Set<Cell>,
    st: DragState,
    a: Cell,
    ctrl: bool,
    press_far: bool,
    frames: Seq<(bool, Option<Cell>, bool)>,
    e: Cell,
)
    requires
        !st.0,
        frames.len() >= 1,
        frames.last().0,
        frames.last().1 == Some(e),
        exists|i: int| 0 <= i < frames.len() && (#[trigger] frames[i]).0 && frames[i].2,
    ensures
        ({
            let (s1, p1, o1) = left_spec(st, painted, true, true, Some(a), ctrl, press_far);
            let (s2, p2) = hold(s1, p1, ctrl, frames);
            let (s3, p3, o3) = left_spec(s2, p2, false, true, None, ctrl, false);
            p3 == if ctrl {
                painted.difference(line_cells(a, e).to_set())
            } else {
                painted.union(line_cells(a, e).to_set())
            }
        }),
{
    reveal(drag_spec);
    reveal(release_spec);
    let (s1, p1, o1) = left_spec(st, painted, true, true, Some(a), ctrl, press_far);
    assert(Seq::<Cell>::empty().to_set() =~= Set::<Cell>::empty());
    assert(painted.difference(Set::<Cell>::empty()) =~= painted);
    assert(painted.union(Set::<Cell>::empty()) =~= painted);
    assert(painted.intersect(Set::<Cell>::empty()) =~= Set::<Cell>::empty());
    assert(Set::<Cell>::empty().difference(painted) =~= Set::<Cell>::empty());
    assert(drag_inv(s1, p1, painted));
    lemma_hold(s1, p1, painted, ctrl, frames);
    let (s2, p2) = hold(s1, p1, ctrl, frames);
    lemma_line_nonempty(a, e);
    let l = line_cells(a, e);
    assert(l.to_set().contains(l[0]));
    assert(s2.4.len() > 0) by {
        if s2.4.len() == 0 {
            assert(s2.4.to_set() =~= Set::<Cell>::empty());
        }
    }
}

/// Dragging a wall line from `a` to `e` and releasing adds exactly the line's cells.
pub proof fn lemma_drag_draws_line(
    painted: Set<Cell>,
    st: DragState,
    a: Cell,
    frames: Seq<(bool, Option<Cell>, bool)>,
    e: Cell,
)
    requires
        !st.0,
        frames.len() >= 1,
        frames.last().0,
        frames.last().1 == Some(e),
        exists|i: int| 0 <= i < frames.len() && (#[trigger] frames[i]).0 && frames[i].2,
    ensures
        ({
            let (s1, p1, o1) = left_spec(st, painted, true, true, Some(a), false, false);
            let (s2, p2) = hold(s1, p1, false, frames);
            let (s3, p3, o3) = left_spec(s2, p2, false, true, None, false, false);
            p3 == painted.union(line_cells(a, e).to_set())
        }),
{
    lemma_drag_sets_line(painted, st, a, false, false, frames, e);
}

/// Ctrl-dragging a wall line from `a` to `e` and releasing removes exactly the line's cells.
pub proof fn lemma_ctrl_drag_erases_line(
    painted: Set<Cell>,
    st: DragState,
    a: Cell,
    frames: Seq<(bool, Option<Cell>, bool)>,
    e: Cell,
)
    requires
        !st.0,
        frames.len() >= 1,
        frames.last().0,
        frames.last().1 == Some(e),
        exists|i: int| 0 <= i < frames.len() && (#[trigger] frames[i]).0 && frames[i].2,
    ensures
        ({
            let (s1, p1, o1) = left_spec(st, painted, true, true, Some(a), true, false);
            let (s2, p2) = hold(s1, p1, true, frames);
            let (s3, p3, o3) = left_spec(s2, p2, false, true, None, true, false);
            p3 == painted.difference(line_cells(a, e).to_set())
        }),
{
    lemma_drag_sets_line(painted, st, a, true, false, frames, e);
}

/// A click (press and release without a drag) on cell `a` toggles that cell.
pub proof fn lemma_click_toggles_cell(painted: Set<Cell>, st: DragState, a: Cell)
    requires
        !st.0,
    ensures
        ({
            let (st1, p1, o1) = left_spec(st, painted, true, true, Some(a), false, false);
            let (st2, p2, o2) = left_spec(st1, p1, false, true, Some(a), false, false);
            p2 == if painted.contains(a) {
                painted.remove(a)
            } else {
                painted.insert(a)
            }
        }),
{
    reveal(drag_spec);
    reveal(release_spec);
}

/// Adding an entry to a list adds it to the list's set.
proof fn lemma_push_set(s: Seq<Cell>, c: Cell)
    ensures
        s.push(c).to_set() == s.to_set().insert(c),
{
    assert forall|d: Cell| s.push(c).to_set().contains(d) <==> s.to_set().insert(c).contains(d) by {
        if s.push(c).to_set().contains(d) {
            let k = choose|k: int| 0 <= k < s.push(c).len() && s.push(c)[k] == d;
            if k < s.len() {
                assert(s[k] == d);
            }
        }
        if s.to_set().insert(c).contains(d) {
            if d == c {
                assert(s.push(c)[s.len() as int] == c);
            } else {
                let k = choose|k: int| 0 <= k < s.len() && s[k] == d;
                assert(s.push(c)[k] == d);
            }
        }
    }
    assert(s.push(c).to_set() =~= s.to_set().insert(c));
}

/// The set of a longer prefix holds one more entry.
proof fn lemma_prefix_set(s: Seq<Cell>, j: int)
    requires
        0 <= j < s.len(),
    ensures
        s.subrange(0, j + 1).to_set() == s.subrange(0, j).to_set().insert(s[j]),
{
    assert(s.subrange(0, j + 1) =~= s.subrange(0, j).push(s[j]));
    lemma_push_set(s.subrange(0, j), s[j]);
}

/// The line between two small cells has at least one cell.
proof fn lemma_line_nonempty(a: Cell, b: Cell)
    ensures
        line_cells(a, b).len() >= 1,
{
    reveal(line_cells);
    crate::line::lemma_line_trace_connects(a.0 as int, a.1 as int, b.0 as int, b.1 as int);
    let t = line_trace(a.0 as int, a.1 as int, b.0 as int, b.1 as int);
    assert(t[0] == (a.0 as int, a.1 as int));
    assert(t.len() >= 1);
    assert(visible(t) == seq![(t[0].0 as usize, t[0].1 as usize)] + visible(t.drop_first()));
}

impl Controls {
    /// The left-button part of the state.
    pub open spec fn drag_state(&self) -> DragState {
        (self.lmb_was_down, self.lmb_dragged, self.lmb_erasing, self.lmb_start_cell, self.line_preview@, self.line_flipped@.to_set())
    }

    /// The pressed cell is small enough for line drawing.
    pub open spec fn wf(&self) -> bool {
        self.lmb_start_cell matches Some(c) ==> small_cell(c)
    }

    /// The viewer state at the start: walls shown, links and markers hidden,
    /// the next right click sets the start, nothing pressed.
    pub fn new(start: Cell, goal: Cell) -> (res: Controls)
        ensures
            res.wf(),
            res.start == start,
            res.goal == goal,
            res.click_sets_start,
            res.show_walls && !res.show_links && !res.show_markers,
            res.prev_keys == (Keys { c: false, d: false, w: false, l: false, m: false, s: false }),
            res.drag_state() == (false, false, false, None::<Cell>, Seq::<Cell>::empty(), Set::<Cell>::empty()),
            !res.rmb_was_down,
            !res.dirty,
    {
        let res = Controls {
            start,
            goal,
            click_sets_start: true,
            show_walls: true,
            show_links: false,
            show_markers: false,
            prev_keys: Keys { c: false, d: false, w: false, l: false, m: false, s: false },
            lmb_was_down: false,
            lmb_dragged: false,
            lmb_erasing: false,
            lmb_start_cell: None,
            line_preview: Vec::new(),
            line_flipped: Vec::new(),
            rmb_was_down: false,
            dirty: false,
        };
        assert(res.line_flipped@.to_set() =~= Set::<Cell>::empty());
        res
    }

    /// The window was resized: it must be redrawn.
    pub fn resized(&mut self)
        ensures
            final(self).dirty,
            final(self).start == old(self).start,
            final(self).goal == old(self).goal,
            final(self).click_sets_start == old(self).click_sets_start,
            final(self).show_walls == old(self).show_walls,
            final(self).show_links == old(self).show_links,
            final(self).show_markers == old(self).show_markers,
            final(self).prev_keys == old(self).prev_keys,
            final(self).drag_state() == old(self).drag_state(),
            final(self).rmb_was_down == old(self).rmb_was_down,
    {
        self.dirty = true;
    }

    /// Key handling on key-down edges: C clears painted walls, D toggles
    /// diagonal movement, W/L/M toggle wall/link/marker visibility, S
    /// exports. A held shape key (`shape_pick`: the shape with its default
    /// start and goal) switches shape, clears painted walls, places start
    /// and goal and makes the next right click set the start.
    pub fn on_keys(&mut self, keys: Keys, shape_pick: Option<(Shape, Cell, Cell)>) -> (r: KeyReaction)
        ensures
            r.clear_painted == (edge(keys.c, old(self).prev_keys.c) || shape_pick is Some),
            r.toggle_cardinal == edge(keys.d, old(self).prev_keys.d),
            r.export == edge(keys.s, old(self).prev_keys.s),
            r.shape == match shape_pick {
                Some(p) => Some(p.0),
                None => None,
            },
            r.rebuild == if edge(keys.c, old(self).prev_keys.c) || edge(keys.d, old(self).prev_keys.d) || shape_pick is Some {
                Rebuild::Full
            } else {
                Rebuild::Keep
            },
            final(self).show_walls == (old(self).show_walls != edge(keys.w, old(self).prev_keys.w)),
            final(self).show_links == (old(self).show_links != edge(keys.l, old(self).prev_keys.l)),
            final(self).show_markers == (old(self).show_markers != edge(keys.m, old(self).prev_keys.m)),
            final(self).prev_keys == keys,
            final(self).dirty == (old(self).dirty || edge(keys.c, old(self).prev_keys.c) || edge(keys.d, old(self).prev_keys.d)
                || edge(keys.w, old(self).prev_keys.w) || edge(keys.l, old(self).prev_keys.l) || edge(keys.m, old(self).prev_keys.m)
                || shape_pick is Some),
            match shape_pick {
                Some(p) => final(self).start == p.1 && final(self).goal == p.2 && final(self).click_sets_start,
                None => final(self).start == old(self).start && final(self).goal == old(self).goal
                    && final(self).click_sets_start == old(self).click_sets_start,
            },
            final(self).drag_state() == old(self).drag_state(),
            final(self).rmb_was_down == old(self).rmb_was_down,
            final(self).wf() == old(self).wf(),
    {
        let prev = self.prev_keys;
        let ec = keys.c && !prev.c;
        let ed = keys.d && !prev.d;
        let ew = keys.w && !prev.w;
        let el = keys.l && !prev.l;
        let em = keys.m && !prev.m;
        let es = keys.s && !prev.s;
        let picked = shape_pick.is_some();
        self.show_walls = self.show_walls != ew;
        self.show_links = self.show_links != el;
        self.show_markers = self.show_markers != em;
        let shape = match shape_pick {
            Some((shape, start, goal)) => {
                self.start = start;
                self.goal = goal;
                self.click_sets_start = true;
                Some(shape)
            },
            None => None,
        };
        self.dirty = self.dirty || ec || ed || ew || el || em || picked;
        self.prev_keys = keys;
        KeyReaction {
            clear_painted: ec || picked,
            toggle_cardinal: ed,
            shape,
            export: es,
            rebuild: if ec || ed || picked {
                Rebuild::Full
            } else {
                Rebuild::Keep
            },
        }
    }

    /// Left mouse: a press remembers the cell under the pointer (erasing
    /// when Ctrl is held); once the pointer has moved more than the drag
    /// threshold (`moved_far`) the press is a drag, and the previewed wall
    /// line from the pressed cell to the cell under the pointer is re-drawn
    /// in `walls` whenever it changes, undoing the previous preview's
    /// changes first; a release after a drag keeps the line, a release
    /// without a drag toggles the pressed cell.
    pub fn on_left(
        &mut self,
        walls: &mut Walls,
        lmb_down: bool,
        has_mouse: bool,
        mouse_cell: Option<Cell>,
        ctrl: bool,
        moved_far: bool,
    ) -> (r: LeftReaction)
        requires
            old(self).wf(),
            mouse_cell matches Some(c) ==> small_cell(c),
        ensures
            final(self).wf(),
            (final(self).drag_state(), final(walls)@, left_out(r)) == left_spec(
                old(self).drag_state(),
                old(walls)@,
                lmb_down,
                has_mouse,
                mouse_cell,
                ctrl,
                moved_far,
            ),
            final(self).dirty == (old(self).dirty || r.rebuild != Rebuild::Keep),
            final(self).start == old(self).start,
            final(self).goal == old(self).goal,
            final(self).click_sets_start == old(self).click_sets_start,
            final(self).show_walls == old(self).show_walls,
            final(self).show_links == old(self).show_links,
            final(self).show_markers == old(self).show_markers,
            final(self).prev_keys == old(self).prev_keys,
            final(self).rmb_was_down == old(self).rmb_was_down,
    {
        if lmb_down {
            if has_mouse {
                self.held(walls, mouse_cell, ctrl, moved_far)
            } else {
                self.lmb_was_down = true;
                LeftReaction { record_press: false, forget_press: false, rebuild: Rebuild::Keep }
            }
        } else if self.lmb_was_down {
            let r = self.release(walls);
            if r.rebuild != Rebuild::Keep {
                self.dirty = true;
            }
            r
        } else {
            LeftReaction { record_press: false, forget_press: false, rebuild: Rebuild::Keep }
        }
    }

    /// A frame with the button down over the window.
    fn held(&mut self, walls: &mut Walls, mouse_cell: Option<Cell>, ctrl: bool, moved_far: bool) -> (r: LeftReaction)
        requires
            old(self).wf(),
            mouse_cell matches Some(c) ==> small_cell(c),
        ensures
            final(self).wf(),
            (final(self).drag_state(), final(walls)@, left_out(r)) == left_spec(
                old(self).drag_state(),
                old(walls)@,
                true,
                true,
                mouse_cell,
                ctrl,
                moved_far,
            ),
            final(self).dirty == (old(self).dirty || r.rebuild != Rebuild::Keep),
            final(self).start == old(self).start,
            final(self).goal == old(self).goal,
            final(self).click_sets_start == old(self).click_sets_start,
            final(self).show_walls == old(self).show_walls,
            final(self).show_links == old(self).show_links,
            final(self).show_markers == old(self).show_markers,
            final(self).prev_keys == old(self).prev_keys,
            final(self).rmb_was_down == old(self).rmb_was_down,
    {
        let ghost st0 = self.drag_state();
        let ghost p0 = walls@;
        let press = !self.lmb_was_down;
        self.press(mouse_cell, ctrl, moved_far);
        let ghost st1 = self.drag_state();
        let rebuild = self.drag(walls, mouse_cell);
        if rebuild != Rebuild::Keep {
            self.dirty = true;
        }
        let r = LeftReaction { record_press: press, forget_press: false, rebuild };
        assert(st1 == press_spec(st0, mouse_cell, ctrl, moved_far));
        assert((self.drag_state(), walls@, rebuild) == drag_spec(st1, p0, mouse_cell));
        r
    }

    #[verifier::rlimit(60)]
    fn press(&mut self, mouse_cell: Option<Cell>, ctrl: bool, moved_far: bool)
        requires
            old(self).wf(),
            mouse_cell matches Some(c) ==> small_cell(c),
        ensures
            final(self).wf(),
            final(self).drag_state() == press_spec(old(self).drag_state(), mouse_cell, ctrl, moved_far),
            final(self).dirty == old(self).dirty,
            final(self).start == old(self).start,
            final(self).goal == old(self).goal,
            final(self).click_sets_start == old(self).click_sets_start,
            final(self).show_walls == old(self).show_walls,
            final(self).show_links == old(self).show_links,
            final(self).show_markers == old(self).show_markers,
            final(self).prev_keys == old(self).prev_keys,
            final(self).rmb_was_down == old(self).rmb_was_down,
    {
        if !self.lmb_was_down {
            self.lmb_start_cell = mouse_cell;
            self.lmb_dragged = false;
            self.lmb_erasing = ctrl;
            self.line_preview = Vec::new();
            self.line_flipped = Vec::new();
            assert(self.line_preview@ =~= Seq::<Cell>::empty());
            assert(self.line_flipped@.to_set() =~= Set::<Cell>::empty());
        } else if moved_far {
            self.lmb_dragged = true;
        }
        self.lmb_was_down = true;
    }

    #[verifier::rlimit(60)]
    fn drag(&mut self, walls: &mut Walls, mouse_cell: Option<Cell>) -> (rebuild: Rebuild)
        requires
            old(self).wf(),
            mouse_cell matches Some(c) ==> small_cell(c),
        ensures
            final(self).wf(),
            (final(self).drag_state(), final(walls)@, rebuild) == drag_spec(old(self).drag_state(), old(walls)@, mouse_cell),
            final(self).dirty == old(self).dirty,
            final(self).start == old(self).start,
            final(self).goal == old(self).goal,
            final(self).click_sets_start == old(self).click_sets_start,
            final(self).show_walls == old(self).show_walls,
            final(self).show_links == old(self).show_links,
            final(self).show_markers == old(self).show_markers,
            final(self).prev_keys == old(self).prev_keys,
            final(self).rmb_was_down == old(self).rmb_was_down,
    {
        proof {
            reveal(drag_spec);
        }
        if self.lmb_dragged {
            match (self.lmb_start_cell, mouse_cell) {
                (Some(sc), Some(ec)) => {
                    let new_line = bresenham(sc.0 as i32, sc.1 as i32, ec.0 as i32, ec.1 as i32);
                    proof {
                        reveal(line_cells);
                    }
                    if !same_cells(&new_line, &self.line_preview) {
                        let erasing = self.lmb_erasing;
                        let mut undo: Vec<Cell> = Vec::new();
                        std::mem::swap(&mut undo, &mut self.line_flipped);
                        let ghost p0 = walls@;
                        // Undo the previous preview's changes.
                        let mut i: usize = 0;
                        while i < undo.len()
                            invariant
                                i <= undo@.len(),
                                walls@ == if erasing {
                                    p0.union(undo@.subrange(0, i as int).to_set())
                                } else {
                                    p0.difference(undo@.subrange(0, i as int).to_set())
                                },
                            decreases undo@.len() - i,
                        {
                            let c = undo[i];
                            let ghost w0 = walls@;
                            if erasing {
                                walls.insert(c);
                            } else {
                                walls.remove(c);
                            }
                            proof {
                                lemma_prefix_set(undo@, i as int);
                                let sub = undo@.subrange(0, i as int).to_set();
                                if erasing {
                                    assert(walls@ =~= p0.union(sub.insert(c)));
                                } else {
                                    assert(walls@ =~= p0.difference(sub.insert(c)));
                                }
                            }
                            i += 1;
                        }
                        assert(undo@.subrange(0, undo@.len() as int) =~= undo@);
                        let ghost base = walls@;
                        // Paint (or erase) the new line, remembering what changed.
                        let mut changed: Vec<Cell> = Vec::new();
                        let mut j: usize = 0;
                        while j < new_line.len()
                            invariant
                                j <= new_line@.len(),
                                walls@ == if erasing {
                                    base.difference(new_line@.subrange(0, j as int).to_set())
                                } else {
                                    base.union(new_line@.subrange(0, j as int).to_set())
                                },
                                changed@.to_set() == if erasing {
                                    base.intersect(new_line@.subrange(0, j as int).to_set())
                                } else {
                                    new_line@.subrange(0, j as int).to_set().difference(base)
                                },
                            decreases new_line@.len() - j,
                        {
                            let c = new_line[j];
                            let ghost ch0 = changed@;
                            let hit = if erasing {
                                walls.remove(c)
                            } else {
                                walls.insert(c)
                            };
                            if hit {
                                changed.push(c);
                            }
                            proof {
                                lemma_prefix_set(new_line@, j as int);
                                lemma_push_set(ch0, c);
                                let sub = new_line@.subrange(0, j as int).to_set();
                                if erasing {
                                    assert(walls@ =~= base.difference(sub.insert(c)));
                                    assert(changed@.to_set() =~= base.intersect(sub.insert(c)));
                                } else {
                                    assert(walls@ =~= base.union(sub.insert(c)));
                                    assert(changed@.to_set() =~= sub.insert(c).difference(base));
                                }
                            }
                            j += 1;
                        }
                        assert(new_line@.subrange(0, new_line@.len() as int) =~= new_line@);
                        self.line_preview = new_line;
                        self.line_flipped = changed;
                        return Rebuild::WallsOnly;
                    }
                },
                _ => {},
            }
        }
        Rebuild::Keep
    }

    fn release(&mut self, walls: &mut Walls) -> (r: LeftReaction)
        requires
            old(self).wf(),
        ensures
            final(self).wf(),
            (final(self).drag_state(), final(walls)@, left_out(r)) == release_spec(old(self).drag_state(), old(walls)@),
            final(self).dirty == old(self).dirty,
            final(self).start == old(self).start,
            final(self).goal == old(self).goal,
            final(self).click_sets_start == old(self).click_sets_start,
            final(self).show_walls == old(self).show_walls,
            final(self).show_links == old(self).show_links,
            final(self).show_markers == old(self).show_markers,
            final(self).prev_keys == old(self).prev_keys,
            final(self).rmb_was_down == old(self).rmb_was_down,
    {
        proof {
            reveal(release_spec);
        }
        let mut r = LeftReaction { record_press: false, forget_press: true, rebuild: Rebuild::Keep };
        if self.lmb_dragged && self.line_preview.len() > 0 {
            r.rebuild = Rebuild::Full;
        } else if !self.lmb_dragged {
            match self.lmb_start_cell {
                Some(c) => {
                    if !walls.remove(c) {
                        walls.insert(c);
                    }
                    r.rebuild = Rebuild::Full;
                },
                None => {},
            }
        }
        self.line_preview = Vec::new();
        self.line_flipped = Vec::new();
        self.lmb_start_cell = None;
        self.lmb_was_down = false;
        assert(self.line_preview@ =~= Seq::<Cell>::empty());
        assert(self.line_flipped@.to_set() =~= Set::<Cell>::empty());
        r
    }

    /// Right mouse: on a press over an open cell (`cell`), set the start or
    /// the goal, alternately.
    pub fn on_right(&mut self, rmb_down: bool, cell: Option<Cell>) -> (rebuild: Rebuild)
        ensures
            (final(self).start, final(self).goal, final(self).click_sets_start, final(self).rmb_was_down, rebuild) == right_spec(
                (old(self).start, old(self).goal, old(self).click_sets_start, old(self).rmb_was_down),
                rmb_down,
                cell,
            ),
            final(self).dirty == (old(self).dirty || rebuild != Rebuild::Keep),
            (rebuild == Rebuild::Full) == (rmb_down && !old(self).rmb_was_down && cell is Some),
            rmb_down && !old(self).rmb_was_down && cell is Some ==> final(self).dirty && (final(self).start == cell->0
                || final(self).goal == cell->0),
            final(self).show_walls == old(self).show_walls,
            final(self).show_links == old(self).show_links,
            final(self).show_markers == old(self).show_markers,
            final(self).prev_keys == old(self).prev_keys,
            final(self).drag_state() == old(self).drag_state(),
            final(self).wf() == old(self).wf(),
    {
        let mut rebuild = Rebuild::Keep;
        if rmb_down && !self.rmb_was_down {
            match cell {
                Some(c) => {
                    if self.click_sets_start {
                        self.start = c;
                    } else {
                        self.goal = c;
                    }
                    self.click_sets_start = !self.click_sets_start;
                    rebuild = Rebuild::Full;
                    self.dirty = true;
                },
                None => {},
            }
        }
        self.rmb_was_down = rmb_down;
        rebuild
    }

    /// Whether the window needs redrawing; clears the request.
    pub fn take_dirty(&mut self) -> (res: bool)
        ensures
            res == old(self).dirty,
            !final(self).dirty,
            final(self).start == old(self).start,
            final(self).goal == old(self).goal,
            final(self).click_sets_start == old(self).click_sets_start,
            final(self).show_walls == old(self).show_walls,
            final(self).show_links == old(self).show_links,
            final(self).show_markers == old(self).show_markers,
            final(self).prev_keys == old(self).prev_keys,
            final(self).drag_state() == old(self).drag_state(),
            final(self).rmb_was_down == old(self).rmb_was_down,
    {
        let res = self.dirty;
        self.dirty = false;
        res
    }
}

} // verus!
