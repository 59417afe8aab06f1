use vstd::prelude::*;

verus! {

/// A grid cell, `(x, y)`, with `x` the column and `y` the row.
pub type Cell = (usize, usize);

/// Largest width or height a grid may have. Cell coordinates are combined in
/// `i32`/`u32` arithmetic (squared distances, path costs), which this keeps in range.
pub const MAX_SIDE: usize = 16384;

/// `rows` holds `h` rows of `w` entries each.
pub open spec fn shaped<T>(rows: Seq<Vec<T>>, w: int, h: int) -> bool {
    &&& rows.len() == h
    &&& forall|y: int| 0 <= y < h ==> (#[trigger] rows[y])@.len() == w
}

/// The entry of `rows` at column `x`, row `y`.
pub open spec fn at<T>(rows: Seq<Vec<T>>, x: int, y: int) -> T {
    rows[y]@[x]
}

/// The boundary of a scene, sampled on its cells: `cells[y][x]` is true when the
/// cell at `(x, y)` is blocked.
pub struct Grid {
    pub width: usize,
    pub height: usize,
    pub cells: Vec<Vec<bool>>,
}

impl View for Grid {
    type V = (nat, nat, Seq<Seq<bool>>);

    open spec fn view(&self) -> (nat, nat, Seq<Seq<bool>>) {
        (self.width as nat, self.height as nat, self.cells@.map_values(|r: Vec<bool>| r@))
    }
}

impl Grid {
    pub open spec fn wf(&self) -> bool {
        &&& self.width <= MAX_SIDE
        &&& self.height <= MAX_SIDE
        &&& shaped(self.cells@, self.width as int, self.height as int)
    }

    pub open spec fn in_bounds(&self, x: int, y: int) -> bool {
        0 <= x < self.width && 0 <= y < self.height
    }

    pub open spec fn blocked_at(&self, x: int, y: int) -> bool {
        at(self.cells@, x, y)
    }

    /// In the grid and not blocked.
    pub open spec fn passable(&self, x: int, y: int) -> bool {
        self.in_bounds(x, y) && !self.blocked_at(x, y)
    }

    /// Builds a grid from its rows; `None` when the rows do not form a
    /// `width` x `height` rectangle, or a side exceeds `MAX_SIDE`.
    pub fn new(width: usize, height: usize, cells: Vec<Vec<bool>>) -> (res: Option<Grid>)
        ensures
            res is Some <==> (width <= MAX_SIDE && height <= MAX_SIDE && shaped(
                cells@,
                width as int,
                height as int,
            )),
            res matches Some(g) ==> g.width == width && g.height == height && g.cells@ == cells@,
    {
        if width > MAX_SIDE || height > MAX_SIDE || cells.len() != height {
            return None;
        }
        let mut y: usize = 0;
        while y < height
            invariant
                y <= height,
                cells@.len() == height,
                forall|j: int| 0 <= j < y ==> (#[trigger] cells@[j])@.len() == width,
            decreases height - y,
        {
            if cells[y].len() != width {
                return None;
            }
            y += 1;
        }
        Some(Grid { width, height, cells })
    }

    /// Whether the cell at `(x, y)` is blocked.
    pub fn blocked(&self, x: usize, y: usize) -> (res: bool)
        requires
            self.wf(),
            self.in_bounds(x as int, y as int),
        ensures
            res == self.blocked_at(x as int, y as int),
    {
        self.cells[y][x]
    }
}

/// A `w` x `h` array of rows, every entry `init`.
pub fn new_rows<T: Copy>(w: usize, h: usize, init: T) -> (res: Vec<Vec<T>>)
    ensures
        shaped(res@, w as int, h as int),
        forall|x: int, y: int| 0 <= x < w && 0 <= y < h ==> at(res@, x, y) == init,
{
    let mut res: Vec<Vec<T>> = Vec::new();
    let mut y: usize = 0;
    while y < h
        invariant
            y <= h,
            shaped(res@, w as int, y as int),
            forall|i: int, j: int| 0 <= i < w && 0 <= j < y ==> at(res@, i, j) == init,
        decreases h - y,
    {
        let mut row: Vec<T> = Vec::new();
        let mut x: usize = 0;
        while x < w
            invariant
                x <= w,
                row@.len() == x,
                forall|i: int| 0 <= i < x ==> row@[i] == init,
            decreases w - x,
        {
            row.push(init);
            x += 1;
        }
        let ghost before = res@;
        res.push(row);
        assert forall|i: int, j: int| 0 <= i < w && 0 <= j < y + 1 implies at(res@, i, j) == init by {
            if j < y {
                assert(res@[j] == before[j]);
                assert(at(before, i, j) == init);
            } else {
                assert(res@[j] == row);
                assert(row@[i] == init);
            }
        }
        y += 1;
    }
    res
}

/// Sets the entry at `(x, y)` of a rectangular array of rows.
pub fn set_at<T>(rows: &mut Vec<Vec<T>>, x: usize, y: usize, v: T)
    requires
        y < old(rows)@.len(),
        x < old(rows)@[y as int]@.len(),
    ensures
        final(rows)@.len() == old(rows)@.len(),
        forall|j: int| 0 <= j < old(rows)@.len() && j != y ==> #[trigger] final(rows)@[j] == old(rows)@[j],
        final(rows)@[y as int]@ == old(rows)@[y as int]@.update(x as int, v),
{
    rows[y].set(x, v);
}

/// Number of true entries in a row.
pub open spec fn count_row(s: Seq<bool>) -> nat
    decreases s.len(),
{
    if s.len() == 0 {
        0
    } else {
        count_row(s.drop_last()) + if s.last() { 1nat } else { 0nat }
    }
}

/// Number of true entries in an array of rows.
pub open spec fn count_rows(rows: Seq<Vec<bool>>) -> nat
    decreases rows.len(),
{
    if rows.len() == 0 {
        0
    } else {
        count_rows(rows.drop_last()) + count_row(rows.last()@)
    }
}

pub proof fn lemma_count_row_bound(s: Seq<bool>)
    ensures
        count_row(s) <= s.len(),
    decreases s.len(),
{
    if s.len() > 0 {
        lemma_count_row_bound(s.drop_last());
    }
}

pub proof fn lemma_count_row_set(s: Seq<bool>, x: int)
    requires
        0 <= x < s.len(),
        !s[x],
    ensures
        count_row(s.update(x, true)) == count_row(s) + 1,
    decreases s.len(),
{
    let t = s.update(x, true);
    if x == s.len() - 1 {
        assert(t.drop_last() =~= s.drop_last());
    } else {
        assert(t.drop_last() =~= s.drop_last().update(x, true));
        lemma_count_row_set(s.drop_last(), x);
    }
}

pub proof fn lemma_count_rows_bound(rows: Seq<Vec<bool>>, w: int)
    requires
        w >= 0,
        forall|j: int| 0 <= j < rows.len() ==> (#[trigger] rows[j])@.len() == w,
    ensures
        count_rows(rows) <= rows.len() * w,
    decreases rows.len(),
{
    if rows.len() > 0 {
        let n = rows.len() as int;
        lemma_count_rows_bound(rows.drop_last(), w);
        lemma_count_row_bound(rows.last()@);
        assert((n - 1) * w + w == n * w) by (nonlinear_arith);
    }
}

/// Setting one false entry of an array of rows raises the count by one.
pub proof fn lemma_count_rows_set(rows: Seq<Vec<bool>>, after: Seq<Vec<bool>>, x: int, y: int)
    requires
        0 <= y < rows.len(),
        0 <= x < rows[y]@.len(),
        !rows[y]@[x],
        after.len() == rows.len(),
        forall|j: int| 0 <= j < rows.len() && j != y ==> #[trigger] after[j]@ == rows[j]@,
        after[y]@ == rows[y]@.update(x, true),
    ensures
        count_rows(after) == count_rows(rows) + 1,
    decreases rows.len(),
{
    if y == rows.len() - 1 {
        lemma_count_row_set(rows[y]@, x);
        lemma_count_rows_same(rows.drop_last(), after.drop_last());
    } else {
        lemma_count_rows_set(rows.drop_last(), after.drop_last(), x, y);
        assert(after.last()@ == rows.last()@);
    }
}

pub proof fn lemma_count_row_all_false(s: Seq<bool>)
    requires
        forall|x: int| 0 <= x < s.len() ==> !#[trigger] s[x],
    ensures
        count_row(s) == 0,
    decreases s.len(),
{
    if s.len() > 0 {
        lemma_count_row_all_false(s.drop_last());
    }
}

/// An array of rows with no true entry counts zero.
pub proof fn lemma_count_rows_all_false(rows: Seq<Vec<bool>>)
    requires
        forall|y: int, x: int| 0 <= y < rows.len() && 0 <= x < rows[y]@.len() ==> !#[trigger] rows[y]@[x],
    ensures
        count_rows(rows) == 0,
    decreases rows.len(),
{
    if rows.len() > 0 {
        lemma_count_rows_all_false(rows.drop_last());
        let last = rows.last()@;
        assert forall|x: int| 0 <= x < last.len() implies !#[trigger] last[x] by {
            assert(!rows[rows.len() - 1]@[x]);
        }
        lemma_count_row_all_false(last);
    }
}

proof fn lemma_count_rows_same(a: Seq<Vec<bool>>, b: Seq<Vec<bool>>)
    requires
        a.len() == b.len(),
        forall|j: int| 0 <= j < a.len() ==> #[trigger] a[j]@ == b[j]@,
    ensures
        count_rows(a) == count_rows(b),
    decreases a.len(),
{
    if a.len() > 0 {
        lemma_count_rows_same(a.drop_last(), b.drop_last());
        assert(a.last()@ == b.last()@);
    }
}

} // verus!
