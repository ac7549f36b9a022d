//! The drawing surface: an 80-column grid of character cells that grows
//! downward on demand (up to `MAX_ROWS` rows).
use vstd::prelude::*;

verus! {

pub const WIDTH: usize = 80;

pub const MAX_ROWS: usize = 1000;

/// One text cell: a glyph with a foreground and a background color index.
#[derive(Clone, Copy, PartialEq, Eq, Debug, Structural)]
pub struct Cell {
    pub ch: char,
    pub fg: u8,
    pub bg: u8,
}

/// The empty cell: a space, light gray on black.
pub open spec fn blank_cell() -> Cell {
    Cell { ch: ' ', fg: 7, bg: 0 }
}

impl Default for Cell {
    fn default() -> (c: Cell)
        ensures
            c == blank_cell(),
    {
        Cell { ch: ' ', fg: 7, bg: 0 }
    }
}

impl Cell {
    /// A cell is blank when it shows nothing: a space on a black background
    /// (its foreground color does not matter).
    pub open spec fn blank(self) -> bool {
        self.ch == ' ' && self.bg == 0
    }

    pub fn is_blank(&self) -> (r: bool)
        ensures
            r == self.blank(),
    {
        self.ch == ' ' && self.bg == 0
    }
}

/// A row of `WIDTH` empty cells.
pub open spec fn blank_row() -> Seq<Cell> {
    Seq::new(WIDTH as nat, |i: int| blank_cell())
}

/// `n` empty rows.
pub open spec fn blank_rows(n: nat) -> Seq<Seq<Cell>> {
    Seq::new(n, |i: int| blank_row())
}

/// Every row holds exactly `WIDTH` cells and there is at least one row.
pub open spec fn grid_wf(v: Seq<Seq<Cell>>) -> bool {
    &&& v.len() >= 1
    &&& forall|y: int| 0 <= y < v.len() ==> (#[trigger] v[y]).len() == WIDTH
}

/// The cell shown at (x, y); anything outside the grid reads as blank.
pub open spec fn cell_at(v: Seq<Seq<Cell>>, x: int, y: int) -> Cell {
    if 0 <= y < v.len() && 0 <= x < v[y].len() {
        v[y][x]
    } else {
        blank_cell()
    }
}

/// The grid after making row `y` exist (rows are never added past `MAX_ROWS`).
pub open spec fn grown(v: Seq<Seq<Cell>>, y: int) -> Seq<Seq<Cell>> {
    let target = if y + 1 < MAX_ROWS { y + 1 } else { MAX_ROWS as int };
    if v.len() < target {
        v + blank_rows((target - v.len()) as nat)
    } else {
        v
    }
}

/// The grid after writing `c` at (x, y); writes outside `WIDTH` x `MAX_ROWS`
/// are ignored.
pub open spec fn put(v: Seq<Seq<Cell>>, x: int, y: int, c: Cell) -> Seq<Seq<Cell>> {
    if 0 <= x < WIDTH && 0 <= y < MAX_ROWS {
        let g = grown(v, y);
        g.update(y, g[y].update(x, c))
    } else {
        v
    }
}

/// The grid after inserting an empty row at `y` (the last row falls off when
/// the grid would exceed `MAX_ROWS`).
pub open spec fn inserted_line(v: Seq<Seq<Cell>>, y: int) -> Seq<Seq<Cell>> {
    if 0 <= y <= v.len() {
        let w = v.insert(y, blank_row());
        if w.len() > MAX_ROWS {
            w.drop_last()
        } else {
            w
        }
    } else {
        v
    }
}

/// The grid after removing row `y` (an empty grid gets one empty row back).
pub open spec fn deleted_line(v: Seq<Seq<Cell>>, y: int) -> Seq<Seq<Cell>> {
    let w = if 0 <= y < v.len() {
        v.remove(y)
    } else {
        v
    };
    if w.len() == 0 {
        seq![blank_row()]
    } else {
        w
    }
}

/// Row `y` with the cell at `x` removed and an empty cell appended.
pub open spec fn shifted_left(v: Seq<Seq<Cell>>, x: int, y: int) -> Seq<Seq<Cell>> {
    if 0 <= y < v.len() && 0 <= x < WIDTH {
        v.update(y, v[y].remove(x).push(blank_cell()))
    } else {
        v
    }
}

/// Row `y` with its last cell dropped and an empty cell inserted at `x`.
pub open spec fn shifted_right(v: Seq<Seq<Cell>>, x: int, y: int) -> Seq<Seq<Cell>> {
    if 0 <= y < v.len() && 0 <= x < WIDTH {
        v.update(y, v[y].drop_last().insert(x, blank_cell()))
    } else {
        v
    }
}

/// Growing the grid keeps it well formed and changes no cell.
pub proof fn lemma_grown(v: Seq<Seq<Cell>>, y: int)
    requires
        grid_wf(v),
    ensures
        grid_wf(grown(v, y)),
        grown(v, y).len() >= v.len(),
        0 <= y < MAX_ROWS ==> y < grown(v, y).len(),
        forall|x2: int, y2: int| #[trigger] cell_at(grown(v, y), x2, y2) == cell_at(v, x2, y2),
{
    let g = grown(v, y);
    assert forall|k: int| 0 <= k < g.len() implies (#[trigger] g[k]).len() == WIDTH by {
        if k >= v.len() {
            assert(g[k] == blank_row());
        }
    }
    assert forall|x2: int, y2: int| #[trigger] cell_at(g, x2, y2) == cell_at(v, x2, y2) by {
        if y2 >= v.len() && 0 <= y2 < g.len() {
            assert(g[y2] == blank_row());
        }
    }
}

/// Reading a cell after a write gives the written cell at the written
/// position (when the write is inside `WIDTH` x `MAX_ROWS`) and the old cell
/// everywhere else; the grid stays well formed.
pub proof fn lemma_put(v: Seq<Seq<Cell>>, x: int, y: int, c: Cell)
    requires
        grid_wf(v),
    ensures
        grid_wf(put(v, x, y, c)),
        forall|x2: int, y2: int| #[trigger]
            cell_at(put(v, x, y, c), x2, y2) == if x2 == x && y2 == y && 0 <= x < WIDTH && 0 <= y
                < MAX_ROWS {
                c
            } else {
                cell_at(v, x2, y2)
            },
{
    lemma_grown(v, y);
    if 0 <= x < WIDTH && 0 <= y < MAX_ROWS {
        let g = grown(v, y);
        let w = put(v, x, y, c);
        assert forall|k: int| 0 <= k < w.len() implies (#[trigger] w[k]).len() == WIDTH by {
        }
        assert forall|x2: int, y2: int| #[trigger]
            cell_at(w, x2, y2) == if x2 == x && y2 == y { c } else { cell_at(v, x2, y2) } by {
            assert(cell_at(g, x2, y2) == cell_at(v, x2, y2));
        }
    }
}

/// Deleting a line that was just inserted gives the grid back, as long as
/// the insertion did not push the last row off (fewer than `MAX_ROWS`
/// rows) and `y` is within the grid.
pub proof fn lemma_insert_delete(v: Seq<Seq<Cell>>, y: int)
    requires
        grid_wf(v),
        0 <= y <= v.len(),
        v.len() < MAX_ROWS,
    ensures
        deleted_line(inserted_line(v, y), y) == v,
{
    let w = v.insert(y, blank_row());
    assert(inserted_line(v, y) == w);
    assert(w.remove(y) =~= v);
}

/// Shifting a row right and then left at the same column gives the row
/// back when its last cell was the empty cell (the one shifted out).
pub proof fn lemma_shift_right_left(v: Seq<Seq<Cell>>, x: int, y: int)
    requires
        grid_wf(v),
        0 <= x < WIDTH,
        0 <= y < v.len(),
        v[y][WIDTH - 1] == blank_cell(),
    ensures
        shifted_left(shifted_right(v, x, y), x, y) == v,
{
    let r = v[y];
    assert(r.len() == WIDTH);
    let r2 = r.drop_last().insert(x, blank_cell());
    assert(r2.remove(x) =~= r.drop_last());
    assert(r.drop_last().push(blank_cell()) =~= r);
    assert(shifted_left(shifted_right(v, x, y), x, y) =~= v);
}

/// Shifting a row left and then right at the same column gives the row
/// back when the cell at the column was the empty cell (the one removed).
pub proof fn lemma_shift_left_right(v: Seq<Seq<Cell>>, x: int, y: int)
    requires
        grid_wf(v),
        0 <= x < WIDTH,
        0 <= y < v.len(),
        v[y][x] == blank_cell(),
    ensures
        shifted_right(shifted_left(v, x, y), x, y) == v,
{
    let r = v[y];
    assert(r.len() == WIDTH);
    let r2 = r.remove(x).push(blank_cell());
    assert(r2.drop_last() =~= r.remove(x));
    assert(r.remove(x).insert(x, blank_cell()) =~= r);
    assert(shifted_right(shifted_left(v, x, y), x, y) =~= v);
}

/// A row is used when some cell in it is not blank.
pub open spec fn row_used(r: Seq<Cell>) -> bool {
    exists|x: int| 0 <= x < r.len() && !(#[trigger] r[x]).blank()
}

/// Index of the last used row among the first `n` rows, or 0 when none is.
pub open spec fn last_used_below(v: Seq<Seq<Cell>>, n: int) -> int
    decreases n,
{
    if n <= 0 {
        0
    } else if row_used(v[n - 1]) {
        n - 1
    } else {
        last_used_below(v, n - 1)
    }
}

/// Index of the last used row, or 0 when no row is used.
pub open spec fn last_used(v: Seq<Seq<Cell>>) -> int {
    last_used_below(v, v.len() as int)
}

/// The last used row below `n` is below `n` (or 0), used (or 0), and
/// every row after it up to `n` is unused.
pub proof fn lemma_last_used_below(v: Seq<Seq<Cell>>, n: int)
    requires
        0 <= n <= v.len(),
    ensures
        0 <= last_used_below(v, n),
        n > 0 ==> last_used_below(v, n) < n,
        forall|y: int| last_used_below(v, n) < y < n ==> !row_used(#[trigger] v[y]),
        last_used_below(v, n) == 0 || row_used(v[last_used_below(v, n)]),
    decreases n,
{
    if n > 0 {
        lemma_last_used_below(v, n - 1);
    }
}

/// The canvas: its view is the sequence of rows, top to bottom.
pub struct Canvas {
    rows: Vec<Vec<Cell>>,
}

impl View for Canvas {
    type V = Seq<Seq<Cell>>;

    closed spec fn view(&self) -> Seq<Seq<Cell>> {
        self.rows@.map_values(|r: Vec<Cell>| r@)
    }
}

fn blank_row_vec() -> (r: Vec<Cell>)
    ensures
        r@ == blank_row(),
{
    let mut r: Vec<Cell> = Vec::new();
    let mut i: usize = 0;
    while i < WIDTH
        invariant
            i <= WIDTH,
            r@ == Seq::new(i as nat, |k: int| blank_cell()),
        decreases WIDTH - i,
    {
        r.push(Cell::default());
        i = i + 1;
    }
    r
}

fn copy_row(r: &Vec<Cell>) -> (c: Vec<Cell>)
    ensures
        c@ == r@,
{
    let mut c: Vec<Cell> = Vec::new();
    let mut i: usize = 0;
    while i < r.len()
        invariant
            i <= r@.len(),
            c@ == r@.take(i as int),
        decreases r@.len() - i,
    {
        c.push(r[i]);
        i = i + 1;
        assert(c@ =~= r@.take(i as int));
    }
    assert(r@.take(r@.len() as int) =~= r@);
    c
}

impl Clone for Canvas {
    /// A canvas with the same cells.
    fn clone(&self) -> (c: Canvas)
        ensures
            c@ == self@,
    {
        let mut rows: Vec<Vec<Cell>> = Vec::new();
        let mut y: usize = 0;
        while y < self.rows.len()
            invariant
                y <= self.rows@.len(),
                rows@.len() == y,
                forall|k: int| 0 <= k < y ==> (#[trigger] rows@[k])@ == self.rows@[k]@,
            decreases self.rows@.len() - y,
        {
            rows.push(copy_row(&self.rows[y]));
            y = y + 1;
        }
        let c = Canvas { rows };
        assert(c@ =~= self@);
        c
    }
}

impl Canvas {
    pub open spec fn wf(&self) -> bool {
        grid_wf(self@)
    }

    /// A canvas of `rows` empty rows (at least one).
    pub fn new(rows: usize) -> (c: Canvas)
        ensures
            c.wf(),
            c@ == blank_rows(if rows >= 1 { rows as nat } else { 1 }),
    {
        let n = if rows >= 1 { rows } else { 1 };
        let mut v: Vec<Vec<Cell>> = Vec::new();
        let mut i: usize = 0;
        while i < n
            invariant
                i <= n,
                v@.len() == i,
                forall|k: int| 0 <= k < i ==> (#[trigger] v@[k])@ == blank_row(),
            decreases n - i,
        {
            let row = blank_row_vec();
            v.push(row);
            i = i + 1;
        }
        let c = Canvas { rows: v };
        assert(c@ =~= blank_rows(n as nat));
        c
    }

    /// Number of rows currently held.
    pub fn height(&self) -> (n: usize)
        ensures
            n == self@.len(),
    {
        self.rows.len()
    }

    /// Grow the canvas so that row `y` exists (never past `MAX_ROWS` rows).
    pub fn ensure_row(&mut self, y: usize)
        requires
            old(self).wf(),
        ensures
            final(self).wf(),
            final(self)@ == grown(old(self)@, y as int),
    {
        let ghost start = self@;
        while self.rows.len() <= y && self.rows.len() < MAX_ROWS
            invariant
                grid_wf(self@),
                start.len() <= self@.len(),
                self@ == start + blank_rows((self@.len() - start.len()) as nat),
                start.len() >= (if y + 1 < MAX_ROWS { y + 1 } else { MAX_ROWS as int }) ==> self@
                    == start,
                self@.len() <= (if y + 1 < MAX_ROWS { y + 1 } else { MAX_ROWS as int }) || self@
                    == start,
            decreases MAX_ROWS - self.rows.len(),
        {
            let row = blank_row_vec();
            let ghost before = self@;
            self.rows.push(row);
            assert(self@ =~= before.push(blank_row()));
            assert(self@ =~= start + blank_rows((self@.len() - start.len()) as nat));
        }
        assert(self@ =~= grown(start, y as int));
    }

    /// The cell at (x, y); outside the canvas this is the blank cell.
    pub fn get(&self, x: usize, y: usize) -> (c: Cell)
        ensures
            c == cell_at(self@, x as int, y as int),
    {
        if y < self.rows.len() && x < self.rows[y].len() {
            self.rows[y][x]
        } else {
            Cell::default()
        }
    }

    /// Write a cell, growing the canvas down to row `y` as needed; writes
    /// outside `WIDTH` x `MAX_ROWS` are ignored.
    pub fn set(&mut self, x: usize, y: usize, c: Cell)
        requires
            old(self).wf(),
        ensures
            final(self).wf(),
            final(self)@ == put(old(self)@, x as int, y as int, c),
    {
        if x >= WIDTH || y >= MAX_ROWS {
            return;
        }
        self.ensure_row(y);
        let ghost g = self@;
        if y < self.rows.len() {
            assert(self@[y as int] == self.rows@[y as int]@);
            self.rows[y][x] = c;
        }
        assert(self@ =~= g.update(y as int, g[y as int].update(x as int, c)));
    }

    /// Insert an empty row at `y` (when `y` is at most the row count); the
    /// canvas never exceeds `MAX_ROWS` rows.
    pub fn insert_line(&mut self, y: usize)
        requires
            old(self).wf(),
        ensures
            final(self).wf(),
            final(self)@ == inserted_line(old(self)@, y as int),
    {
        let ghost start = self@;
        if y <= self.rows.len() {
            let row = blank_row_vec();
            self.rows.insert(y, row);
            assert(self@ =~= start.insert(y as int, blank_row()));
            if self.rows.len() > MAX_ROWS {
                let ghost w = self@;
                self.rows.pop();
                assert(self@ =~= w.drop_last());
            }
        }
    }

    /// Remove row `y`; a canvas left with no rows gets one empty row.
    pub fn delete_line(&mut self, y: usize)
        requires
            old(self).wf(),
        ensures
            final(self).wf(),
            final(self)@ == deleted_line(old(self)@, y as int),
    {
        let ghost start = self@;
        if y < self.rows.len() {
            self.rows.remove(y);
            assert(self@ =~= start.remove(y as int));
        }
        if self.rows.len() == 0 {
            let row = blank_row_vec();
            self.rows.push(row);
            assert(self@ =~= seq![blank_row()]);
        }
    }

    /// Shift the row right of x (inclusive) one cell to the left; last cell blanked.
    pub fn shift_left(&mut self, x: usize, y: usize)
        requires
            old(self).wf(),
        ensures
            final(self).wf(),
            final(self)@ == shifted_left(old(self)@, x as int, y as int),
    {
        if y >= self.rows.len() || x >= WIDTH {
            return;
        }
        let ghost start = self@;
        assert(start[y as int].len() == WIDTH);
        self.rows[y].remove(x);
        self.rows[y].push(Cell::default());
        assert(self@ =~= start.update(y as int, start[y as int].remove(x as int).push(blank_cell())));
    }

    /// Shift the row right of x (inclusive) one cell to the right; last cell lost.
    pub fn shift_right(&mut self, x: usize, y: usize)
        requires
            old(self).wf(),
        ensures
            final(self).wf(),
            final(self)@ == shifted_right(old(self)@, x as int, y as int),
    {
        if y >= self.rows.len() || x >= WIDTH {
            return;
        }
        let ghost start = self@;
        assert(start[y as int].len() == WIDTH);
        self.rows[y].pop();
        self.rows[y].insert(x, Cell::default());
        assert(self@ =~= start.update(
            y as int,
            start[y as int].drop_last().insert(x as int, blank_cell()),
        ));
    }

    fn row_is_used(&self, y: usize) -> (r: bool)
        requires
            self.wf(),
            y < self@.len(),
        ensures
            r == row_used(self@[y as int]),
    {
        let ghost row = self@[y as int];
        let mut x: usize = 0;
        while x < WIDTH
            invariant
                grid_wf(self@),
                y < self@.len(),
                row == self@[y as int],
                x <= WIDTH,
                forall|i: int| 0 <= i < x ==> (#[trigger] row[i]).blank(),
            decreases WIDTH - x,
        {
            if !self.rows[y][x].is_blank() {
                assert(!row[x as int].blank());
                return true;
            }
            x = x + 1;
        }
        false
    }

    /// Index of the last row containing any non-blank cell (0 when none does).
    pub fn last_used_row(&self) -> (r: usize)
        requires
            self.wf(),
        ensures
            r == last_used(self@),
            r < self@.len(),
            r == 0 || row_used(self@[r as int]),
            forall|y: int| r < y < self@.len() ==> !row_used(#[trigger] self@[y]),
    {
        let mut n = self.rows.len();
        while n > 0
            invariant
                grid_wf(self@),
                n <= self@.len(),
                last_used_below(self@, n as int) == last_used(self@),
            decreases n,
        {
            if self.row_is_used(n - 1) {
                proof {
                    lemma_last_used_below(self@, self@.len() as int);
                }
                return n - 1;
            }
            n = n - 1;
        }
        proof {
            lemma_last_used_below(self@, self@.len() as int);
        }
        0
    }

    /// First and last non-blank columns of a row, if any.
    pub fn line_bounds(&self, y: usize) -> (r: Option<(usize, usize)>)
        requires
            self.wf(),
        ensures
            match r {
                Some((f, l)) => {
                    &&& y < self@.len()
                    &&& f <= l < WIDTH
                    &&& !self@[y as int][f as int].blank()
                    &&& !self@[y as int][l as int].blank()
                    &&& forall|i: int| 0 <= i < f ==> (#[trigger] self@[y as int][i]).blank()
                    &&& forall|i: int| l < i < WIDTH ==> (#[trigger] self@[y as int][i]).blank()
                },
                None => y >= self@.len() || !row_used(self@[y as int]),
            },
    {
        if y >= self.rows.len() {
            return None;
        }
        let ghost row = self@[y as int];
        assert(row.len() == WIDTH);
        let mut f: usize = 0;
        while f < WIDTH
            invariant
                grid_wf(self@),
                y < self@.len(),
                row == self@[y as int],
                f <= WIDTH,
                forall|i: int| 0 <= i < f ==> (#[trigger] row[i]).blank(),
            ensures
                f <= WIDTH,
                forall|i: int| 0 <= i < f ==> (#[trigger] row[i]).blank(),
                f == WIDTH || !row[f as int].blank(),
            decreases WIDTH - f,
        {
            if !self.rows[y][f].is_blank() {
                break;
            }
            f = f + 1;
        }
        if f == WIDTH {
            return None;
        }
        let mut l: usize = WIDTH - 1;
        while l > f
            invariant
                grid_wf(self@),
                y < self@.len(),
                row == self@[y as int],
                f <= l < WIDTH,
                !row[f as int].blank(),
                forall|i: int| l < i < WIDTH ==> (#[trigger] row[i]).blank(),
            ensures
                f <= l < WIDTH,
                forall|i: int| l < i < WIDTH ==> (#[trigger] row[i]).blank(),
                !row[l as int].blank(),
            decreases l,
        {
            if !self.rows[y][l].is_blank() {
                break;
            }
            l = l - 1;
        }
        Some((f, l))
    }
}

} // verus!
