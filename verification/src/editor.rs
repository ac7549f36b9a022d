//! The editor's state and what its keys and mouse do: cursor movement, typing,
//! colors, character-set selection, undo and redo, and block selection
//! with copy, move, erase, fill, flips and stamping. The terminal front end
//! draws the state, runs the dialogs, and hands each key press here.
use vstd::prelude::*;

use crate::canvas::{
    Canvas, Cell, MAX_ROWS, WIDTH, blank_cell, cell_at, grid_wf, put, lemma_put, grown,
    lemma_grown, inserted_line, deleted_line, shifted_left, shifted_right, row_used, blank_rows,
    lemma_shift_right_left,
};
use crate::tdf::{ascii_lower, to_lower};

verus! {

/// Undo history is capped at this many steps.
pub const UNDO_CAP: usize = 300;

/// Every editor action, so keybindings, the command palette and the
/// sidebar all dispatch through one table.
#[derive(Clone, Copy, Debug, PartialEq, Eq, Structural)]
pub enum Cmd {
    Save,
    Load,
    Exit,
    Help,
    QuickPalette,
    CharPicker,
    CommandPalette,
    Block,
    Undo,
    Redo,
    InsertLine,
    DeleteLine,
    ClearPage,
    NextSet,
    PrevSet,
    SetCharset(usize),
    PickupColor,
    ToggleSidebar,
    SauceInfo,
    ExportPng,
}

/// A key as the terminal reports it.
#[derive(Clone, Copy, Debug, PartialEq, Eq, Structural)]
pub enum Key {
    Char(char),
    Up,
    Down,
    Left,
    Right,
    PageUp,
    PageDown,
    Home,
    End,
    Tab,
    BackTab,
    Enter,
    Backspace,
    Delete,
    Insert,
    Esc,
    F(u8),
    Other,
}

/// A key press with its modifiers.
#[derive(Clone, Copy, Debug, PartialEq, Eq, Structural)]
pub struct KeyPress {
    pub key: Key,
    pub ctrl: bool,
    pub alt: bool,
}

/// The editing mode.
pub enum Mode {
    Edit,
    /// Block selection anchored at (ax, ay); the cursor is the opposite
    /// corner.
    Select { ax: usize, ay: usize },
    /// Carrying a block; Enter stamps it at the cursor.
    Stamp { buf: Vec<Vec<Cell>> },
}

#[verifier::ext_equal]
pub enum ModeView {
    Edit,
    Select { ax: int, ay: int },
    Stamp { buf: Seq<Seq<Cell>> },
}

impl View for Mode {
    type V = ModeView;

    open spec fn view(&self) -> ModeView {
        match self {
            Mode::Edit => ModeView::Edit,
            Mode::Select { ax, ay } => ModeView::Select { ax: *ax as int, ay: *ay as int },
            Mode::Stamp { buf } => ModeView::Stamp { buf: buf@.map_values(|r: Vec<Cell>| r@) },
        }
    }
}

/// The status line an action leaves.
#[derive(Clone, Copy, Debug, PartialEq, Eq, Structural)]
pub enum Note {
    Undone,
    NothingToUndo,
    Redone,
    NothingToRedo,
    LineInserted,
    LineDeleted,
    PickedUpColor,
    StampHint,
    BlockFilled,
    FlippedHorizontally,
    FlippedVertically,
    Stamped,
    PageCleared,
    Loaded,
}

/// What the front end has to do after an event: nothing more, run a
/// command that needs it (a dialog or a file), or type glyph `n` of the
/// active character set.
#[derive(Clone, Copy, Debug, PartialEq, Eq, Structural)]
pub enum Outcome {
    Done,
    Run(Cmd),
    Glyph(usize),
}

/// A saved state for undo and redo: the canvas and the cursor.
#[verifier::ext_equal]
pub struct Snap {
    pub grid: Seq<Seq<Cell>>,
    pub x: int,
    pub y: int,
}

pub open spec fn snap_ok(s: Snap) -> bool {
    grid_wf(s.grid) && 0 <= s.x < WIDTH
}

/// A stored undo or redo step.
pub struct Snapshot {
    pub canvas: Canvas,
    pub x: usize,
    pub y: usize,
}

impl Snapshot {
    pub open spec fn snap(&self) -> Snap {
        Snap { grid: self.canvas@, x: self.x as int, y: self.y as int }
    }
}

/// The editor state as the contracts see it.
#[verifier::ext_equal]
pub struct EditorView {
    pub grid: Seq<Seq<Cell>>,
    pub x: int,
    pub y: int,
    pub top: int,
    pub view_h: int,
    pub fg: u8,
    pub bg: u8,
    pub set_idx: int,
    pub nsets: int,
    pub dirty: bool,
    pub undo: Seq<Snap>,
    pub redo: Seq<Snap>,
    pub mode: ModeView,
    pub note: Option<Note>,
    pub sidebar: bool,
    pub drag_from: Option<(int, int)>,
}

/// A carried block has at least one row, and every row between one and
/// `WIDTH` cells.
pub open spec fn stamp_ok(buf: Seq<Seq<Cell>>) -> bool {
    &&& buf.len() >= 1
    &&& forall|i: int| 0 <= i < buf.len() ==> 1 <= (#[trigger] buf[i]).len() <= WIDTH
}

/// The state invariant: a well-formed canvas, the cursor column, a
/// selection anchor and a drag origin on the canvas's width, the active
/// character set among the sets, a well-formed carried block, and
/// well-formed history steps.
pub open spec fn view_ok(s: EditorView) -> bool {
    &&& grid_wf(s.grid)
    &&& 0 <= s.x < WIDTH
    &&& 0 <= s.set_idx < s.nsets
    &&& match s.mode {
        ModeView::Select { ax, ay } => 0 <= ax < WIDTH,
        ModeView::Stamp { buf } => stamp_ok(buf),
        ModeView::Edit => true,
    }
    &&& match s.drag_from {
        Some((dx, dy)) => 0 <= dx < WIDTH,
        None => true,
    }
    &&& forall|k: int| 0 <= k < s.undo.len() ==> snap_ok(#[trigger] s.undo[k])
    &&& forall|k: int| 0 <= k < s.redo.len() ==> snap_ok(#[trigger] s.redo[k])
}

/// The canvas and cursor of a state.
pub open spec fn current(s: EditorView) -> Snap {
    Snap { grid: s.grid, x: s.x, y: s.y }
}

/// The undo history after recording `c`: the oldest step goes once there
/// are more than `UNDO_CAP`.
pub open spec fn capped_push(u: Seq<Snap>, c: Snap) -> Seq<Snap> {
    if u.len() + 1 > UNDO_CAP {
        u.push(c).drop_first()
    } else {
        u.push(c)
    }
}

/// The state after recording it for undo: the redo history is dropped and
/// the canvas counts as changed.
pub open spec fn recorded(s: EditorView) -> EditorView {
    EditorView { undo: capped_push(s.undo, current(s)), redo: Seq::empty(), dirty: true, ..s }
}

/// The state after an undo: the last undo step comes back and the state
/// left goes onto the redo history.
pub open spec fn undone(s: EditorView) -> EditorView {
    if s.undo.len() == 0 {
        EditorView { note: Some(Note::NothingToUndo), ..s }
    } else {
        let u = s.undo.last();
        EditorView {
            grid: u.grid,
            x: u.x,
            y: u.y,
            undo: s.undo.drop_last(),
            redo: s.redo.push(current(s)),
            note: Some(Note::Undone),
            ..s
        }
    }
}

/// The state after a redo: the last redo step comes back and the state
/// left goes onto the undo history.
pub open spec fn redone(s: EditorView) -> EditorView {
    if s.redo.len() == 0 {
        EditorView { note: Some(Note::NothingToRedo), ..s }
    } else {
        let r = s.redo.last();
        EditorView {
            grid: r.grid,
            x: r.x,
            y: r.y,
            undo: s.undo.push(current(s)),
            redo: s.redo.drop_last(),
            note: Some(Note::Redone),
            ..s
        }
    }
}

/// The state with its canvas and cursor replaced: what an edit does to
/// the parts that undo restores.
pub open spec fn edited(s: EditorView, g: Snap) -> EditorView {
    EditorView { grid: g.grid, x: g.x, y: g.y, ..s }
}

/// Undo right after recording gives back the canvas and cursor that were
/// recorded, whatever the edit in between did to them.
pub proof fn lemma_undo_restores(s: EditorView, g: Snap)
    ensures
        current(undone(edited(recorded(s), g))) == current(s),
        undone(edited(recorded(s), g)).redo == seq![g],
{
    let r = recorded(s);
    assert(capped_push(s.undo, current(s)).last() == current(s));
    assert(Seq::<Snap>::empty().push(g) =~= seq![g]);
}

/// Redo right after undo gives the state back, with its histories.
pub proof fn lemma_redo_undo(s: EditorView)
    requires
        s.undo.len() > 0,
    ensures
        redone(undone(s)) == (EditorView { note: Some(Note::Redone), ..s }),
{
    let u = undone(s);
    assert(u.redo.last() == current(s));
    assert(u.redo.drop_last() =~= s.redo);
    assert(u.undo.push(current(u)) =~= s.undo);
}

/// Undo right after redo gives the state back, with its histories.
pub proof fn lemma_undo_redo(s: EditorView)
    requires
        s.redo.len() > 0,
    ensures
        undone(redone(s)) == (EditorView { note: Some(Note::Undone), ..s }),
{
    let r = redone(s);
    assert(r.undo.last() == current(s));
    assert(r.undo.drop_last() =~= s.undo);
    assert(r.redo.push(current(r)) =~= s.redo);
}

/// Recording keeps the invariant, and the history never holds more than
/// `UNDO_CAP` steps when it held at most that many.
pub proof fn lemma_recorded_ok(s: EditorView)
    requires
        view_ok(s),
    ensures
        view_ok(recorded(s)),
        s.undo.len() <= UNDO_CAP ==> recorded(s).undo.len() <= UNDO_CAP,
{
    let u = capped_push(s.undo, current(s));
    assert forall|k: int| 0 <= k < u.len() implies snap_ok(#[trigger] u[k]) by {
        if s.undo.len() + 1 > UNDO_CAP {
            assert(u[k] == s.undo.push(current(s))[k + 1]);
        }
    }
}

/// Undo and redo keep the invariant.
pub proof fn lemma_undo_redo_ok(s: EditorView)
    requires
        view_ok(s),
    ensures
        view_ok(undone(s)),
        view_ok(redone(s)),
{
    if s.undo.len() > 0 {
        let u = undone(s);
        assert(snap_ok(s.undo[s.undo.len() - 1]));
        assert forall|k: int| 0 <= k < u.redo.len() implies snap_ok(#[trigger] u.redo[k]) by {
            if k < s.redo.len() {
                assert(u.redo[k] == s.redo[k]);
            }
        }
        assert forall|k: int| 0 <= k < u.undo.len() implies snap_ok(#[trigger] u.undo[k]) by {
            assert(u.undo[k] == s.undo[k]);
        }
    }
    if s.redo.len() > 0 {
        let r = redone(s);
        assert(snap_ok(s.redo[s.redo.len() - 1]));
        assert forall|k: int| 0 <= k < r.undo.len() implies snap_ok(#[trigger] r.undo[k]) by {
            if k < s.undo.len() {
                assert(r.undo[k] == s.undo[k]);
            }
        }
        assert forall|k: int| 0 <= k < r.redo.len() implies snap_ok(#[trigger] r.redo[k]) by {
            assert(r.redo[k] == s.redo[k]);
        }
    }
}

/// Two well-formed grids of the same height that show the same cells are
/// equal.
pub proof fn lemma_grid_eq(a: Seq<Seq<Cell>>, b: Seq<Seq<Cell>>)
    requires
        grid_wf(a),
        grid_wf(b),
        a.len() == b.len(),
        forall|x: int, y: int| #[trigger] cell_at(a, x, y) == cell_at(b, x, y),
    ensures
        a == b,
{
    assert forall|y: int| 0 <= y < a.len() implies a[y] =~= b[y] by {
        assert forall|x: int| 0 <= x < a[y].len() implies a[y][x] == b[y][x] by {
            assert(cell_at(a, x, y) == cell_at(b, x, y));
        }
    }
    assert(a =~= b);
}

/// The cells of the rectangle (x0, y0)-(x1, y1), row by row.
pub open spec fn block(g: Seq<Seq<Cell>>, x0: int, y0: int, x1: int, y1: int) -> Seq<Seq<Cell>> {
    Seq::new(
        (y1 - y0 + 1) as nat,
        |i: int| Seq::new((x1 - x0 + 1) as nat, |j: int| cell_at(g, x0 + j, y0 + i)),
    )
}

/// What a block command writes over the selected rectangle.
#[derive(Clone, Copy, Debug, PartialEq, Eq, Structural)]
pub enum BlockOp {
    /// Empty cells.
    Erase,
    /// The same characters in the current colors.
    Fill,
    /// The rectangle mirrored left to right.
    FlipH,
    /// The rectangle mirrored top to bottom.
    FlipV,
}

/// The cell that `op` writes at (x, y) of the rectangle (x0, y0)-(x1, y1)
/// of `g`.
pub open spec fn op_cell(
    op: BlockOp,
    g: Seq<Seq<Cell>>,
    x: int,
    y: int,
    x0: int,
    y0: int,
    x1: int,
    y1: int,
    fg: u8,
    bg: u8,
) -> Cell {
    match op {
        BlockOp::Erase => blank_cell(),
        BlockOp::Fill => Cell { ch: cell_at(g, x, y).ch, fg, bg },
        BlockOp::FlipH => cell_at(g, x0 + x1 - x, y),
        BlockOp::FlipV => cell_at(g, x, y0 + y1 - y),
    }
}

/// The grid after `op` over the rectangle (x0, y0)-(x1, y1): the canvas
/// grows down to the rectangle's last row (never past `MAX_ROWS`).
pub open spec fn repainted(
    g: Seq<Seq<Cell>>,
    op: BlockOp,
    x0: int,
    y0: int,
    x1: int,
    y1: int,
    fg: u8,
    bg: u8,
) -> Seq<Seq<Cell>> {
    let base = if y0 < MAX_ROWS {
        grown(g, y1)
    } else {
        g
    };
    Seq::new(
        base.len(),
        |y: int|
            Seq::new(
                WIDTH as nat,
                |x: int|
                    if x0 <= x <= x1 && y0 <= y <= y1 && y < MAX_ROWS {
                        op_cell(op, g, x, y, x0, y0, x1, y1, fg, bg)
                    } else {
                        cell_at(g, x, y)
                    },
            ),
    )
}

/// The grid after stamping `buf` with its top left corner at (cx, cy):
/// cells that fall outside `WIDTH` x `MAX_ROWS` are dropped.
pub open spec fn stamped(g: Seq<Seq<Cell>>, buf: Seq<Seq<Cell>>, cx: int, cy: int) -> Seq<Seq<Cell>> {
    let base = if cy < MAX_ROWS {
        grown(g, cy + buf.len() - 1)
    } else {
        g
    };
    Seq::new(
        base.len(),
        |y: int|
            Seq::new(
                WIDTH as nat,
                |x: int|
                    if 0 <= y - cy < buf.len() && 0 <= x - cx < buf[y - cy].len() && y < MAX_ROWS {
                        buf[y - cy][x - cx]
                    } else {
                        cell_at(g, x, y)
                    },
            ),
    )
}

fn op_cell_exec(
    op: BlockOp,
    src: &Canvas,
    x: usize,
    y: usize,
    x0: usize,
    y0: usize,
    x1: usize,
    y1: usize,
    fg: u8,
    bg: u8,
) -> (c: Cell)
    requires
        x0 <= x <= x1,
        y0 <= y <= y1,
    ensures
        c == op_cell(op, src@, x as int, y as int, x0 as int, y0 as int, x1 as int, y1 as int, fg, bg),
{
    match op {
        BlockOp::Erase => Cell::default(),
        BlockOp::Fill => {
            let c = src.get(x, y);
            Cell { ch: c.ch, fg, bg }
        },
        BlockOp::FlipH => src.get(x1 - (x - x0), y),
        BlockOp::FlipV => src.get(x, y1 - (y - y0)),
    }
}

/// Apply `op` to the rectangle (x0, y0)-(x1, y1), row by row.
fn repaint(canvas: &mut Canvas, op: BlockOp, x0: usize, y0: usize, x1: usize, y1: usize, fg: u8, bg: u8)
    requires
        old(canvas).wf(),
        x0 <= x1 < WIDTH,
        y0 <= y1,
    ensures
        final(canvas).wf(),
        final(canvas)@ == repainted(old(canvas)@, op, x0 as int, y0 as int, x1 as int, y1 as int, fg, bg),
{
    let ghost g = canvas@;
    let ghost r = repainted(g, op, x0 as int, y0 as int, x1 as int, y1 as int, fg, bg);
    if y0 >= MAX_ROWS {
        proof {
            assert forall|xx: int, yy: int| #[trigger] cell_at(canvas@, xx, yy) == cell_at(r, xx, yy) by {
            }
            lemma_grid_eq(canvas@, r);
        }
        return;
    }
    let src = canvas.clone();
    let mut y = y0;
    while y <= y1 && y < MAX_ROWS
        invariant
            grid_wf(canvas@),
            src@ == g,
            grid_wf(g),
            x0 <= x1 < WIDTH,
            y0 < MAX_ROWS,
            y0 <= y <= MAX_ROWS,
            y0 <= y1,
            y <= y1 + 1,
            canvas@.len() == (if y > y0 { grown(g, y - 1).len() } else { g.len() }),
            forall|xx: int, yy: int| #[trigger]
                cell_at(canvas@, xx, yy) == (if x0 <= xx <= x1 && y0 <= yy < y {
                    op_cell(op, g, xx, yy, x0 as int, y0 as int, x1 as int, y1 as int, fg, bg)
                } else {
                    cell_at(g, xx, yy)
                }),
        decreases MAX_ROWS - y,
    {
        let mut x = x0;
        let ghost row_len = canvas@.len();
        while x <= x1
            invariant
                grid_wf(canvas@),
                src@ == g,
                grid_wf(g),
                x0 <= x <= x1 + 1,
                x1 < WIDTH,
                y0 <= y <= y1,
                y < MAX_ROWS,
                row_len == (if y > y0 { grown(g, y - 1).len() } else { g.len() }),
                canvas@.len() == (if x > x0 { grown(g, y as int).len() } else { row_len }),
                forall|xx: int, yy: int| #[trigger]
                    cell_at(canvas@, xx, yy) == (if x0 <= xx <= x1 && (y0 <= yy < y || (yy == y
                        && xx < x)) {
                        op_cell(op, g, xx, yy, x0 as int, y0 as int, x1 as int, y1 as int, fg, bg)
                    } else {
                        cell_at(g, xx, yy)
                    }),
            decreases x1 + 1 - x,
        {
            let c = op_cell_exec(op, &src, x, y, x0, y0, x1, y1, fg, bg);
            proof {
                lemma_put(canvas@, x as int, y as int, c);
            }
            canvas.set(x, y, c);
            x = x + 1;
        }
        y = y + 1;
    }
    proof {
        assert(grid_wf(r));
        assert(y > y0);
        assert(grown(g, y - 1).len() == grown(g, y1 as int).len());
        assert(canvas@.len() == r.len());
        assert forall|xx: int, yy: int| #[trigger] cell_at(canvas@, xx, yy) == cell_at(r, xx, yy) by {
            if 0 <= yy < r.len() && 0 <= xx < WIDTH {
                assert(r[yy][xx] == cell_at(r, xx, yy));
            }
        }
        lemma_grid_eq(canvas@, r);
    }
}


/// Flipping a rectangle twice the same way gives the grid back, for a
/// rectangle inside the grid.
pub proof fn lemma_flip_twice(g: Seq<Seq<Cell>>, horizontal: bool, x0: int, y0: int, x1: int, y1: int, fg: u8, bg: u8)
    requires
        grid_wf(g),
        0 <= x0 <= x1 < WIDTH,
        0 <= y0 <= y1 < g.len(),
        y1 < MAX_ROWS,
    ensures
        ({
            let op = if horizontal { BlockOp::FlipH } else { BlockOp::FlipV };
            repainted(repainted(g, op, x0, y0, x1, y1, fg, bg), op, x0, y0, x1, y1, fg, bg) == g
        }),
{
    let op = if horizontal { BlockOp::FlipH } else { BlockOp::FlipV };
    let once = repainted(g, op, x0, y0, x1, y1, fg, bg);
    let twice = repainted(once, op, x0, y0, x1, y1, fg, bg);
    lemma_grown(g, y1);
    assert(grid_wf(once));
    lemma_grown(once, y1);
    assert forall|x: int, y: int| #[trigger] cell_at(twice, x, y) == cell_at(g, x, y) by {
        if 0 <= y < twice.len() && 0 <= x < WIDTH {
            if x0 <= x <= x1 && y0 <= y <= y1 {
                assert(once.len() == g.len());
                if horizontal {
                    let xm = x0 + x1 - x;
                    assert(once[y][xm] == cell_at(g, x0 + x1 - xm, y));
                    assert(cell_at(once, xm, y) == cell_at(g, x, y));
                } else {
                    let ym = y0 + y1 - y;
                    assert(once[ym][x] == cell_at(g, x, y0 + y1 - ym));
                    assert(cell_at(once, x, ym) == cell_at(g, x, y));
                }
            }
        }
    }
    lemma_grid_eq(twice, g);
}

/// Stamping a copy of a rectangle at the rectangle's own corner changes
/// nothing, for a rectangle inside the grid.
pub proof fn lemma_stamp_copy(g: Seq<Seq<Cell>>, x0: int, y0: int, x1: int, y1: int)
    requires
        grid_wf(g),
        0 <= x0 <= x1 < WIDTH,
        0 <= y0 <= y1 < g.len(),
        y1 < MAX_ROWS,
    ensures
        stamped(g, block(g, x0, y0, x1, y1), x0, y0) == g,
{
    let b = block(g, x0, y0, x1, y1);
    let r = stamped(g, b, x0, y0);
    lemma_grown(g, y1);
    assert(grown(g, y0 + b.len() - 1) == g);
    assert forall|x: int, y: int| #[trigger] cell_at(r, x, y) == cell_at(g, x, y) by {
        if 0 <= y < r.len() && 0 <= x < WIDTH {
            if 0 <= y - y0 < b.len() && 0 <= x - x0 < b[y - y0].len() {
                assert(b[y - y0][x - x0] == cell_at(g, x, y));
            }
        }
    }
    lemma_grid_eq(r, g);
}

/// The view of a carried block.
pub open spec fn rows_view(buf: Seq<Vec<Cell>>) -> Seq<Seq<Cell>> {
    buf.map_values(|r: Vec<Cell>| r@)
}

fn grab_row(canvas: &Canvas, x0: usize, x1: usize, y: usize) -> (r: Vec<Cell>)
    requires
        x0 <= x1 < WIDTH,
    ensures
        r@ == Seq::new((x1 - x0 + 1) as nat, |j: int| cell_at(canvas@, x0 + j, y as int)),
{
    let mut r: Vec<Cell> = Vec::new();
    let mut x = x0;
    while x <= x1
        invariant
            x0 <= x <= x1 + 1,
            x1 < WIDTH,
            r@ == Seq::new((x - x0) as nat, |j: int| cell_at(canvas@, x0 + j, y as int)),
        decreases x1 + 1 - x,
    {
        r.push(canvas.get(x, y));
        x = x + 1;
        assert(r@ =~= Seq::new((x - x0) as nat, |j: int| cell_at(canvas@, x0 + j, y as int)));
    }
    r
}

/// Copy the rectangle (x0, y0)-(x1, y1) row by row.
fn grab(canvas: &Canvas, x0: usize, y0: usize, x1: usize, y1: usize) -> (b: Vec<Vec<Cell>>)
    requires
        x0 <= x1 < WIDTH,
        y0 <= y1,
    ensures
        rows_view(b@) == block(canvas@, x0 as int, y0 as int, x1 as int, y1 as int),
        stamp_ok(rows_view(b@)),
{
    let ghost full = block(canvas@, x0 as int, y0 as int, x1 as int, y1 as int);
    let mut rows: Vec<Vec<Cell>> = Vec::new();
    let mut y = y0;
    loop
        invariant_except_break
            y0 <= y <= y1,
            rows_view(rows@) == full.take(y - y0),
        invariant
            x0 <= x1 < WIDTH,
            y0 <= y1,
            full == block(canvas@, x0 as int, y0 as int, x1 as int, y1 as int),
        ensures
            rows_view(rows@) == full,
        decreases y1 - y,
    {
        let row = grab_row(canvas, x0, x1, y);
        assert(row@ =~= full[y - y0]);
        let ghost before = rows@;
        rows.push(row);
        assert(rows_view(rows@) =~= rows_view(before).push(full[y - y0]));
        assert(rows_view(rows@) =~= full.take(y - y0 + 1));
        if y == y1 {
            assert(full.take(y - y0 + 1) =~= full);
            break;
        }
        y = y + 1;
    }
    rows
}

/// Stamp `buf` with its top left corner at (cx, cy), row by row.
fn paste(canvas: &mut Canvas, buf: &Vec<Vec<Cell>>, cx: usize, cy: usize)
    requires
        old(canvas).wf(),
        stamp_ok(rows_view(buf@)),
        cx < WIDTH,
    ensures
        final(canvas).wf(),
        final(canvas)@ == stamped(old(canvas)@, rows_view(buf@), cx as int, cy as int),
{
    let ghost g = canvas@;
    let ghost b = rows_view(buf@);
    let ghost r = stamped(g, b, cx as int, cy as int);
    if cy >= MAX_ROWS {
        proof {
            assert forall|xx: int, yy: int| #[trigger] cell_at(canvas@, xx, yy) == cell_at(r, xx, yy) by {
            }
            lemma_grid_eq(canvas@, r);
        }
        return;
    }
    let mut by: usize = 0;
    while by < buf.len() && by < MAX_ROWS - cy
        invariant
            grid_wf(canvas@),
            grid_wf(g),
            b == rows_view(buf@),
            stamp_ok(b),
            cx < WIDTH,
            cy < MAX_ROWS,
            by <= buf@.len(),
            cy + by <= MAX_ROWS,
            canvas@.len() == (if by > 0 { grown(g, cy + by - 1).len() } else { g.len() }),
            forall|xx: int, yy: int| #[trigger]
                cell_at(canvas@, xx, yy) == (if 0 <= yy - cy < by && 0 <= xx - cx < b[yy - cy].len()
                    && xx < WIDTH {
                    b[yy - cy][xx - cx]
                } else {
                    cell_at(g, xx, yy)
                }),
        decreases buf@.len() - by,
    {
        let row = &buf[by];
        assert(row@ == b[by as int]);
        let y = cy + by;
        let mut bx: usize = 0;
        let ghost row_len = canvas@.len();
        while bx < row.len() && bx < WIDTH - cx
            invariant
                grid_wf(canvas@),
                grid_wf(g),
                b == rows_view(buf@),
                stamp_ok(b),
                row@ == b[by as int],
                cx < WIDTH,
                y == cy + by,
                y < MAX_ROWS,
                by < buf@.len(),
                bx <= row@.len(),
                cx + bx <= WIDTH,
                row_len == (if by > 0 { grown(g, cy + by - 1).len() } else { g.len() }),
                canvas@.len() == (if bx > 0 { grown(g, y as int).len() } else { row_len }),
                forall|xx: int, yy: int| #[trigger]
                    cell_at(canvas@, xx, yy) == (if ((0 <= yy - cy < by && 0 <= xx - cx < b[yy
                        - cy].len()) || (yy == y && 0 <= xx - cx < bx)) && xx < WIDTH {
                        b[yy - cy][xx - cx]
                    } else {
                        cell_at(g, xx, yy)
                    }),
            decreases row@.len() - bx,
        {
            let c = row[bx];
            proof {
                lemma_put(canvas@, (cx + bx) as int, y as int, c);
            }
            canvas.set(cx + bx, y, c);
            bx = bx + 1;
        }
        assert(bx > 0);
        proof {
            assert forall|xx: int, yy: int| #[trigger]
                cell_at(canvas@, xx, yy) == (if 0 <= yy - cy < by + 1 && 0 <= xx - cx < b[yy
                    - cy].len() && xx < WIDTH {
                    b[yy - cy][xx - cx]
                } else {
                    cell_at(g, xx, yy)
                }) by {
                if yy == y && 0 <= xx - cx < b[yy - cy].len() && xx < WIDTH {
                    assert(xx - cx < bx);
                }
            }
        }
        by = by + 1;
    }
    proof {
        assert(grid_wf(r));
        assert(by > 0);
        assert(grown(g, cy + by - 1).len() == grown(g, cy + b.len() - 1).len());
        assert(canvas@.len() == r.len());
        assert forall|xx: int, yy: int| #[trigger] cell_at(canvas@, xx, yy) == cell_at(r, xx, yy) by {
            if 0 <= yy < r.len() && 0 <= xx < WIDTH {
                assert(r[yy][xx] == cell_at(r, xx, yy));
            }
        }
        lemma_grid_eq(canvas@, r);
    }
}

/// The first non-blank cell of `r` at or after `i`, or -1.
pub open spec fn first_from(r: Seq<Cell>, i: int) -> int
    decreases r.len() - i,
{
    if i < 0 || i >= r.len() {
        -1
    } else if !r[i].blank() {
        i
    } else {
        first_from(r, i + 1)
    }
}

/// The last non-blank cell of `r` at or before `i`, or -1.
pub open spec fn last_to(r: Seq<Cell>, i: int) -> int
    decreases i + 1,
{
    if i < 0 || i >= r.len() {
        -1
    } else if !r[i].blank() {
        i
    } else {
        last_to(r, i - 1)
    }
}

/// The first non-blank column of row `y`, or -1 when there is none.
pub open spec fn row_first(g: Seq<Seq<Cell>>, y: int) -> int {
    if 0 <= y < g.len() {
        first_from(g[y], 0)
    } else {
        -1
    }
}

/// The last non-blank column of row `y`, or -1 when there is none.
pub open spec fn row_last(g: Seq<Seq<Cell>>, y: int) -> int {
    if 0 <= y < g.len() {
        last_to(g[y], g[y].len() - 1)
    } else {
        -1
    }
}

proof fn lemma_first_from(r: Seq<Cell>, i: int, f: int)
    requires
        0 <= i <= f < r.len(),
        forall|j: int| i <= j < f ==> (#[trigger] r[j]).blank(),
        !r[f].blank(),
    ensures
        first_from(r, i) == f,
    decreases f - i,
{
    if i < f {
        lemma_first_from(r, i + 1, f);
    }
}

proof fn lemma_first_none(r: Seq<Cell>, i: int)
    requires
        0 <= i,
        forall|j: int| i <= j < r.len() ==> (#[trigger] r[j]).blank(),
    ensures
        first_from(r, i) == -1,
    decreases r.len() - i,
{
    if i < r.len() {
        lemma_first_none(r, i + 1);
    }
}

proof fn lemma_last_to(r: Seq<Cell>, i: int, l: int)
    requires
        0 <= l <= i < r.len(),
        forall|j: int| l < j <= i ==> (#[trigger] r[j]).blank(),
        !r[l].blank(),
    ensures
        last_to(r, i) == l,
    decreases i - l,
{
    if l < i {
        lemma_last_to(r, i - 1, l);
    }
}

proof fn lemma_last_none(r: Seq<Cell>, i: int)
    requires
        i < r.len(),
        forall|j: int| 0 <= j <= i ==> (#[trigger] r[j]).blank(),
    ensures
        last_to(r, i) == -1,
    decreases i + 1,
{
    if i >= 0 {
        lemma_last_none(r, i - 1);
    }
}

/// The first and last non-blank columns of row `y` as `row_first` and
/// `row_last` give them.
fn row_marks(canvas: &Canvas, y: usize) -> (r: (i64, i64))
    requires
        canvas.wf(),
    ensures
        r.0 == row_first(canvas@, y as int),
        r.1 == row_last(canvas@, y as int),
        -1 <= r.0 < WIDTH,
        -1 <= r.1 < WIDTH,
{
    match canvas.line_bounds(y) {
        Some((f, l)) => {
            proof {
                let row = canvas@[y as int];
                lemma_first_from(row, 0, f as int);
                lemma_last_to(row, WIDTH - 1, l as int);
            }
            (f as i64, l as i64)
        },
        None => {
            proof {
                if (y as int) < canvas@.len() {
                    let row = canvas@[y as int];
                    assert forall|j: int| 0 <= j < row.len() implies (#[trigger] row[j]).blank() by {
                        if !row[j].blank() {
                            assert(row_used(row));
                        }
                    }
                    lemma_first_none(row, 0);
                    lemma_last_none(row, row.len() - 1);
                }
            }
            (-1, -1)
        },
    }
}

/// The state after typing `ch` at the cursor in the current colors: the
/// step is recorded for undo and the cursor moves right, stopping at the
/// last column.
pub open spec fn typed(s: EditorView, ch: char) -> EditorView {
    let r = recorded(s);
    EditorView {
        grid: put(r.grid, s.x, s.y, Cell { ch, fg: s.fg, bg: s.bg }),
        x: if s.x + 1 < WIDTH { s.x + 1 } else { WIDTH - 1 },
        ..r
    }
}

/// The state after stamping the carried block at the cursor (nothing
/// happens outside stamp mode).
pub open spec fn stamp_done(s: EditorView) -> EditorView {
    match s.mode {
        ModeView::Stamp { buf } => {
            let r = recorded(s);
            EditorView { grid: stamped(r.grid, buf, s.x, s.y), note: Some(Note::Stamped), ..r }
        },
        _ => s,
    }
}

/// The rectangle between the anchor and the cursor: left, top, right,
/// bottom.
pub open spec fn sel_rect(ax: int, ay: int, x: int, y: int) -> (int, int, int, int) {
    (
        if ax <= x { ax } else { x },
        if ay <= y { ay } else { y },
        if ax <= x { x } else { ax },
        if ay <= y { y } else { ay },
    )
}

/// The state after a block command over the rectangle, recorded for
/// undo.
pub open spec fn block_done(s: EditorView, op: BlockOp, x0: int, y0: int, x1: int, y1: int) -> EditorView {
    let r = recorded(s);
    EditorView { grid: repainted(r.grid, op, x0, y0, x1, y1, s.fg, s.bg), ..r }
}

/// What a character key does in block selection: C copies the block and
/// M moves it (both go on to stamp mode with the cursor on the block's
/// corner), E erases, F fills with the current colors (both leave block
/// mode), X and Y flip; upper and lower case alike.
pub open spec fn select_char(s: EditorView, c: char) -> EditorView {
    match s.mode {
        ModeView::Select { ax, ay } => {
            let (x0, y0, x1, y1) = sel_rect(ax, ay, s.x, s.y);
            let l = ascii_lower(c);
            if l == 'c' || l == 'm' {
                let base = if l == 'm' {
                    block_done(s, BlockOp::Erase, x0, y0, x1, y1)
                } else {
                    s
                };
                EditorView {
                    x: x0,
                    y: y0,
                    mode: ModeView::Stamp { buf: block(s.grid, x0, y0, x1, y1) },
                    note: Some(Note::StampHint),
                    ..base
                }
            } else if l == 'e' {
                EditorView { mode: ModeView::Edit, ..block_done(s, BlockOp::Erase, x0, y0, x1, y1) }
            } else if l == 'f' {
                EditorView {
                    mode: ModeView::Edit,
                    note: Some(Note::BlockFilled),
                    ..block_done(s, BlockOp::Fill, x0, y0, x1, y1)
                }
            } else if l == 'x' {
                EditorView {
                    note: Some(Note::FlippedHorizontally),
                    ..block_done(s, BlockOp::FlipH, x0, y0, x1, y1)
                }
            } else if l == 'y' {
                EditorView {
                    note: Some(Note::FlippedVertically),
                    ..block_done(s, BlockOp::FlipV, x0, y0, x1, y1)
                }
            } else {
                s
            }
        },
        _ => s,
    }
}

/// The command a key is bound to, if any.
pub open spec fn binding(k: KeyPress) -> Option<Cmd> {
    let (c, a) = (k.ctrl, k.alt);
    match k.key {
        Key::Char(ch) => {
            if ch == 'x' && a {
                Some(Cmd::Exit)
            } else if ch == 'q' && c {
                Some(Cmd::Exit)
            } else if ch == 'k' && c {
                Some(Cmd::CommandPalette)
            } else if ch == 's' && (a || c) {
                Some(Cmd::Save)
            } else if ch == 'l' && a {
                Some(Cmd::Load)
            } else if ch == 'o' && c {
                Some(Cmd::Load)
            } else if ch == 'h' && a {
                Some(Cmd::Help)
            } else if ch == 'g' && c {
                Some(Cmd::Help)
            } else if ch == 'c' && a {
                Some(Cmd::ClearPage)
            } else if ch == 'r' && a {
                Some(Cmd::Undo)
            } else if ch == 'z' && c {
                Some(Cmd::Undo)
            } else if ch == 'r' && c {
                Some(Cmd::Redo)
            } else if ch == 'b' && (a || c) {
                Some(Cmd::Block)
            } else if ch == 'e' && c {
                Some(Cmd::CharPicker)
            } else if ch == 'w' && c {
                Some(Cmd::ToggleSidebar)
            } else if ch == 'u' && a {
                Some(Cmd::PickupColor)
            } else if ch == 'd' && (a || c) {
                Some(Cmd::SauceInfo)
            } else if ch == 'y' && c {
                Some(Cmd::DeleteLine)
            } else if ch == 't' && c {
                Some(Cmd::InsertLine)
            } else if ch == 'i' && a {
                Some(Cmd::InsertLine)
            } else if ch == 'n' && c {
                Some(Cmd::NextSet)
            } else if ch == 'p' && c {
                Some(Cmd::PrevSet)
            } else if ch == 'a' && c {
                Some(Cmd::QuickPalette)
            } else {
                None
            }
        },
        Key::Esc => Some(Cmd::QuickPalette),
        Key::F(n) => {
            if a && 1 <= n <= 10 {
                Some(Cmd::SetCharset((n - 1) as usize))
            } else if c && 1 <= n <= 5 {
                Some(Cmd::SetCharset((10 + n - 1) as usize))
            } else {
                None
            }
        },
        _ => None,
    }
}

/// What a command does that needs no dialog and no file, or `None` for
/// the commands the front end runs.
pub open spec fn local(s: EditorView, cmd: Cmd) -> Option<EditorView> {
    match cmd {
        Cmd::Block => Some(EditorView { mode: ModeView::Select { ax: s.x, ay: s.y }, ..s }),
        Cmd::Undo => Some(undone(s)),
        Cmd::Redo => Some(redone(s)),
        Cmd::InsertLine => {
            let r = recorded(s);
            Some(EditorView { grid: inserted_line(r.grid, s.y), note: Some(Note::LineInserted), ..r })
        },
        Cmd::DeleteLine => {
            let r = recorded(s);
            Some(EditorView { grid: deleted_line(r.grid, s.y), note: Some(Note::LineDeleted), ..r })
        },
        Cmd::NextSet => Some(
            EditorView { set_idx: if s.set_idx + 1 == s.nsets { 0 } else { s.set_idx + 1 }, ..s },
        ),
        Cmd::PrevSet => Some(
            EditorView { set_idx: if s.set_idx == 0 { s.nsets - 1 } else { s.set_idx - 1 }, ..s },
        ),
        Cmd::SetCharset(i) => Some(EditorView { set_idx: i as int % s.nsets, ..s }),
        Cmd::PickupColor => {
            let c = cell_at(s.grid, s.x, s.y);
            Some(EditorView { fg: c.fg, bg: c.bg, note: Some(Note::PickedUpColor), ..s })
        },
        Cmd::ToggleSidebar => Some(EditorView { sidebar: !s.sidebar, ..s }),
        _ => None,
    }
}

/// Running a command: the local ones change the state, the others go to
/// the front end.
pub open spec fn command(s: EditorView, cmd: Cmd) -> (EditorView, Outcome) {
    match local(s, cmd) {
        Some(t) => (t, Outcome::Done),
        None => (s, Outcome::Run(cmd)),
    }
}

/// What an unbound key does: colors with Ctrl and the arrows, glyphs on
/// the function keys, cursor movement, line breaks and editing.
pub open spec fn plain_key(s: EditorView, k: KeyPress) -> (EditorView, Outcome) {
    match k.key {
        Key::Up => if k.ctrl {
            (EditorView { fg: ((s.fg + 1) % 16) as u8, ..s }, Outcome::Done)
        } else {
            (EditorView { y: if s.y >= 1 { s.y - 1 } else { 0 }, ..s }, Outcome::Done)
        },
        Key::Down => if k.ctrl {
            (EditorView { fg: ((s.fg + 15) % 16) as u8, ..s }, Outcome::Done)
        } else {
            (EditorView { y: if s.y + 1 < MAX_ROWS { s.y + 1 } else { MAX_ROWS - 1 }, ..s }, Outcome::Done)
        },
        Key::Right => if k.ctrl {
            (EditorView { bg: ((s.bg + 1) % 8) as u8, ..s }, Outcome::Done)
        } else {
            (EditorView { x: if s.x + 1 < WIDTH { s.x + 1 } else { WIDTH - 1 }, ..s }, Outcome::Done)
        },
        Key::Left => if k.ctrl {
            (EditorView { bg: ((s.bg + 7) % 8) as u8, ..s }, Outcome::Done)
        } else {
            (EditorView { x: if s.x >= 1 { s.x - 1 } else { 0 }, ..s }, Outcome::Done)
        },
        Key::F(n) => if 1 <= n <= 10 {
            (s, Outcome::Glyph((n - 1) as usize))
        } else {
            (s, Outcome::Done)
        },
        Key::PageUp => (
            EditorView {
                y: if s.y >= s.view_h { s.y - s.view_h } else { 0 },
                top: if s.top >= s.view_h { s.top - s.view_h } else { 0 },
                ..s
            },
            Outcome::Done,
        ),
        Key::PageDown => (
            EditorView { y: if s.y + s.view_h < MAX_ROWS { s.y + s.view_h } else { MAX_ROWS - 1 }, ..s },
            Outcome::Done,
        ),
        Key::Home => {
            let f = row_first(s.grid, s.y);
            (EditorView { x: if k.ctrl && f >= 0 { f } else { 0 }, ..s }, Outcome::Done)
        },
        Key::End => {
            let l = row_last(s.grid, s.y);
            let x = if l < 0 {
                0
            } else if k.ctrl {
                l
            } else if l + 1 < WIDTH {
                l + 1
            } else {
                WIDTH - 1
            };
            (EditorView { x: x, ..s }, Outcome::Done)
        },
        Key::Tab => {
            let t = (s.x / 8 + 1) * 8;
            (EditorView { x: if t < WIDTH { t } else { WIDTH - 1 }, ..s }, Outcome::Done)
        },
        Key::BackTab => (
            EditorView { x: ((if s.x >= 1 { s.x - 1 } else { 0 }) / 8) * 8, ..s },
            Outcome::Done,
        ),
        Key::Enter => {
            let y = if s.y + 1 < MAX_ROWS { s.y + 1 } else { MAX_ROWS - 1 };
            (EditorView { x: 0, y: y, grid: grown(s.grid, y), ..s }, Outcome::Done)
        },
        Key::Backspace => if s.x > 0 {
            let r = recorded(s);
            (EditorView { x: s.x - 1, grid: put(r.grid, s.x - 1, s.y, blank_cell()), ..r }, Outcome::Done)
        } else {
            (s, Outcome::Done)
        },
        Key::Delete => {
            let r = recorded(s);
            (EditorView { grid: shifted_left(r.grid, s.x, s.y), ..r }, Outcome::Done)
        },
        Key::Insert => {
            let r = recorded(s);
            (EditorView { grid: shifted_right(r.grid, s.x, s.y), ..r }, Outcome::Done)
        },
        Key::Char(c) => if !k.ctrl && !k.alt {
            (typed(s, c), Outcome::Done)
        } else {
            (s, Outcome::Done)
        },
        _ => (s, Outcome::Done),
    }
}

/// What a key does outside the block modes' own keys: a bound command, or
/// the key's own action.
pub open spec fn edit_key(s: EditorView, k: KeyPress) -> (EditorView, Outcome) {
    match binding(k) {
        Some(cmd) => command(s, cmd),
        None => plain_key(s, k),
    }
}

/// What a key press does. The status note is cleared first. In block
/// selection Esc leaves the mode and a character key is a block command
/// (see `select_char`); while carrying a block Esc drops it and Enter
/// stamps it; every other key, movement included, acts as in edit mode.
pub open spec fn key_step(s: EditorView, k: KeyPress) -> (EditorView, Outcome) {
    let s1 = EditorView { note: None, ..s };
    match s1.mode {
        ModeView::Select { .. } => match k.key {
            Key::Esc => (EditorView { mode: ModeView::Edit, ..s1 }, Outcome::Done),
            Key::Char(c) => (select_char(s1, c), Outcome::Done),
            _ => edit_key(s1, k),
        },
        ModeView::Stamp { .. } => match k.key {
            Key::Esc => (EditorView { mode: ModeView::Edit, ..s1 }, Outcome::Done),
            Key::Enter => (stamp_done(s1), Outcome::Done),
            _ => edit_key(s1, k),
        },
        ModeView::Edit => edit_key(s1, k),
    }
}

/// A mouse event as the terminal reports it (left button only).
#[derive(Clone, Copy, Debug, PartialEq, Eq, Structural)]
pub enum MouseKind {
    ScrollUp,
    ScrollDown,
    LeftDown,
    LeftDrag,
    LeftUp,
    Other,
}

/// What a click on a sidebar row means; the front end rebuilds the map
/// from rows to hits each time it draws the sidebar.
#[derive(Clone, Copy, Debug, PartialEq, Eq, Structural)]
pub enum SbHit {
    FgStrip,
    BgStrip,
    SetName,
    /// The row showing glyphs i and i+5 of the active set.
    GlyphRow(usize),
    Run(Cmd),
}

/// The first screen column of the sidebar's contents.
pub const SIDEBAR_X: usize = 82;

/// The canvas cell under screen cell (col, row), if the canvas shows
/// there: the canvas takes the first `WIDTH` columns of the `view_h` rows
/// below the status line.
pub open spec fn canvas_pos(s: EditorView, col: int, row: int) -> Option<(int, int)> {
    if col < WIDTH && 1 <= row <= s.view_h {
        Some((col, s.top + row - 1))
    } else {
        None
    }
}

/// A left click on the sidebar: the color strips pick a color, the set
/// name moves to the next set, a glyph row types its left or right glyph
/// and a cheat-sheet row runs its command.
pub open spec fn sidebar_click(s: EditorView, hit: SbHit, col: int) -> (EditorView, Outcome) {
    match hit {
        SbHit::FgStrip => if SIDEBAR_X <= col < SIDEBAR_X + 16 {
            (EditorView { fg: (col - SIDEBAR_X) as u8, ..s }, Outcome::Done)
        } else {
            (s, Outcome::Done)
        },
        SbHit::BgStrip => if SIDEBAR_X <= col < SIDEBAR_X + 8 {
            (EditorView { bg: (col - SIDEBAR_X) as u8, ..s }, Outcome::Done)
        } else {
            (s, Outcome::Done)
        },
        SbHit::SetName => command(s, Cmd::NextSet),
        SbHit::GlyphRow(i) => (s, Outcome::Glyph(if col < SIDEBAR_X + 8 { i } else { (i + 5) as usize })),
        SbHit::Run(c) => command(s, c),
    }
}

/// What a mouse event at screen cell (col, row) does; `hit` is what the
/// sidebar shows on that row, if anything. The wheel moves the cursor
/// three rows; a click on the canvas stamps a carried block there,
/// restarts a selection there, or moves the cursor there, and starts a
/// drag; dragging selects from the drag's start (not while carrying a
/// block); releasing ends the drag.
pub open spec fn mouse_step(s: EditorView, kind: MouseKind, col: int, row: int, hit: Option<SbHit>) -> (EditorView, Outcome) {
    let pos = canvas_pos(s, col, row);
    match kind {
        MouseKind::ScrollUp => (EditorView { y: if s.y >= 3 { s.y - 3 } else { 0 }, ..s }, Outcome::Done),
        MouseKind::ScrollDown => {
            let y = if s.y + 3 < MAX_ROWS { s.y + 3 } else { MAX_ROWS - 1 };
            (EditorView { y: y, grid: grown(s.grid, y), ..s }, Outcome::Done)
        },
        MouseKind::LeftDown => {
            let s1 = EditorView { note: None, ..s };
            match pos {
                Some((x, y)) => match s1.mode {
                    ModeView::Stamp { .. } => (stamp_done(EditorView { x: x, y: y, ..s1 }), Outcome::Done),
                    ModeView::Select { .. } => (
                        EditorView {
                            x: x,
                            y: y,
                            mode: ModeView::Select { ax: x, ay: y },
                            drag_from: Some((x, y)),
                            ..s1
                        },
                        Outcome::Done,
                    ),
                    ModeView::Edit => (
                        EditorView { x: x, y: y, grid: grown(s1.grid, y), drag_from: Some((x, y)), ..s1 },
                        Outcome::Done,
                    ),
                },
                None => match hit {
                    Some(h) => sidebar_click(s1, h, col),
                    None => (s1, Outcome::Done),
                },
            }
        },
        MouseKind::LeftDrag => match (pos, s.drag_from) {
            (Some((x, y)), Some((ax, ay))) => if s.mode is Stamp {
                (s, Outcome::Done)
            } else {
                (
                    EditorView { mode: ModeView::Select { ax: ax, ay: ay }, x: x, y: y, grid: grown(s.grid, y), ..s },
                    Outcome::Done,
                )
            },
            _ => (s, Outcome::Done),
        },
        MouseKind::LeftUp => (EditorView { drag_from: None, ..s }, Outcome::Done),
        MouseKind::Other => (s, Outcome::Done),
    }
}

/// The state after fitting the view to a terminal `th` rows high (one row
/// is the status line) and scrolling so that the cursor's row shows.
pub open spec fn scrolled(s: EditorView, th: int) -> EditorView {
    let vh = if th >= 2 { th - 1 } else { 1 };
    let t1 = if s.y < s.top { s.y } else { s.top };
    let t2 = if s.y >= t1 + vh { s.y + 1 - vh } else { t1 };
    EditorView { view_h: vh, top: t2, ..s }
}

/// The state after clearing the page (recorded for undo).
pub open spec fn cleared(s: EditorView) -> EditorView {
    let r = recorded(s);
    EditorView { grid: blank_rows(25), x: 0, y: 0, top: 0, note: Some(Note::PageCleared), ..r }
}

/// The state after opening a canvas from a file: cursor and view at the
/// top, nothing unsaved, no history, edit mode.
pub open spec fn opened(s: EditorView, g: Seq<Seq<Cell>>) -> EditorView {
    EditorView {
        grid: g,
        x: 0,
        y: 0,
        top: 0,
        dirty: false,
        undo: Seq::empty(),
        redo: Seq::empty(),
        mode: ModeView::Edit,
        note: Some(Note::Loaded),
        ..s
    }
}

/// Pressing Insert and then Delete without moving gives the canvas back,
/// in any mode, when the cursor's row exists and its last cell is empty
/// (the cell that Insert pushes out).
pub proof fn lemma_insert_delete_keys(s: EditorView, ins: KeyPress, del: KeyPress)
    requires
        view_ok(s),
        ins.key == Key::Insert,
        del.key == Key::Delete,
        0 <= s.y < s.grid.len(),
        s.grid[s.y][WIDTH - 1] == blank_cell(),
    ensures
        key_step(key_step(s, ins).0, del).0.grid == s.grid,
{
    lemma_shift_right_left(s.grid, s.x, s.y);
}

/// The cell the screen shows at canvas cell (x, y): a carried block
/// shows over the canvas from the cursor on, and the selected rectangle
/// shows with its colors swapped (black on light gray where that would
/// leave them equal).
pub open spec fn shown(s: EditorView, x: int, y: int) -> Cell {
    let under = cell_at(s.grid, x, y);
    let cell = match s.mode {
        ModeView::Stamp { buf } => if y >= s.y && x >= s.x && y - s.y < buf.len() && x - s.x < buf[y
            - s.y].len() {
            buf[y - s.y][x - s.x]
        } else {
            under
        },
        _ => under,
    };
    match s.mode {
        ModeView::Select { ax, ay } => {
            let (x0, y0, x1, y1) = sel_rect(ax, ay, s.x, s.y);
            if x0 <= x <= x1 && y0 <= y <= y1 {
                if cell.bg == cell.fg {
                    Cell { ch: cell.ch, fg: 0, bg: 7 }
                } else {
                    Cell { ch: cell.ch, fg: cell.bg, bg: cell.fg }
                }
            } else {
                cell
            }
        },
        _ => cell,
    }
}

/// What the sidebar offers on screen row `row` when it shows: the SAUCE
/// line, the two rows of each color strip, the set name, five rows of
/// glyphs and seven cheat-sheet commands.
pub open spec fn sidebar_at(row: int) -> Option<SbHit> {
    if row == 3 {
        Some(SbHit::Run(Cmd::SauceInfo))
    } else if row == 6 || row == 7 {
        Some(SbHit::FgStrip)
    } else if row == 9 || row == 10 {
        Some(SbHit::BgStrip)
    } else if row == 12 {
        Some(SbHit::SetName)
    } else if 13 <= row <= 17 {
        Some(SbHit::GlyphRow((row - 13) as usize))
    } else if row == 19 {
        Some(SbHit::Run(Cmd::CommandPalette))
    } else if row == 20 {
        Some(SbHit::Run(Cmd::CharPicker))
    } else if row == 21 {
        Some(SbHit::Run(Cmd::QuickPalette))
    } else if row == 22 {
        Some(SbHit::Run(Cmd::Block))
    } else if row == 23 {
        Some(SbHit::Run(Cmd::Save))
    } else if row == 24 {
        Some(SbHit::Run(Cmd::Undo))
    } else if row == 25 {
        Some(SbHit::Run(Cmd::ToggleSidebar))
    } else {
        None
    }
}

/// What the sidebar offers on screen row `row` (see `sidebar_at`).
pub fn sidebar_hit(row: u16) -> (r: Option<SbHit>)
    ensures
        r == sidebar_at(row as int),
{
    if row == 3 {
        Some(SbHit::Run(Cmd::SauceInfo))
    } else if row == 6 || row == 7 {
        Some(SbHit::FgStrip)
    } else if row == 9 || row == 10 {
        Some(SbHit::BgStrip)
    } else if row == 12 {
        Some(SbHit::SetName)
    } else if 13 <= row && row <= 17 {
        Some(SbHit::GlyphRow((row - 13) as usize))
    } else if row == 19 {
        Some(SbHit::Run(Cmd::CommandPalette))
    } else if row == 20 {
        Some(SbHit::Run(Cmd::CharPicker))
    } else if row == 21 {
        Some(SbHit::Run(Cmd::QuickPalette))
    } else if row == 22 {
        Some(SbHit::Run(Cmd::Block))
    } else if row == 23 {
        Some(SbHit::Run(Cmd::Save))
    } else if row == 24 {
        Some(SbHit::Run(Cmd::Undo))
    } else if row == 25 {
        Some(SbHit::Run(Cmd::ToggleSidebar))
    } else {
        None
    }
}

/// The editor state.
pub struct Editor {
    pub canvas: Canvas,
    pub cur_x: usize,
    pub cur_y: usize,
    /// First canvas row shown.
    pub top: usize,
    /// Canvas rows shown.
    pub view_h: usize,
    pub fg: u8,
    pub bg: u8,
    /// The active character set.
    pub set_idx: usize,
    /// How many character sets there are.
    pub nsets: usize,
    /// Changed since the last save.
    pub dirty: bool,
    /// Undo history, oldest first.
    pub undo: Vec<Snapshot>,
    /// Redo history, oldest first.
    pub redo: Vec<Snapshot>,
    pub mode: Mode,
    pub note: Option<Note>,
    pub sidebar: bool,
    /// Canvas cell where a left-button press started (drag-select origin).
    pub drag_from: Option<(usize, usize)>,
}

impl View for Editor {
    type V = EditorView;

    open spec fn view(&self) -> EditorView {
        EditorView {
            grid: self.canvas@,
            x: self.cur_x as int,
            y: self.cur_y as int,
            top: self.top as int,
            view_h: self.view_h as int,
            fg: self.fg,
            bg: self.bg,
            set_idx: self.set_idx as int,
            nsets: self.nsets as int,
            dirty: self.dirty,
            undo: self.undo@.map_values(|s: Snapshot| s.snap()),
            redo: self.redo@.map_values(|s: Snapshot| s.snap()),
            mode: self.mode@,
            note: self.note,
            sidebar: self.sidebar,
            drag_from: match self.drag_from {
                Some((a, b)) => Some((a as int, b as int)),
                None => None,
            },
        }
    }
}

impl Editor {
    pub open spec fn wf(&self) -> bool {
        view_ok(self@)
    }

    /// A fresh editor on `canvas` with `nsets` character sets: cursor at
    /// the top left, light gray on black, the first set, no history.
    pub fn new(canvas: Canvas, nsets: usize) -> (e: Editor)
        requires
            canvas.wf(),
            nsets >= 1,
        ensures
            e.wf(),
            e@ == (EditorView {
                grid: canvas@,
                x: 0,
                y: 0,
                top: 0,
                view_h: 24,
                fg: 7,
                bg: 0,
                set_idx: 0,
                nsets: nsets as int,
                dirty: false,
                undo: Seq::empty(),
                redo: Seq::empty(),
                mode: ModeView::Edit,
                note: None,
                sidebar: true,
                drag_from: None,
            }),
    {
        let e = Editor {
            canvas,
            cur_x: 0,
            cur_y: 0,
            top: 0,
            view_h: 24,
            fg: 7,
            bg: 0,
            set_idx: 0,
            nsets,
            dirty: false,
            undo: Vec::new(),
            redo: Vec::new(),
            mode: Mode::Edit,
            note: None,
            sidebar: true,
            drag_from: None,
        };
        assert(e@.undo =~= Seq::<Snap>::empty());
        assert(e@.redo =~= Seq::<Snap>::empty());
        e
    }

    /// Record the current state for undo (see `recorded`).
    pub fn push_undo(&mut self)
        requires
            old(self).wf(),
        ensures
            final(self).wf(),
            final(self)@ == recorded(old(self)@),
    {
        proof {
            lemma_recorded_ok(self@);
        }
        let ghost before = self@.undo;
        self.redo = Vec::new();
        let snap = Snapshot { canvas: self.canvas.clone(), x: self.cur_x, y: self.cur_y };
        self.undo.push(snap);
        assert(self@.undo =~= before.push(current(old(self)@)));
        if self.undo.len() > UNDO_CAP {
            let ghost b2 = self@.undo;
            self.undo.remove(0);
            assert(self@.undo =~= b2.drop_first());
        }
        self.dirty = true;
        assert(self@.redo =~= Seq::<Snap>::empty());
        assert(self@ =~= recorded(old(self)@));
    }

    /// Step back (see `undone`).
    pub fn do_undo(&mut self)
        requires
            old(self).wf(),
        ensures
            final(self).wf(),
            final(self)@ == undone(old(self)@),
    {
        proof {
            lemma_undo_redo_ok(self@);
        }
        let ghost u0 = self@.undo;
        let ghost r0 = self@.redo;
        match self.undo.pop() {
            Some(s) => {
                assert(self@.undo =~= u0.drop_last());
                assert(s.snap() == u0.last());
                let cur = Snapshot { canvas: self.canvas.clone(), x: self.cur_x, y: self.cur_y };
                self.redo.push(cur);
                assert(self@.redo =~= r0.push(current(old(self)@)));
                self.canvas = s.canvas;
                self.cur_x = s.x;
                self.cur_y = s.y;
                self.note = Some(Note::Undone);
            },
            None => {
                self.note = Some(Note::NothingToUndo);
            },
        }
        assert(self@ =~= undone(old(self)@));
    }

    /// Step forward again (see `redone`).
    pub fn do_redo(&mut self)
        requires
            old(self).wf(),
        ensures
            final(self).wf(),
            final(self)@ == redone(old(self)@),
    {
        proof {
            lemma_undo_redo_ok(self@);
        }
        let ghost u0 = self@.undo;
        let ghost r0 = self@.redo;
        match self.redo.pop() {
            Some(s) => {
                assert(self@.redo =~= r0.drop_last());
                assert(s.snap() == r0.last());
                let cur = Snapshot { canvas: self.canvas.clone(), x: self.cur_x, y: self.cur_y };
                self.undo.push(cur);
                assert(self@.undo =~= u0.push(current(old(self)@)));
                self.canvas = s.canvas;
                self.cur_x = s.x;
                self.cur_y = s.y;
                self.note = Some(Note::Redone);
            },
            None => {
                self.note = Some(Note::NothingToRedo);
            },
        }
        assert(self@ =~= redone(old(self)@));
    }
}


/// The command a key is bound to, if any (see `binding`).
pub fn key_binding(k: KeyPress) -> (r: Option<Cmd>)
    ensures
        r == binding(k),
{
    let (c, a) = (k.ctrl, k.alt);
    match k.key {
        Key::Char(ch) => {
            if ch == 'x' && a {
                Some(Cmd::Exit)
            } else if ch == 'q' && c {
                Some(Cmd::Exit)
            } else if ch == 'k' && c {
                Some(Cmd::CommandPalette)
            } else if ch == 's' && (a || c) {
                Some(Cmd::Save)
            } else if ch == 'l' && a {
                Some(Cmd::Load)
            } else if ch == 'o' && c {
                Some(Cmd::Load)
            } else if ch == 'h' && a {
                Some(Cmd::Help)
            } else if ch == 'g' && c {
                Some(Cmd::Help)
            } else if ch == 'c' && a {
                Some(Cmd::ClearPage)
            } else if ch == 'r' && a {
                Some(Cmd::Undo)
            } else if ch == 'z' && c {
                Some(Cmd::Undo)
            } else if ch == 'r' && c {
                Some(Cmd::Redo)
            } else if ch == 'b' && (a || c) {
                Some(Cmd::Block)
            } else if ch == 'e' && c {
                Some(Cmd::CharPicker)
            } else if ch == 'w' && c {
                Some(Cmd::ToggleSidebar)
            } else if ch == 'u' && a {
                Some(Cmd::PickupColor)
            } else if ch == 'd' && (a || c) {
                Some(Cmd::SauceInfo)
            } else if ch == 'y' && c {
                Some(Cmd::DeleteLine)
            } else if ch == 't' && c {
                Some(Cmd::InsertLine)
            } else if ch == 'i' && a {
                Some(Cmd::InsertLine)
            } else if ch == 'n' && c {
                Some(Cmd::NextSet)
            } else if ch == 'p' && c {
                Some(Cmd::PrevSet)
            } else if ch == 'a' && c {
                Some(Cmd::QuickPalette)
            } else {
                None
            }
        },
        Key::Esc => Some(Cmd::QuickPalette),
        Key::F(n) => {
            if a && 1 <= n && n <= 10 {
                Some(Cmd::SetCharset((n - 1) as usize))
            } else if c && 1 <= n && n <= 5 {
                Some(Cmd::SetCharset((10 + n - 1) as usize))
            } else {
                None
            }
        },
        _ => None,
    }
}

impl Editor {
    /// Type `ch` at the cursor (see `typed`).
    pub fn put_char(&mut self, ch: char)
        requires
            old(self).wf(),
        ensures
            final(self).wf(),
            final(self)@ == typed(old(self)@, ch),
    {
        self.push_undo();
        let c = Cell { ch, fg: self.fg, bg: self.bg };
        self.canvas.set(self.cur_x, self.cur_y, c);
        self.cur_x = if self.cur_x + 1 < WIDTH { self.cur_x + 1 } else { WIDTH - 1 };
        assert(self@ =~= typed(old(self)@, ch));
    }

    /// Stamp the carried block at the cursor (see `stamp_done`).
    pub fn stamp_here(&mut self)
        requires
            old(self).wf(),
        ensures
            final(self).wf(),
            final(self)@ == stamp_done(old(self)@),
    {
        let carrying = match &self.mode {
            Mode::Stamp { .. } => true,
            _ => false,
        };
        if !carrying {
            return;
        }
        self.push_undo();
        match &self.mode {
            Mode::Stamp { buf } => {
                paste(&mut self.canvas, buf, self.cur_x, self.cur_y);
            },
            _ => {},
        }
        self.note = Some(Note::Stamped);
        assert(self@ =~= stamp_done(old(self)@));
    }

    fn apply_block(&mut self, op: BlockOp, x0: usize, y0: usize, x1: usize, y1: usize)
        requires
            old(self).wf(),
            x0 <= x1 < WIDTH,
            y0 <= y1,
        ensures
            final(self).wf(),
            final(self)@ == block_done(old(self)@, op, x0 as int, y0 as int, x1 as int, y1 as int),
    {
        self.push_undo();
        repaint(&mut self.canvas, op, x0, y0, x1, y1, self.fg, self.bg);
        assert(self@ =~= block_done(old(self)@, op, x0 as int, y0 as int, x1 as int, y1 as int));
    }

    /// A character key in block selection (see `select_char`).
    pub fn select_key(&mut self, c: char)
        requires
            old(self).wf(),
        ensures
            final(self).wf(),
            final(self)@ == select_char(old(self)@, c),
    {
        let (ax, ay) = match self.mode {
            Mode::Select { ax, ay } => (ax, ay),
            _ => {
                return;
            },
        };
        let x0 = if ax <= self.cur_x { ax } else { self.cur_x };
        let y0 = if ay <= self.cur_y { ay } else { self.cur_y };
        let x1 = if ax <= self.cur_x { self.cur_x } else { ax };
        let y1 = if ay <= self.cur_y { self.cur_y } else { ay };
        let l = to_lower(c);
        if l == 'c' || l == 'm' {
            let buf = grab(&self.canvas, x0, y0, x1, y1);
            if l == 'm' {
                self.apply_block(BlockOp::Erase, x0, y0, x1, y1);
            }
            self.cur_x = x0;
            self.cur_y = y0;
            self.mode = Mode::Stamp { buf };
            self.note = Some(Note::StampHint);
        } else if l == 'e' {
            self.apply_block(BlockOp::Erase, x0, y0, x1, y1);
            self.mode = Mode::Edit;
        } else if l == 'f' {
            self.apply_block(BlockOp::Fill, x0, y0, x1, y1);
            self.mode = Mode::Edit;
            self.note = Some(Note::BlockFilled);
        } else if l == 'x' {
            self.apply_block(BlockOp::FlipH, x0, y0, x1, y1);
            self.note = Some(Note::FlippedHorizontally);
        } else if l == 'y' {
            self.apply_block(BlockOp::FlipV, x0, y0, x1, y1);
            self.note = Some(Note::FlippedVertically);
        }
        assert(self@ =~= select_char(old(self)@, c));
    }
}


impl Editor {
    /// Run a command that needs no dialog and no file (see `local`);
    /// false, with nothing changed, for the others.
    pub fn exec_local(&mut self, cmd: Cmd) -> (handled: bool)
        requires
            old(self).wf(),
        ensures
            final(self).wf(),
            match local(old(self)@, cmd) {
                Some(t) => handled && final(self)@ == t,
                None => !handled && final(self)@ == old(self)@,
            },
    {
        match cmd {
            Cmd::Block => {
                self.mode = Mode::Select { ax: self.cur_x, ay: self.cur_y };
            },
            Cmd::Undo => self.do_undo(),
            Cmd::Redo => self.do_redo(),
            Cmd::InsertLine => {
                self.push_undo();
                self.canvas.insert_line(self.cur_y);
                self.note = Some(Note::LineInserted);
            },
            Cmd::DeleteLine => {
                self.push_undo();
                self.canvas.delete_line(self.cur_y);
                self.note = Some(Note::LineDeleted);
            },
            Cmd::NextSet => {
                self.set_idx = if self.set_idx + 1 == self.nsets { 0 } else { self.set_idx + 1 };
            },
            Cmd::PrevSet => {
                self.set_idx = if self.set_idx == 0 { self.nsets - 1 } else { self.set_idx - 1 };
            },
            Cmd::SetCharset(i) => {
                self.set_idx = i % self.nsets;
            },
            Cmd::PickupColor => {
                let c = self.canvas.get(self.cur_x, self.cur_y);
                self.fg = c.fg;
                self.bg = c.bg;
                self.note = Some(Note::PickedUpColor);
            },
            Cmd::ToggleSidebar => {
                self.sidebar = !self.sidebar;
            },
            _ => {
                return false;
            },
        }
        assert(local(old(self)@, cmd) is Some);
        assert(self@ =~= local(old(self)@, cmd).unwrap());
        true
    }

    /// What an unbound key does (see `plain_key`).
    fn plain_key(&mut self, k: KeyPress) -> (o: Outcome)
        requires
            old(self).wf(),
        ensures
            final(self).wf(),
            (final(self)@, o) == plain_key(old(self)@, k),
    {
        match k.key {
            Key::Up => {
                if k.ctrl {
                    self.fg = ((self.fg as u16 + 1) % 16) as u8;
                } else {
                    self.cur_y = if self.cur_y >= 1 { self.cur_y - 1 } else { 0 };
                }
            },
            Key::Down => {
                if k.ctrl {
                    self.fg = ((self.fg as u16 + 15) % 16) as u8;
                } else {
                    self.cur_y = if self.cur_y < MAX_ROWS - 1 { self.cur_y + 1 } else { MAX_ROWS - 1 };
                }
            },
            Key::Right => {
                if k.ctrl {
                    self.bg = ((self.bg as u16 + 1) % 8) as u8;
                } else {
                    self.cur_x = if self.cur_x + 1 < WIDTH { self.cur_x + 1 } else { WIDTH - 1 };
                }
            },
            Key::Left => {
                if k.ctrl {
                    self.bg = ((self.bg as u16 + 7) % 8) as u8;
                } else {
                    self.cur_x = if self.cur_x >= 1 { self.cur_x - 1 } else { 0 };
                }
            },
            Key::F(n) => {
                if 1 <= n && n <= 10 {
                    return Outcome::Glyph((n - 1) as usize);
                }
            },
            Key::PageUp => {
                self.cur_y = if self.cur_y >= self.view_h { self.cur_y - self.view_h } else { 0 };
                self.top = if self.top >= self.view_h { self.top - self.view_h } else { 0 };
            },
            Key::PageDown => {
                self.cur_y = if self.cur_y < MAX_ROWS - 1 && self.view_h < MAX_ROWS - 1 - self.cur_y {
                    self.cur_y + self.view_h
                } else {
                    MAX_ROWS - 1
                };
            },
            Key::Home => {
                let (f, _l) = row_marks(&self.canvas, self.cur_y);
                self.cur_x = if k.ctrl && f >= 0 { f as usize } else { 0 };
            },
            Key::End => {
                let (_f, l) = row_marks(&self.canvas, self.cur_y);
                self.cur_x = if l < 0 {
                    0
                } else if k.ctrl {
                    l as usize
                } else if (l as usize) + 1 < WIDTH {
                    l as usize + 1
                } else {
                    WIDTH - 1
                };
            },
            Key::Tab => {
                let t = (self.cur_x / 8 + 1) * 8;
                self.cur_x = if t < WIDTH { t } else { WIDTH - 1 };
            },
            Key::BackTab => {
                let p = if self.cur_x >= 1 { self.cur_x - 1 } else { 0 };
                self.cur_x = (p / 8) * 8;
            },
            Key::Enter => {
                self.cur_x = 0;
                self.cur_y = if self.cur_y < MAX_ROWS - 1 { self.cur_y + 1 } else { MAX_ROWS - 1 };
                self.canvas.ensure_row(self.cur_y);
            },
            Key::Backspace => {
                if self.cur_x > 0 {
                    self.push_undo();
                    self.cur_x = self.cur_x - 1;
                    self.canvas.set(self.cur_x, self.cur_y, Cell::default());
                }
            },
            Key::Delete => {
                self.push_undo();
                self.canvas.shift_left(self.cur_x, self.cur_y);
            },
            Key::Insert => {
                self.push_undo();
                self.canvas.shift_right(self.cur_x, self.cur_y);
            },
            Key::Char(c) => {
                if !k.ctrl && !k.alt {
                    self.put_char(c);
                }
            },
            _ => {},
        }
        assert(self@ =~= plain_key(old(self)@, k).0);
        Outcome::Done
    }

    /// What a key does outside the block modes' own keys (see `edit_key`).
    fn edit_key(&mut self, k: KeyPress) -> (o: Outcome)
        requires
            old(self).wf(),
        ensures
            final(self).wf(),
            (final(self)@, o) == edit_key(old(self)@, k),
    {
        match key_binding(k) {
            Some(cmd) => {
                if self.exec_local(cmd) {
                    Outcome::Done
                } else {
                    Outcome::Run(cmd)
                }
            },
            None => self.plain_key(k),
        }
    }

    /// Handle a key press (see `key_step`).
    pub fn handle_key(&mut self, k: KeyPress) -> (o: Outcome)
        requires
            old(self).wf(),
        ensures
            final(self).wf(),
            (final(self)@, o) == key_step(old(self)@, k),
    {
        self.note = None;
        let kind: u8 = match &self.mode {
            Mode::Edit => 0,
            Mode::Select { .. } => 1,
            Mode::Stamp { .. } => 2,
        };
        if kind == 1 {
            match k.key {
                Key::Esc => {
                    self.mode = Mode::Edit;
                    return Outcome::Done;
                },
                Key::Char(c) => {
                    self.select_key(c);
                    return Outcome::Done;
                },
                _ => {},
            }
        } else if kind == 2 {
            match k.key {
                Key::Esc => {
                    self.mode = Mode::Edit;
                    assert(self@ =~= (EditorView { mode: ModeView::Edit, note: None, ..old(self)@ }));
                    return Outcome::Done;
                },
                Key::Enter => {
                    self.stamp_here();
                    return Outcome::Done;
                },
                _ => {},
            }
        }
        self.edit_key(k)
    }
}


impl Editor {
    /// A left click on the sidebar (see `sidebar_click`).
    fn sidebar_click(&mut self, hit: SbHit, col: usize) -> (o: Outcome)
        requires
            old(self).wf(),
            hit matches SbHit::GlyphRow(i) ==> i + 5 <= usize::MAX,
        ensures
            final(self).wf(),
            (final(self)@, o) == sidebar_click(old(self)@, hit, col as int),
    {
        let o = match hit {
            SbHit::FgStrip => {
                if SIDEBAR_X <= col && col < SIDEBAR_X + 16 {
                    self.fg = (col - SIDEBAR_X) as u8;
                }
                Outcome::Done
            },
            SbHit::BgStrip => {
                if SIDEBAR_X <= col && col < SIDEBAR_X + 8 {
                    self.bg = (col - SIDEBAR_X) as u8;
                }
                Outcome::Done
            },
            SbHit::SetName => {
                self.exec_local(Cmd::NextSet);
                Outcome::Done
            },
            SbHit::GlyphRow(i) => Outcome::Glyph(if col < SIDEBAR_X + 8 { i } else { i + 5 }),
            SbHit::Run(c) => {
                if self.exec_local(c) {
                    Outcome::Done
                } else {
                    Outcome::Run(c)
                }
            },
        };
        assert(self@ =~= sidebar_click(old(self)@, hit, col as int).0);
        o
    }

    /// Handle a mouse event at screen cell (col, row) (see `mouse_step`).
    pub fn handle_mouse(&mut self, kind: MouseKind, col: u16, row: u16, hit: Option<SbHit>) -> (o: Outcome)
        requires
            old(self).wf(),
            (col as int) < WIDTH && 1 <= row <= old(self).view_h ==> old(self).top + row - 1 <= usize::MAX,
            hit matches Some(SbHit::GlyphRow(i)) ==> i + 5 <= usize::MAX,
        ensures
            final(self).wf(),
            (final(self)@, o) == mouse_step(old(self)@, kind, col as int, row as int, hit),
    {
        let col = col as usize;
        let row = row as usize;
        let pos: Option<(usize, usize)> = if col < WIDTH && 1 <= row && row <= self.view_h {
            Some((col, self.top + (row - 1)))
        } else {
            None
        };
        match kind {
            MouseKind::ScrollUp => {
                self.cur_y = if self.cur_y >= 3 { self.cur_y - 3 } else { 0 };
            },
            MouseKind::ScrollDown => {
                self.cur_y = if self.cur_y < MAX_ROWS - 4 { self.cur_y + 3 } else { MAX_ROWS - 1 };
                self.canvas.ensure_row(self.cur_y);
            },
            MouseKind::LeftDown => {
                self.note = None;
                match pos {
                    Some((x, y)) => {
                        let kind: u8 = match &self.mode {
                            Mode::Edit => 0,
                            Mode::Select { .. } => 1,
                            Mode::Stamp { .. } => 2,
                        };
                        self.cur_x = x;
                        self.cur_y = y;
                        if kind == 2 {
                            self.stamp_here();
                        } else if kind == 1 {
                            self.mode = Mode::Select { ax: x, ay: y };
                            self.drag_from = Some((x, y));
                        } else {
                            self.canvas.ensure_row(y);
                            self.drag_from = Some((x, y));
                        }
                    },
                    None => {
                        match hit {
                            Some(h) => {
                                return self.sidebar_click(h, col);
                            },
                            None => {},
                        }
                    },
                }
            },
            MouseKind::LeftDrag => {
                match (pos, self.drag_from) {
                    (Some((x, y)), Some((ax, ay))) => {
                        let carrying = match &self.mode {
                            Mode::Stamp { .. } => true,
                            _ => false,
                        };
                        if !carrying {
                            self.mode = Mode::Select { ax, ay };
                            self.cur_x = x;
                            self.cur_y = y;
                            self.canvas.ensure_row(y);
                        }
                    },
                    _ => {},
                }
            },
            MouseKind::LeftUp => {
                self.drag_from = None;
            },
            MouseKind::Other => {},
        }
        assert(self@ =~= mouse_step(old(self)@, kind, col as int, row as int, hit).0);
        Outcome::Done
    }

    /// Fit the view to a terminal `th` rows high and keep the cursor's
    /// row in view (see `scrolled`).
    pub fn scroll_into_view(&mut self, th: u16)
        requires
            old(self).wf(),
        ensures
            final(self).wf(),
            final(self)@ == scrolled(old(self)@, th as int),
    {
        self.view_h = if th >= 2 { (th - 1) as usize } else { 1 };
        if self.cur_y < self.top {
            self.top = self.cur_y;
        }
        if self.cur_y - self.top >= self.view_h {
            self.top = self.cur_y - (self.view_h - 1);
        }
        assert(self@ =~= scrolled(old(self)@, th as int));
    }

    /// Clear the page (see `cleared`).
    pub fn clear_page(&mut self)
        requires
            old(self).wf(),
        ensures
            final(self).wf(),
            final(self)@ == cleared(old(self)@),
    {
        self.push_undo();
        self.canvas = Canvas::new(25);
        self.cur_x = 0;
        self.cur_y = 0;
        self.top = 0;
        self.note = Some(Note::PageCleared);
        assert(self@ =~= cleared(old(self)@));
    }

    /// Replace the canvas with one read from a file (see `opened`).
    pub fn open_canvas(&mut self, canvas: Canvas)
        requires
            old(self).wf(),
            canvas.wf(),
        ensures
            final(self).wf(),
            final(self)@ == opened(old(self)@, canvas@),
    {
        self.canvas = canvas;
        self.cur_x = 0;
        self.cur_y = 0;
        self.top = 0;
        self.dirty = false;
        self.undo = Vec::new();
        self.redo = Vec::new();
        self.mode = Mode::Edit;
        self.note = Some(Note::Loaded);
        assert(self@ =~= opened(old(self)@, canvas@));
    }
}


impl Editor {
    /// The selected rectangle (left, top, right, bottom) in block
    /// selection.
    pub fn select_rect(&self) -> (r: Option<(usize, usize, usize, usize)>)
        ensures
            match self@.mode {
                ModeView::Select { ax, ay } => r matches Some((x0, y0, x1, y1)) && (x0 as int, y0 as int, x1 as int, y1 as int) == sel_rect(ax, ay, self@.x, self@.y),
                _ => r is None,
            },
    {
        match self.mode {
            Mode::Select { ax, ay } => Some((
                if ax <= self.cur_x { ax } else { self.cur_x },
                if ay <= self.cur_y { ay } else { self.cur_y },
                if ax <= self.cur_x { self.cur_x } else { ax },
                if ay <= self.cur_y { self.cur_y } else { ay },
            )),
            _ => None,
        }
    }

    /// The cell the screen shows at canvas cell (x, y) (see `shown`).
    pub fn display_cell(&self, x: usize, y: usize) -> (c: Cell)
        requires
            self.wf(),
        ensures
            c == shown(self@, x as int, y as int),
    {
        let mut cell = self.canvas.get(x, y);
        match &self.mode {
            Mode::Stamp { buf } => {
                if y >= self.cur_y && x >= self.cur_x && y - self.cur_y < buf.len() {
                    let row = &buf[y - self.cur_y];
                    assert(row@ == self@.mode->buf[y - self.cur_y]);
                    if x - self.cur_x < row.len() {
                        cell = row[x - self.cur_x];
                    }
                }
            },
            _ => {},
        }
        match self.select_rect() {
            Some((x0, y0, x1, y1)) => {
                if x0 <= x && x <= x1 && y0 <= y && y <= y1 {
                    if cell.bg == cell.fg {
                        cell = Cell { ch: cell.ch, fg: 0, bg: 7 };
                    } else {
                        cell = Cell { ch: cell.ch, fg: cell.bg, bg: cell.fg };
                    }
                }
            },
            None => {},
        }
        cell
    }

    /// The sidebar shows when it is switched on and the terminal has 20
    /// columns beside the canvas.
    pub fn sidebar_visible(&self, tw: usize) -> (r: bool)
        ensures
            r == (self.sidebar && tw >= WIDTH + 20),
    {
        self.sidebar && tw >= WIDTH + 20
    }
}

} // verus!
