//! The drawing operations behind the agent tool server: text, filled
//! rectangles, box frames, a plain-text view of the canvas, color names
//! and base64 for returning images.
use vstd::prelude::*;

use crate::canvas::{Canvas, Cell, MAX_ROWS, WIDTH, put, cell_at, grid_wf, lemma_put, last_used};
use crate::sauce::{string_push, trim_end, is_whitespace, is_white_space};
use crate::decimal::{decimal, push_decimal};
use crate::date::ascii_chars;
use crate::canvas::{blank_cell, lemma_last_used_below};
use vstd::string::StrSliceExecFns;

verus! {

/// The state while writing text: the grid, the line (`dy`) and column
/// (`dx`) within the text, the cells and rows written, whether the rest of
/// the line is clipped at the right edge, and whether writing has stopped
/// at the bottom.
pub struct TextState {
    pub grid: Seq<Seq<Cell>>,
    pub dy: int,
    pub dx: int,
    pub cells: int,
    pub rows: int,
    pub clipped: bool,
    pub stopped: bool,
}

/// The state after writing the first `k` chars of `text` at column `x`,
/// row `y`: a newline starts the next row at the same `x`, rows at or past
/// `MAX_ROWS` end the writing, and a line is clipped at column `WIDTH`.
pub open spec fn text_upto(v: Seq<Seq<Cell>>, x: int, y: int, text: Seq<char>, fg: u8, bg: u8, k: int) -> TextState
    decreases k,
{
    if k <= 0 {
        TextState {
            grid: v,
            dy: 0,
            dx: 0,
            cells: 0,
            rows: if y < MAX_ROWS { 1 } else { 0 },
            clipped: false,
            stopped: y >= MAX_ROWS,
        }
    } else {
        let s = text_upto(v, x, y, text, fg, bg, k - 1);
        let c = text[k - 1];
        if s.stopped {
            s
        } else if c == '\n' {
            if y + s.dy + 1 >= MAX_ROWS {
                TextState { stopped: true, ..s }
            } else {
                TextState { dy: s.dy + 1, dx: 0, rows: s.rows + 1, clipped: false, ..s }
            }
        } else if s.clipped {
            s
        } else if x + s.dx >= WIDTH {
            TextState { clipped: true, ..s }
        } else {
            TextState {
                grid: put(s.grid, x + s.dx, y + s.dy, Cell { ch: c, fg, bg }),
                dx: s.dx + 1,
                cells: s.cells + 1,
                ..s
            }
        }
    }
}

proof fn lemma_text_bounds(v: Seq<Seq<Cell>>, x: int, y: int, text: Seq<char>, fg: u8, bg: u8, k: int)
    requires
        0 <= k <= text.len(),
        grid_wf(v),
    ensures
        ({
            let s = text_upto(v, x, y, text, fg, bg, k);
            &&& 0 <= s.dy <= k
            &&& 0 <= s.dx <= k
            &&& 0 <= s.cells <= k
            &&& 0 <= s.rows <= s.dy + 1
            &&& grid_wf(s.grid)
            &&& !s.stopped ==> y + s.dy < MAX_ROWS
        }),
    decreases k,
{
    if k > 0 {
        lemma_text_bounds(v, x, y, text, fg, bg, k - 1);
        let s = text_upto(v, x, y, text, fg, bg, k - 1);
        lemma_put(s.grid, x + s.dx, y + s.dy, Cell { ch: text[k - 1], fg, bg });
    }
}

/// Write text onto the canvas at column `x`, row `y`; returns the number
/// of cells written and of rows touched.
pub fn put_text(canvas: &mut Canvas, x: usize, y: usize, text: &str, fg: u8, bg: u8) -> (r: (usize, usize))
    requires
        old(canvas).wf(),
        x + text@.len() <= usize::MAX,
        y + text@.len() <= usize::MAX,
    ensures
        final(canvas).wf(),
        ({
            let s = text_upto(old(canvas)@, x as int, y as int, text@, fg, bg, text@.len() as int);
            &&& final(canvas)@ == s.grid
            &&& r.0 == s.cells
            &&& r.1 == s.rows
        }),
{
    let ghost v = canvas@;
    let n = text.unicode_len();
    let mut dy: usize = 0;
    let mut dx: usize = 0;
    let mut cells: usize = 0;
    let mut rows: usize = if y < MAX_ROWS {
        1
    } else {
        0
    };
    let mut clipped = false;
    let mut stopped = y >= MAX_ROWS;
    let mut k: usize = 0;
    while k < n
        invariant
            canvas.wf(),
            grid_wf(v),
            n == text@.len(),
            x + text@.len() <= usize::MAX,
            y + text@.len() <= usize::MAX,
            k <= n,
            ({
                let s = text_upto(v, x as int, y as int, text@, fg, bg, k as int);
                &&& canvas@ == s.grid
                &&& dy == s.dy
                &&& dx == s.dx
                &&& cells == s.cells
                &&& rows == s.rows
                &&& clipped == s.clipped
                &&& stopped == s.stopped
            }),
        decreases n - k,
    {
        proof {
            lemma_text_bounds(v, x as int, y as int, text@, fg, bg, k as int);
        }
        let c = text.get_char(k);
        if stopped {
        } else if c == '\n' {
            if y + dy + 1 >= MAX_ROWS {
                stopped = true;
            } else {
                dy = dy + 1;
                dx = 0;
                rows = rows + 1;
                clipped = false;
            }
        } else if clipped {
        } else if x + dx >= WIDTH {
            clipped = true;
        } else {
            canvas.set(x + dx, y + dy, Cell { ch: c, fg, bg });
            dx = dx + 1;
            cells = cells + 1;
        }
        k = k + 1;
    }
    (cells, rows)
}

/// The cell rectangle at (x, y) of size w x h, clipped to the canvas limits.
pub open spec fn in_cells(cx: int, cy: int, x: int, y: int, w: int, h: int) -> bool {
    x <= cx < x + w && y <= cy < y + h && cx < WIDTH && cy < MAX_ROWS
}

/// The number of rows after growing a grid of `len` rows down to the last
/// row of a non-empty clipped rectangle.
pub open spec fn rows_after(len: int, x: int, y: int, w: int, h: int) -> int {
    let xe = if x + w < WIDTH { x + w } else { WIDTH as int };
    let ye = if y + h < MAX_ROWS { y + h } else { MAX_ROWS as int };
    if x < xe && y < ye && len < ye {
        ye
    } else {
        len
    }
}

/// Fill a rectangle of cells with one character and color (clipped to
/// `WIDTH` x `MAX_ROWS`).
pub fn fill_cells(canvas: &mut Canvas, x: usize, y: usize, w: usize, h: usize, c: Cell)
    requires
        old(canvas).wf(),
        x + w <= usize::MAX,
        y + h <= usize::MAX,
    ensures
        final(canvas).wf(),
        final(canvas)@.len() == rows_after(old(canvas)@.len() as int, x as int, y as int, w as int, h as int),
        forall|cx: int, cy: int| #[trigger]
            cell_at(final(canvas)@, cx, cy) == if in_cells(cx, cy, x as int, y as int, w as int, h as int) {
                c
            } else {
                cell_at(old(canvas)@, cx, cy)
            },
{
    let ghost v = canvas@;
    let xe = if x + w < WIDTH {
        x + w
    } else {
        WIDTH
    };
    let ye = if y + h < MAX_ROWS {
        y + h
    } else {
        MAX_ROWS
    };
    let mut yy: usize = y;
    while yy < ye
        invariant
            canvas.wf(),
            grid_wf(v),
            xe == (if x + w < WIDTH { x + w } else { WIDTH as int }),
            ye == (if y + h < MAX_ROWS { y + h } else { MAX_ROWS as int }),
            y <= yy,
            yy <= ye || yy == y,
            canvas@.len() == (if x < xe && y < yy && v.len() < yy { yy as int } else { v.len() as int }),
            forall|cx: int, cy: int| #[trigger]
                cell_at(canvas@, cx, cy) == if in_cells(cx, cy, x as int, y as int, w as int, yy - y) {
                    c
                } else {
                    cell_at(v, cx, cy)
                },
        decreases ye - yy,
    {
        let mut xx: usize = x;
        while xx < xe
            invariant
                canvas.wf(),
                grid_wf(v),
                xe == (if x + w < WIDTH { x + w } else { WIDTH as int }),
                ye == (if y + h < MAX_ROWS { y + h } else { MAX_ROWS as int }),
                y <= yy < ye,
                x <= xx,
                xx <= xe || xx == x,
                canvas@.len() == (if (x < xe && y < yy && v.len() < yy) || (x < xx && v.len() < yy + 1) {
                    if x < xx {
                        yy + 1
                    } else {
                        yy as int
                    }
                } else {
                    v.len() as int
                }),
                forall|cx: int, cy: int| #[trigger]
                    cell_at(canvas@, cx, cy) == if in_cells(cx, cy, x as int, y as int, w as int, yy - y)
                        || (cy == yy && x <= cx < xx) {
                        c
                    } else {
                        cell_at(v, cx, cy)
                    },
            decreases xe - xx,
        {
            proof {
                lemma_put(canvas@, xx as int, yy as int, c);
            }
            canvas.set(xx, yy, c);
            xx = xx + 1;
        }
        yy = yy + 1;
    }
}

/// Line styles of a box frame.
#[derive(Debug, Clone, Copy)]
pub enum BoxStyle {
    Single,
    Double,
    Block,
}

/// `s` and `w` are the same text.
fn same_text(s: &str, w: &str) -> (r: bool)
    ensures
        r == (s@ == w@),
{
    let n = s.unicode_len();
    if n != w.unicode_len() {
        return false;
    }
    let mut i: usize = 0;
    while i < n
        invariant
            n == s@.len() == w@.len(),
            i <= n,
            forall|k: int| 0 <= k < i ==> s@[k] == w@[k],
        decreases n - i,
    {
        if s.get_char(i) != w.get_char(i) {
            return false;
        }
        i = i + 1;
    }
    assert(s@ =~= w@);
    true
}

pub open spec fn style_named(name: Seq<char>) -> BoxStyle {
    if name == "double"@ {
        BoxStyle::Double
    } else if name == "block"@ {
        BoxStyle::Block
    } else {
        BoxStyle::Single
    }
}

/// The frame style for a name: "double", "block", anything else single.
pub fn box_style(name: &str) -> (r: BoxStyle)
    ensures
        r == style_named(name@),
{
    if same_text(name, "double") {
        BoxStyle::Double
    } else if same_text(name, "block") {
        BoxStyle::Block
    } else {
        BoxStyle::Single
    }
}

/// The frame glyphs of a style: top-left, top-right, bottom-left,
/// bottom-right, horizontal, vertical.
pub open spec fn frame_glyphs(style: BoxStyle) -> Seq<char> {
    match style {
        BoxStyle::Double => seq!['╔', '╗', '╚', '╝', '═', '║'],
        BoxStyle::Block => seq!['▄', '▄', '▀', '▀', ' ', '█'],
        BoxStyle::Single => seq!['┌', '┐', '└', '┘', '─', '│'],
    }
}

/// The glyph of the frame at (cx, cy) for a box from (x, y) to (x1, y1):
/// corners, horizontal edges (the block style runs ▄ along the top and ▀
/// along the bottom), vertical edges; `None` off the frame.
pub open spec fn frame_char(style: BoxStyle, cx: int, cy: int, x: int, y: int, x1: int, y1: int) -> Option<char> {
    let g = frame_glyphs(style);
    let block = style is Block;
    if x <= cx <= x1 && cy == y {
        Some(
            if block {
                '▄'
            } else if cx == x {
                g[0]
            } else if cx == x1 {
                g[1]
            } else {
                g[4]
            },
        )
    } else if x <= cx <= x1 && cy == y1 {
        Some(
            if block {
                '▀'
            } else if cx == x {
                g[2]
            } else if cx == x1 {
                g[3]
            } else {
                g[4]
            },
        )
    } else if (cx == x || cx == x1) && y < cy < y1 {
        Some(g[5])
    } else {
        None
    }
}

/// The frame's edges and corners, glyph by glyph, for a box from (x, y)
/// to (x1, y1) at least 3 x 3 cells: a double frame runs '═' along the top
/// and bottom and '║' down the sides between the corners '╔' '╗' '╚' '╝';
/// a single frame '─' and '│' between '┌' '┐' '└' '┘'; a block frame runs
/// '▄' along the top, '▀' along the bottom and '█' down the sides. No cell
/// off the frame is drawn.
pub proof fn lemma_frame_glyphs(style: BoxStyle, cx: int, cy: int, x: int, y: int, x1: int, y1: int)
    requires
        x + 2 <= x1,
        y + 2 <= y1,
    ensures
        x < cx < x1 && (cy == y || cy == y1) ==> frame_char(style, cx, cy, x, y, x1, y1) == Some(
            match style {
                BoxStyle::Double => '═',
                BoxStyle::Single => '─',
                BoxStyle::Block => if cy == y { '▄' } else { '▀' },
            },
        ),
        y < cy < y1 && (cx == x || cx == x1) ==> frame_char(style, cx, cy, x, y, x1, y1) == Some(
            match style {
                BoxStyle::Double => '║',
                BoxStyle::Single => '│',
                BoxStyle::Block => '█',
            },
        ),
        cx == x && cy == y ==> frame_char(style, cx, cy, x, y, x1, y1) == Some(
            match style {
                BoxStyle::Double => '╔',
                BoxStyle::Single => '┌',
                BoxStyle::Block => '▄',
            },
        ),
        cx == x1 && cy == y ==> frame_char(style, cx, cy, x, y, x1, y1) == Some(
            match style {
                BoxStyle::Double => '╗',
                BoxStyle::Single => '┐',
                BoxStyle::Block => '▄',
            },
        ),
        cx == x && cy == y1 ==> frame_char(style, cx, cy, x, y, x1, y1) == Some(
            match style {
                BoxStyle::Double => '╚',
                BoxStyle::Single => '└',
                BoxStyle::Block => '▀',
            },
        ),
        cx == x1 && cy == y1 ==> frame_char(style, cx, cy, x, y, x1, y1) == Some(
            match style {
                BoxStyle::Double => '╝',
                BoxStyle::Single => '┘',
                BoxStyle::Block => '▀',
            },
        ),
        (x < cx < x1 && y < cy < y1) || cx < x || cx > x1 || cy < y || cy > y1 ==> frame_char(
            style,
            cx,
            cy,
            x,
            y,
            x1,
            y1,
        ) is None,
{
}

fn glyph_table(style: &BoxStyle) -> (g: [char; 6])
    ensures
        g@ == frame_glyphs(*style),
{
    let g = match style {
        BoxStyle::Double => ['╔', '╗', '╚', '╝', '═', '║'],
        BoxStyle::Block => ['▄', '▄', '▀', '▀', ' ', '█'],
        BoxStyle::Single => ['┌', '┐', '└', '┘', '─', '│'],
    };
    assert(g@ =~= frame_glyphs(*style));
    g
}

fn put_clipped(canvas: &mut Canvas, xx: usize, yy: usize, c: Cell)
    requires
        old(canvas).wf(),
    ensures
        final(canvas).wf(),
        final(canvas)@ == put(old(canvas)@, xx as int, yy as int, c),
{
    if xx < WIDTH && yy < MAX_ROWS {
        canvas.set(xx, yy, c);
    }
}

/// Draw a rectangular frame (border only) of at least 2 x 2 cells; parts
/// past the canvas limits are clipped.
pub fn draw_box(canvas: &mut Canvas, x: usize, y: usize, w: usize, h: usize, style: BoxStyle, fg: u8, bg: u8)
    requires
        old(canvas).wf(),
        x + w <= usize::MAX,
        y + h <= usize::MAX,
        x + 2 <= usize::MAX,
        y + 2 <= usize::MAX,
    ensures
        final(canvas).wf(),
        ({
            let x1 = x + (if w < 2 { 2 } else { w as int }) - 1;
            let y1 = y + (if h < 2 { 2 } else { h as int }) - 1;
            forall|cx: int, cy: int| #[trigger]
                cell_at(final(canvas)@, cx, cy) == match frame_char(style, cx, cy, x as int, y as int, x1, y1) {
                    Some(ch) if cx < WIDTH && cy < MAX_ROWS => Cell { ch, fg, bg },
                    _ => cell_at(old(canvas)@, cx, cy),
                }
        }),
{
    let ghost v = canvas@;
    let w = if w < 2 {
        2
    } else {
        w
    };
    let h = if h < 2 {
        2
    } else {
        h
    };
    let g = glyph_table(&style);
    let block = match style {
        BoxStyle::Block => true,
        _ => false,
    };
    let x1 = x + w - 1;
    let y1 = y + h - 1;
    let mut xx: usize = x;
    while xx <= x1
        invariant
            canvas.wf(),
            grid_wf(v),
            g@ == frame_glyphs(style),
            block == (style is Block),
            x1 == x + w - 1,
            y1 == y + h - 1,
            x + w <= usize::MAX,
            w >= 2,
            h >= 2,
            x <= xx <= x1 + 1,
            forall|cx: int, cy: int| #[trigger]
                cell_at(canvas@, cx, cy) == match frame_char(style, cx, cy, x as int, y as int, x1 as int, y1 as int) {
                    Some(ch) if cx < WIDTH && cy < MAX_ROWS && (cy == y || cy == y1) && cx < xx => Cell { ch, fg, bg },
                    _ => cell_at(v, cx, cy),
                },
        decreases x1 + 1 - xx,
    {
        let top = if block {
            '▄'
        } else if xx == x {
            g[0]
        } else if xx == x1 {
            g[1]
        } else {
            g[4]
        };
        let bot = if block {
            '▀'
        } else if xx == x {
            g[2]
        } else if xx == x1 {
            g[3]
        } else {
            g[4]
        };
        proof {
            lemma_put(canvas@, xx as int, y as int, Cell { ch: top, fg, bg });
        }
        put_clipped(canvas, xx, y, Cell { ch: top, fg, bg });
        proof {
            lemma_put(canvas@, xx as int, y1 as int, Cell { ch: bot, fg, bg });
        }
        put_clipped(canvas, xx, y1, Cell { ch: bot, fg, bg });
        xx = xx + 1;
    }
    let mut yy: usize = y + 1;
    while yy < y1
        invariant
            canvas.wf(),
            grid_wf(v),
            g@ == frame_glyphs(style),
            x1 == x + w - 1,
            y1 == y + h - 1,
            w >= 2,
            h >= 2,
            y + 1 <= yy <= y1,
            forall|cx: int, cy: int| #[trigger]
                cell_at(canvas@, cx, cy) == match frame_char(style, cx, cy, x as int, y as int, x1 as int, y1 as int) {
                    Some(ch) if cx < WIDTH && cy < MAX_ROWS && (cy == y || cy == y1 || cy < yy) => Cell { ch, fg, bg },
                    _ => cell_at(v, cx, cy),
                },
        decreases y1 - yy,
    {
        proof {
            lemma_put(canvas@, x as int, yy as int, Cell { ch: g@[5], fg, bg });
        }
        put_clipped(canvas, x, yy, Cell { ch: g[5], fg, bg });
        proof {
            lemma_put(canvas@, x1 as int, yy as int, Cell { ch: g@[5], fg, bg });
        }
        put_clipped(canvas, x1, yy, Cell { ch: g[5], fg, bg });
        yy = yy + 1;
    }
}

/// The base64 digit for a value below 64.
pub open spec fn b64_digit(v: int) -> char {
    if v < 26 {
        (0x41 + v) as char
    } else if v < 52 {
        (0x61 + v - 26) as char
    } else if v < 62 {
        (0x30 + v - 52) as char
    } else if v == 62 {
        '+'
    } else {
        '/'
    }
}

/// The four base64 chars of a chunk of one to three bytes, padded with
/// '=' for a short chunk.
pub open spec fn b64_chunk(c: Seq<u8>) -> Seq<char> {
    let b1: int = if c.len() > 1 { c[1] as int } else { 0 };
    let b2: int = if c.len() > 2 { c[2] as int } else { 0 };
    let n = c[0] * 65536 + b1 * 256 + b2;
    seq![
        b64_digit(n / 262144),
        b64_digit((n / 4096) % 64),
        if c.len() > 1 { b64_digit((n / 64) % 64) } else { '=' },
        if c.len() > 2 { b64_digit(n % 64) } else { '=' },
    ]
}

/// Standard base64 (RFC 4648 alphabet, '=' padding) of `d`, three bytes
/// at a time.
#[verifier::opaque]
pub open spec fn b64_text(d: Seq<u8>) -> Seq<char>
    decreases d.len(),
{
    if d.len() == 0 {
        seq![]
    } else {
        let k = ((d.len() - 1) / 3) * 3;
        b64_text(d.take(k)) + b64_chunk(d.skip(k))
    }
}

fn b64_digit_exec(v: u32) -> (c: char)
    requires
        v < 64,
    ensures
        c == b64_digit(v as int),
{
    let table: [u8; 64] = [
        0x41, 0x42, 0x43, 0x44, 0x45, 0x46, 0x47, 0x48, 0x49, 0x4A, 0x4B, 0x4C, 0x4D, 0x4E, 0x4F, 0x50,
        0x51, 0x52, 0x53, 0x54, 0x55, 0x56, 0x57, 0x58, 0x59, 0x5A, 0x61, 0x62, 0x63, 0x64, 0x65, 0x66,
        0x67, 0x68, 0x69, 0x6A, 0x6B, 0x6C, 0x6D, 0x6E, 0x6F, 0x70, 0x71, 0x72, 0x73, 0x74, 0x75, 0x76,
        0x77, 0x78, 0x79, 0x7A, 0x30, 0x31, 0x32, 0x33, 0x34, 0x35, 0x36, 0x37, 0x38, 0x39, 0x2B, 0x2F,
    ];
    assert(forall|i: int| 0 <= i < 26 ==> table@[i] == 0x41 + i) by {
        assert(table@[0] == 0x41);
    }
    let b = table[v as usize];
    proof {
        assert(table@[v as int] == b);
        if v < 26 {
            assert(b == 0x41 + v);
        } else if v < 52 {
            assert(b == 0x61 + v - 26);
        } else if v < 62 {
            assert(b == 0x30 + v - 52);
        }
    }
    b as char
}

fn push_b64_chunk(s: &mut String, data: &[u8], i: usize, m: usize)
    requires
        1 <= m <= 3,
        i + m <= data@.len(),
    ensures
        final(s)@ == old(s)@ + b64_chunk(data@.subrange(i as int, i + m)),
{
    let ghost chunk = data@.subrange(i as int, i + m);
    let b0 = data[i] as u32;
    let b1 = if m > 1 {
        data[i + 1] as u32
    } else {
        0
    };
    let b2 = if m > 2 {
        data[i + 2] as u32
    } else {
        0
    };
    let v = b0 * 65536 + b1 * 256 + b2;
    assert(v / 262144 < 64);
    string_push(s, b64_digit_exec(v / 262144));
    string_push(s, b64_digit_exec((v / 4096) % 64));
    if m > 1 {
        string_push(s, b64_digit_exec((v / 64) % 64));
    } else {
        string_push(s, '=');
    }
    if m > 2 {
        string_push(s, b64_digit_exec(v % 64));
    } else {
        string_push(s, '=');
    }
    assert(final(s)@ =~= old(s)@ + b64_chunk(chunk));
}

proof fn lemma_b64_step(d: Seq<u8>, i: int, m: int)
    requires
        i % 3 == 0,
        i >= 0,
        1 <= m <= 3,
        i + m <= d.len(),
    ensures
        b64_text(d.take(i + m)) == b64_text(d.take(i)) + b64_chunk(d.subrange(i, i + m)),
        4 * ((i + m + 2) / 3) == 4 * ((i + 2) / 3) + 4,
        b64_chunk(d.subrange(i, i + m)).len() == 4,
{
    reveal(b64_text);
    let d2 = d.take(i + m);
    assert(d2.take(i) =~= d.take(i));
    assert(d2.skip(i) =~= d.subrange(i, i + m));
    assert(((d2.len() - 1) / 3) * 3 == i);
}

/// Base64 of `data`, as image tools hand PNG bytes back.
pub fn b64(data: &[u8]) -> (s: String)
    ensures
        s@ == b64_text(data@),
        s@.len() == 4 * ((data@.len() + 2) / 3),
{
    let mut s = String::new();
    let n = data.len();
    let full = n / 3;
    proof {
        assert(data@.take(0) =~= Seq::<u8>::empty());
        reveal(b64_text);
    }
    let mut k: usize = 0;
    while k < full
        invariant
            n == data@.len(),
            full == n / 3,
            k <= full,
            s@ == b64_text(data@.take(3 * k)),
            s@.len() == 4 * k,
        decreases full - k,
    {
        proof {
            lemma_b64_step(data@, 3 * k as int, 3);
        }
        push_b64_chunk(&mut s, data, 3 * k, 3);
        k = k + 1;
    }
    let rem = n - 3 * full;
    if rem > 0 {
        proof {
            lemma_b64_step(data@, 3 * full as int, rem as int);
        }
        push_b64_chunk(&mut s, data, 3 * full, rem);
    }
    assert(data@.take(n as int) =~= data@);
    s
}

/// The Unicode lowercase mapping of a text, as `str::to_lowercase` does it.
pub uninterp spec fn lowercase(s: Seq<char>) -> Seq<char>;

/// `str::to_lowercase`: the text with every char replaced by its Unicode
/// lowercase mapping. What the mapping gives is named `lowercase`; it
/// depends on the text alone (Unicode's tables as built into std).
#[verifier::external_body]
pub(crate) fn to_lowercase(s: &str) -> (r: String)
    ensures
        r@ == lowercase(s@),
{
    s.to_lowercase()
}

/// The text without spaces, hyphens and underscores.
pub open spec fn without_separators(t: Seq<char>) -> Seq<char>
    decreases t.len(),
{
    if t.len() == 0 {
        t
    } else {
        let rest = without_separators(t.drop_last());
        let c = t.last();
        if c == ' ' || c == '-' || c == '_' {
            rest
        } else {
            rest.push(c)
        }
    }
}

fn strip_separators(t: &str) -> (r: String)
    ensures
        r@ == without_separators(t@),
{
    let n = t.unicode_len();
    let mut r = String::new();
    let mut i: usize = 0;
    while i < n
        invariant
            n == t@.len(),
            i <= n,
            r@ == without_separators(t@.take(i as int)),
        decreases n - i,
    {
        let c = t.get_char(i);
        assert(t@.take(i + 1).drop_last() =~= t@.take(i as int));
        if !(c == ' ' || c == '-' || c == '_') {
            string_push(&mut r, c);
        }
        i = i + 1;
    }
    assert(t@.take(n as int) =~= t@);
    r
}

/// The color a (normalized) name stands for.
pub open spec fn named_color(t: Seq<char>) -> Option<u8> {
    if t == "black"@ {
        Some(0u8)
    } else if t == "blue"@ {
        Some(1u8)
    } else if t == "green"@ {
        Some(2u8)
    } else if t == "cyan"@ {
        Some(3u8)
    } else if t == "red"@ {
        Some(4u8)
    } else if t == "magenta"@ || t == "purple"@ {
        Some(5u8)
    } else if t == "brown"@ || t == "darkyellow"@ {
        Some(6u8)
    } else if t == "gray"@ || t == "grey"@ || t == "lightgray"@ || t == "lightgrey"@ || t == "white7"@ {
        Some(7u8)
    } else if t == "darkgray"@ || t == "darkgrey"@ {
        Some(8u8)
    } else if t == "lightblue"@ || t == "brightblue"@ {
        Some(9u8)
    } else if t == "lightgreen"@ || t == "brightgreen"@ {
        Some(10u8)
    } else if t == "lightcyan"@ || t == "brightcyan"@ {
        Some(11u8)
    } else if t == "lightred"@ || t == "brightred"@ {
        Some(12u8)
    } else if t == "lightmagenta"@ || t == "brightmagenta"@ || t == "pink"@ {
        Some(13u8)
    } else if t == "yellow"@ {
        Some(14u8)
    } else if t == "white"@ || t == "brightwhite"@ {
        Some(15u8)
    } else {
        None
    }
}

fn color_of_name(t: &str) -> (r: Option<u8>)
    ensures
        r == named_color(t@),
{
    if same_text(t, "black") {
        Some(0)
    } else if same_text(t, "blue") {
        Some(1)
    } else if same_text(t, "green") {
        Some(2)
    } else if same_text(t, "cyan") {
        Some(3)
    } else if same_text(t, "red") {
        Some(4)
    } else if same_text(t, "magenta") || same_text(t, "purple") {
        Some(5)
    } else if same_text(t, "brown") || same_text(t, "darkyellow") {
        Some(6)
    } else if same_text(t, "gray") || same_text(t, "grey") || same_text(t, "lightgray") || same_text(
        t,
        "lightgrey",
    ) || same_text(t, "white7") {
        Some(7)
    } else if same_text(t, "darkgray") || same_text(t, "darkgrey") {
        Some(8)
    } else if same_text(t, "lightblue") || same_text(t, "brightblue") {
        Some(9)
    } else if same_text(t, "lightgreen") || same_text(t, "brightgreen") {
        Some(10)
    } else if same_text(t, "lightcyan") || same_text(t, "brightcyan") {
        Some(11)
    } else if same_text(t, "lightred") || same_text(t, "brightred") {
        Some(12)
    } else if same_text(t, "lightmagenta") || same_text(t, "brightmagenta") || same_text(t, "pink") {
        Some(13)
    } else if same_text(t, "yellow") {
        Some(14)
    } else if same_text(t, "white") || same_text(t, "brightwhite") {
        Some(15)
    } else {
        None
    }
}

/// The color a lowercased name stands for, once spaces, hyphens and
/// underscores are left out.
pub fn color_of_lowercase(t: &str) -> (r: Option<u8>)
    ensures
        r == named_color(without_separators(t@)),
{
    let stripped = strip_separators(t);
    color_of_name(stripped.as_str())
}

/// The column a banner `width` cells wide starts at: centered on the
/// canvas (flush left when wider than it), or at `x`.
pub fn banner_column(center: bool, x: usize, width: usize) -> (c: usize)
    ensures
        c == (if !center {
            x as int
        } else if width >= WIDTH {
            0
        } else {
            (WIDTH - width) / 2
        }),
{
    if !center {
        x
    } else if width >= WIDTH {
        0
    } else {
        (WIDTH - width) / 2
    }
}

/// The row count a new canvas gets: the request brought into
/// `1..=MAX_ROWS`.
pub fn canvas_rows(rows: usize) -> (r: usize)
    ensures
        r == (if rows < 1 {
            1
        } else if rows > MAX_ROWS {
            MAX_ROWS as int
        } else {
            rows as int
        }),
{
    if rows < 1 {
        1
    } else if rows > MAX_ROWS {
        MAX_ROWS
    } else {
        rows
    }
}

/// The font a request picks from `count` fonts: its index, or the last
/// font when the index is past the end.
pub fn font_choice(index: usize, count: usize) -> (r: usize)
    requires
        count >= 1,
    ensures
        r == (if index < count { index as int } else { count - 1 }),
{
    if index < count {
        index
    } else {
        count - 1
    }
}

/// A color argument as a request gives it.
#[derive(Debug, Clone)]
pub enum ColorArg {
    /// absent or null
    Missing,
    Number(u64),
    Name(String),
    /// anything else
    Other,
}

/// Why a color argument was refused.
#[derive(Debug)]
pub enum ColorError {
    /// a name that is no color (the name as normalized)
    Unknown(String),
    /// a color number at or past the limit, with the largest allowed
    OutOfRange(u8, u8),
    /// neither a number nor a name
    NotAColor,
}

/// The normalized form of a color name: lowercased, without spaces,
/// hyphens and underscores.
pub open spec fn normalized_name(s: Seq<char>) -> Seq<char> {
    without_separators(lowercase(s))
}

/// The color a number (taken modulo 256) or a name stands for.
pub open spec fn color_value(arg: ColorArg) -> Option<u8> {
    match arg {
        ColorArg::Number(v) => Some(v as u8),
        ColorArg::Name(s) => named_color(normalized_name(s@)),
        _ => None,
    }
}

/// Accepts a color number or a color name; `limit` is 16 for a
/// foreground, 8 for a background.
pub fn parse_color(arg: &ColorArg, limit: u8) -> (r: Result<Option<u8>, ColorError>)
    requires
        limit >= 1,
    ensures
        arg is Missing ==> r matches Ok(None),
        arg is Other ==> r matches Err(ColorError::NotAColor),
        arg is Number || arg is Name ==> match color_value(*arg) {
            None => r matches Err(ColorError::Unknown(t)) && arg matches ColorArg::Name(s) && t@
                == normalized_name(s@),
            Some(c) => if c >= limit {
                r matches Err(ColorError::OutOfRange(c2, m)) && c2 == c && m == limit - 1
            } else {
                r matches Ok(Some(c2)) && c2 == c
            },
        },
{
    let n = match arg {
        ColorArg::Missing => {
            return Ok(None);
        },
        ColorArg::Other => {
            return Err(ColorError::NotAColor);
        },
        ColorArg::Number(v) => #[verifier::truncate] (*v as u8),
        ColorArg::Name(s) => {
            let low = to_lowercase(s.as_str());
            match color_of_lowercase(low.as_str()) {
                Some(c) => c,
                None => {
                    return Err(ColorError::Unknown(strip_separators(low.as_str())));
                },
            }
        },
    };
    if n >= limit {
        return Err(ColorError::OutOfRange(n, limit - 1));
    }
    Ok(Some(n))
}

/// Append a text.
pub(crate) fn push_text(out: &mut String, t: &str)
    ensures
        final(out)@ == old(out)@ + t@,
{
    let ghost start = out@;
    let n = t.unicode_len();
    let mut i: usize = 0;
    while i < n
        invariant
            n == t@.len(),
            i <= n,
            out@ == start + t@.take(i as int),
        decreases n - i,
    {
        string_push(out, t.get_char(i));
        i = i + 1;
        assert(out@ =~= start + t@.take(i as int));
    }
    assert(t@.take(n as int) =~= t@);
}

/// The decimal text of a number.
pub open spec fn num_text(n: int) -> Seq<char> {
    ascii_chars(decimal(n as nat))
}

/// Append the decimal text of a number.
pub(crate) fn push_number(out: &mut String, n: u64)
    ensures
        final(out)@ == old(out)@ + num_text(n as int),
{
    let ghost start = out@;
    let mut bytes: Vec<u8> = Vec::new();
    push_decimal(&mut bytes, n);
    assert(bytes@ =~= decimal(n as nat));
    let mut i: usize = 0;
    while i < bytes.len()
        invariant
            bytes@ == decimal(n as nat),
            i <= bytes@.len(),
            out@ == start + ascii_chars(bytes@.take(i as int)),
        decreases bytes@.len() - i,
    {
        string_push(out, bytes[i] as char);
        i = i + 1;
        assert(out@ =~= start + ascii_chars(bytes@.take(i as int)));
    }
    assert(bytes@.take(bytes@.len() as int) =~= bytes@);
}

/// The chars of row `y` across the full width.
pub open spec fn row_chars(v: Seq<Seq<Cell>>, y: int) -> Seq<char> {
    Seq::new(WIDTH as nat, |x: int| cell_at(v, x, y).ch)
}

/// The first `n` rows as text: each row's chars, trailing white space
/// trimmed, then a newline.
pub open spec fn text_rows(v: Seq<Seq<Cell>>, n: int) -> Seq<char>
    decreases n,
{
    if n <= 0 {
        seq![]
    } else {
        text_rows(v, n - 1) + trim_end(row_chars(v, n - 1)) + seq!['\n']
    }
}

/// One color run: "x0-x1 fg/bg".
pub open spec fn run_text(a: int, b: int, fg: u8, bg: u8) -> Seq<char> {
    num_text(a) + seq!['-'] + num_text(b) + seq![' '] + num_text(fg as int) + seq!['/'] + num_text(
        bg as int,
    )
}

/// The runs of equal colors in row `y` found once columns `1..=k` are
/// looked at: where the current run started, its first cell, and the
/// texts of the finished runs that are not the default light gray on
/// black. Column `WIDTH` closes the last run.
pub open spec fn runs_upto(v: Seq<Seq<Cell>>, y: int, k: int) -> (int, Cell, Seq<Seq<char>>)
    decreases k,
{
    if k <= 0 {
        (0, cell_at(v, 0, y), seq![])
    } else {
        let p = runs_upto(v, y, k - 1);
        let cell = if k < WIDTH {
            cell_at(v, k, y)
        } else {
            blank_cell()
        };
        if k == WIDTH || cell.fg != p.1.fg || cell.bg != p.1.bg {
            (
                k,
                cell,
                if p.1.fg == 7 && p.1.bg == 0 {
                    p.2
                } else {
                    p.2.push(run_text(p.0, k - 1, p.1.fg, p.1.bg))
                },
            )
        } else {
            p
        }
    }
}

/// Texts joined with single spaces.
pub open spec fn joined(ts: Seq<Seq<char>>) -> Seq<char>
    decreases ts.len(),
{
    if ts.len() == 0 {
        seq![]
    } else if ts.len() == 1 {
        ts[0]
    } else {
        joined(ts.drop_last()) + seq![' '] + ts.last()
    }
}

/// The color line of row `y`: "y: " and its runs, or nothing when the
/// row has no run in other colors than the default.
pub open spec fn runs_line(v: Seq<Seq<Cell>>, y: int) -> Seq<char> {
    let runs = runs_upto(v, y, WIDTH as int).2;
    if runs.len() == 0 {
        seq![]
    } else {
        num_text(y) + seq![':', ' '] + joined(runs) + seq!['\n']
    }
}

/// The color lines of the first `n` rows.
pub open spec fn runs_lines(v: Seq<Seq<Cell>>, n: int) -> Seq<char>
    decreases n,
{
    if n <= 0 {
        seq![]
    } else {
        runs_lines(v, n - 1) + runs_line(v, n - 1)
    }
}

/// The canvas as text: the used rows, a line with the used size, and with
/// `colors` a listing of the color runs of each row.
pub open spec fn render_text(v: Seq<Seq<Cell>>, colors: bool) -> Seq<char> {
    let n = last_used(v) + 1;
    text_rows(v, n) + "-- "@ + num_text(WIDTH as int) + "x"@ + num_text(n) + " used --\n"@ + if colors {
        "color runs (row: x0-x1 fg/bg …):\n"@ + runs_lines(v, n)
    } else {
        seq![]
    }
}

fn push_row_text(out: &mut String, canvas: &Canvas, y: usize)
    requires
        canvas.wf(),
    ensures
        final(out)@ == old(out)@ + trim_end(row_chars(canvas@, y as int)),
{
    let ghost cs = row_chars(canvas@, y as int);
    let mut k: usize = WIDTH;
    assert(cs.take(WIDTH as int) =~= cs);
    while k > 0 && is_whitespace(canvas.get(k - 1, y).ch)
        invariant
            k <= WIDTH,
            cs == row_chars(canvas@, y as int),
            trim_end(cs.take(k as int)) == trim_end(cs),
        decreases k,
    {
        assert(cs.take(k as int).drop_last() =~= cs.take(k - 1));
        k = k - 1;
    }
    assert(trim_end(cs.take(k as int)) == cs.take(k as int));
    let ghost start = out@;
    let mut i: usize = 0;
    while i < k
        invariant
            i <= k <= WIDTH,
            cs == row_chars(canvas@, y as int),
            out@ == start + cs.take(i as int),
        decreases k - i,
    {
        string_push(out, canvas.get(i, y).ch);
        i = i + 1;
        assert(out@ =~= start + cs.take(i as int));
    }
}

proof fn lemma_runs_len(v: Seq<Seq<Cell>>, y: int, k: int)
    requires
        0 <= k <= WIDTH,
    ensures
        runs_upto(v, y, k).2.len() <= k,
        0 <= runs_upto(v, y, k).0 <= k,
    decreases k,
{
    if k > 0 {
        lemma_runs_len(v, y, k - 1);
    }
}

fn push_run(line: &mut String, first: bool, a: usize, b: usize, fg: u8, bg: u8)
    ensures
        final(line)@ == old(line)@ + (if first { Seq::<char>::empty() } else { seq![' '] }) + run_text(
            a as int,
            b as int,
            fg,
            bg,
        ),
{
    let ghost start = line@;
    if !first {
        string_push(line, ' ');
    }
    let ghost mid = line@;
    push_number(line, a as u64);
    string_push(line, '-');
    push_number(line, b as u64);
    string_push(line, ' ');
    push_number(line, fg as u64);
    string_push(line, '/');
    push_number(line, bg as u64);
    assert(line@ =~= mid + run_text(a as int, b as int, fg, bg));
}

fn push_runs_line(out: &mut String, canvas: &Canvas, y: usize)
    requires
        canvas.wf(),
    ensures
        final(out)@ == old(out)@ + runs_line(canvas@, y as int),
{
    let ghost v = canvas@;
    let mut line = String::new();
    let mut nruns: usize = 0;
    let mut start: usize = 0;
    let mut cur = canvas.get(0, y);
    let mut x: usize = 1;
    while x <= WIDTH
        invariant
            1 <= x <= WIDTH + 1,
            v == canvas@,
            ({
                let p = runs_upto(v, y as int, x - 1);
                &&& start == p.0
                &&& cur == p.1
                &&& nruns == p.2.len()
                &&& line@ == joined(p.2)
            }),
        decreases WIDTH + 1 - x,
    {
        proof {
            lemma_runs_len(v, y as int, x - 1);
        }
        let cell = if x < WIDTH {
            canvas.get(x, y)
        } else {
            Cell::default()
        };
        if x == WIDTH || cell.fg != cur.fg || cell.bg != cur.bg {
            if !(cur.fg == 7 && cur.bg == 0) {
                let ghost p = runs_upto(v, y as int, x - 1);
                push_run(&mut line, nruns == 0, start, x - 1, cur.fg, cur.bg);
                proof {
                    let q = p.2.push(run_text(start as int, x - 1, cur.fg, cur.bg));
                    assert(q.drop_last() =~= p.2);
                }
                nruns = nruns + 1;
            }
            start = x;
            cur = cell;
        }
        x = x + 1;
    }
    if nruns > 0 {
        push_number(out, y as u64);
        string_push(out, ':');
        string_push(out, ' ');
        push_text(out, line.as_str());
        string_push(out, '\n');
    }
    proof {
        assert(final(out)@ =~= old(out)@ + runs_line(v, y as int));
    }
}

/// The current canvas as text, so an agent can inspect what it drew:
/// plain glyphs, and with `colors` a per-row listing of color runs.
pub fn render(canvas: &Canvas, colors: bool) -> (s: String)
    requires
        canvas.wf(),
    ensures
        s@ == render_text(canvas@, colors),
{
    let ghost v = canvas@;
    let _h = canvas.height();
    let last = canvas.last_used_row();
    let mut out = String::new();
    let mut y: usize = 0;
    while y <= last
        invariant
            v == canvas@,
            canvas.wf(),
            last == last_used(v),
            last < v.len() == _h,
            y <= last + 1,
            out@ == text_rows(v, y as int),
        decreases last + 1 - y,
    {
        push_row_text(&mut out, canvas, y);
        string_push(&mut out, '\n');
        y = y + 1;
    }
    push_text(&mut out, "-- ");
    push_number(&mut out, WIDTH as u64);
    push_text(&mut out, "x");
    push_number(&mut out, (last + 1) as u64);
    push_text(&mut out, " used --\n");
    let ghost head = out@;
    if colors {
        push_text(&mut out, "color runs (row: x0-x1 fg/bg …):\n");
        let ghost mid = out@;
        let mut y: usize = 0;
        while y <= last
            invariant
                v == canvas@,
                canvas.wf(),
                last == last_used(v),
                last < v.len() == _h,
                y <= last + 1,
                out@ == mid + runs_lines(v, y as int),
            decreases last + 1 - y,
        {
            push_runs_line(&mut out, canvas, y);
            y = y + 1;
        }
    } else {
        assert(out@ =~= head + Seq::<char>::empty());
    }
    out
}

} // verus!
