//! The .ANS format: CP437 bytes plus ANSI/VT100 SGR and cursor escape
//! sequences, the format BBS ANSI art has always used. `save` turns a
//! canvas into the bytes of a file and `load` reads such bytes back into a
//! canvas.
use vstd::prelude::*;

use crate::canvas::{
    Canvas, Cell, WIDTH, MAX_ROWS, blank_rows, put, grid_wf, cell_at, last_used, row_used,
};
use crate::cp437::{byte_to_char, char_to_byte, glyph, encoded};
use crate::decimal::{is_digit, digits_value, decimal, push_decimal};
use crate::sauce::{Sauce, append, sauce_block};
use crate::date::is_date_text;
use vstd::utf8::encode_scalar;

verus! {

/// The loader's drawing state: cursor, saved cursor and current attributes.
#[derive(Clone, Copy)]
pub struct Pen {
    pub x: usize,
    pub y: usize,
    pub saved_x: usize,
    pub saved_y: usize,
    pub fg: u8,
    pub bg: u8,
    pub bold: bool,
}

/// The state a file starts in: top-left, light gray on black.
pub open spec fn start_pen() -> Pen {
    Pen { x: 0, y: 0, saved_x: 0, saved_y: 0, fg: 7, bg: 0, bold: false }
}

/// The cursor and the saved cursor lie on the canvas.
pub open spec fn pen_ok(p: Pen) -> bool {
    &&& p.x < WIDTH
    &&& p.y < MAX_ROWS
    &&& p.saved_x < WIDTH
    &&& p.saved_y < MAX_ROWS
}

/// The value of a CSI parameter: its digits as a number, or 0 when that
/// does not fit in 16 bits (or there are no digits).
pub open spec fn param_of(num: Seq<u8>) -> u16 {
    if digits_value(num) <= 65535 {
        digits_value(num) as u16
    } else {
        0
    }
}

/// Scan a control sequence whose parameters start at `j`. Digits build a
/// number, `;` ends a parameter, `?` and `=` are skipped, and any other byte
/// ends the sequence. Returns the index after the final byte and the final
/// byte with the parameters, or the end of the data and nothing when the
/// sequence is cut off.
pub open spec fn scan_csi(data: Seq<u8>, j: int, params: Seq<u16>, num: Seq<u8>) -> (int, Option<(u8, Seq<u16>)>)
    decreases data.len() - j,
{
    if j < 0 || j >= data.len() {
        (data.len() as int, None)
    } else {
        let c = data[j];
        if is_digit(c) {
            scan_csi(data, j + 1, params, num.push(c))
        } else if c == 0x3B {
            scan_csi(data, j + 1, params.push(param_of(num)), seq![])
        } else if c == 0x3F || c == 0x3D {
            scan_csi(data, j + 1, params, num)
        } else {
            let ps = if num.len() > 0 {
                params.push(param_of(num))
            } else {
                params
            };
            (j + 1, Some((c, ps)))
        }
    }
}

/// Scanning the parameters of a control sequence stays within the data
/// and moves forward unless at its end; an unfinished sequence runs to the
/// end.
pub proof fn lemma_scan_csi_bounds(data: Seq<u8>, j: int, params: Seq<u16>, num: Seq<u8>)
    requires
        0 <= j <= data.len(),
    ensures
        j <= scan_csi(data, j, params, num).0 <= data.len(),
        j < scan_csi(data, j, params, num).0 || j == data.len(),
        scan_csi(data, j, params, num).1 is None ==> scan_csi(data, j, params, num).0 == data.len(),
    decreases data.len() - j,
{
    if j < data.len() {
        let c = data[j];
        if is_digit(c) {
            lemma_scan_csi_bounds(data, j + 1, params, num.push(c));
        } else if c == 0x3B {
            lemma_scan_csi_bounds(data, j + 1, params.push(param_of(num)), seq![]);
        } else if c == 0x3F || c == 0x3D {
            lemma_scan_csi_bounds(data, j + 1, params, num);
        }
    }
}

/// Apply SGR parameters from index `k` on.
pub open spec fn sgr(ps: Seq<u16>, k: int, p: Pen) -> Pen
    decreases ps.len() - k,
{
    if k < 0 || k >= ps.len() {
        p
    } else {
        let v = ps[k];
        if v == 0 {
            sgr(ps, k + 1, Pen { fg: 7, bg: 0, bold: false, ..p })
        } else if v == 1 {
            sgr(ps, k + 1, Pen { bold: true, ..p })
        } else if v == 22 {
            sgr(ps, k + 1, Pen { bold: false, ..p })
        } else if 30 <= v <= 37 {
            sgr(ps, k + 1, Pen { fg: (v - 30) as u8, ..p })
        } else if v == 39 {
            sgr(ps, k + 1, Pen { fg: 7, ..p })
        } else if 40 <= v <= 47 {
            sgr(ps, k + 1, Pen { bg: (v - 40) as u8, ..p })
        } else if v == 49 {
            sgr(ps, k + 1, Pen { bg: 0, ..p })
        } else if (v == 38 || v == 48) && k + 1 < ps.len() && ps[k + 1] == 5 {
            // 256-color: 38;5;N / 48;5;N
            let q = if k + 2 < ps.len() {
                if v == 38 {
                    Pen { fg: #[verifier::truncate] (ps[k + 2] as u8), bold: false, ..p }
                } else {
                    Pen { bg: #[verifier::truncate] (ps[k + 2] as u8), ..p }
                }
            } else {
                p
            };
            sgr(ps, min_int(k + 3, ps.len() as int), q)
        } else if (v == 38 || v == 48) && k + 1 < ps.len() && ps[k + 1] == 2 {
            // true color: 38;2;r;g;b is skipped
            sgr(ps, min_int(k + 5, ps.len() as int), p)
        } else {
            sgr(ps, k + 1, p)
        }
    }
}

/// The count argument of a cursor movement: the first parameter, at least 1.
pub open spec fn count_param(ps: Seq<u16>) -> int {
    if ps.len() > 0 && ps[0] >= 1 {
        ps[0] as int
    } else {
        1
    }
}

/// The second parameter, at least 1 (the column of a positioning sequence).
pub open spec fn second_param(ps: Seq<u16>) -> int {
    if ps.len() > 1 && ps[1] >= 1 {
        ps[1] as int
    } else {
        1
    }
}

pub open spec fn min_int(a: int, b: int) -> int {
    if a <= b {
        a
    } else {
        b
    }
}

/// The effect of a complete control sequence with final byte `fin`.
pub open spec fn apply_csi(fin: u8, ps: Seq<u16>, p: Pen) -> Pen {
    let n = count_param(ps);
    if fin == 0x6D {
        // 'm'
        sgr(if ps.len() == 0 { seq![0u16] } else { ps }, 0, p)
    } else if fin == 0x43 {
        // 'C'
        Pen { x: min_int(p.x + n, WIDTH - 1) as usize, ..p }
    } else if fin == 0x44 {
        // 'D'
        Pen { x: (if p.x >= n { p.x - n } else { 0 }) as usize, ..p }
    } else if fin == 0x41 {
        // 'A'
        Pen { y: (if p.y >= n { p.y - n } else { 0 }) as usize, ..p }
    } else if fin == 0x42 {
        // 'B'
        Pen { y: min_int(p.y + n, MAX_ROWS - 1) as usize, ..p }
    } else if fin == 0x48 || fin == 0x66 {
        // 'H' / 'f'
        Pen {
            y: min_int(n - 1, MAX_ROWS - 1) as usize,
            x: min_int(second_param(ps) - 1, WIDTH - 1) as usize,
            ..p
        }
    } else if fin == 0x73 {
        // 's'
        Pen { saved_x: p.x, saved_y: p.y, ..p }
    } else if fin == 0x75 {
        // 'u'
        Pen { x: p.saved_x, y: p.saved_y, ..p }
    } else {
        p
    }
}

/// The cell a printable byte produces: bold brightens the classic colors 0-7.
pub open spec fn pen_cell(b: u8, p: Pen) -> Cell {
    Cell { ch: glyph(b), fg: if p.fg < 8 && p.bold { (p.fg + 8) as u8 } else { p.fg }, bg: p.bg }
}

/// The pen after a cell was written: one column on, wrapping to the next line.
pub open spec fn advanced(p: Pen) -> Pen {
    if p.x + 1 >= WIDTH {
        Pen { x: 0, y: min_int(p.y + 1, MAX_ROWS - 1) as usize, ..p }
    } else {
        Pen { x: (p.x + 1) as usize, ..p }
    }
}

/// Read the data from index `i` on, starting from pen `p` and grid `g`.
/// Returns the final pen and grid; reading stops at a SUB byte (0x1A).
pub open spec fn decode_from(data: Seq<u8>, i: int, p: Pen, g: Seq<Seq<Cell>>) -> (Pen, Seq<Seq<Cell>>)
    decreases data.len() - i,
{
    if i < 0 || i >= data.len() {
        (p, g)
    } else {
        let b = data[i];
        if b == 0x1A {
            (p, g)
        } else if b == 0x0D {
            decode_from(data, i + 1, Pen { x: 0, ..p }, g)
        } else if b == 0x0A {
            decode_from(data, i + 1, Pen { x: 0, y: min_int(p.y + 1, MAX_ROWS - 1) as usize, ..p }, g)
        } else if b == 0x1B && i + 1 < data.len() && data[i + 1] == 0x5B {
            let r = scan_csi(data, i + 2, seq![], seq![]);
            proof {
                lemma_scan_csi_bounds(data, i + 2, seq![], seq![]);
            }
            match r.1 {
                Some((fin, ps)) => decode_from(data, r.0, apply_csi(fin, ps, p), g),
                None => decode_from(data, r.0, p, g),
            }
        } else if b == 0x09 {
            let t = (p.x / 8 + 1) * 8;
            decode_from(data, i + 1, Pen { x: min_int(t, WIDTH - 1) as usize, ..p }, g)
        } else {
            decode_from(data, i + 1, advanced(p), put(g, p.x as int, p.y as int, pen_cell(b, p)))
        }
    }
}

/// The canvas that a file's bytes describe.
pub open spec fn decoded(data: Seq<u8>) -> Seq<Seq<Cell>> {
    decode_from(data, 0, start_pen(), blank_rows(25)).1
}

fn sgr_exec(ps: &Vec<u16>, pen: Pen) -> (r: Pen)
    requires
        pen_ok(pen),
    ensures
        r == sgr(ps@, 0, pen),
        pen_ok(r),
{
    let mut p = pen;
    let mut k: usize = 0;
    while k < ps.len()
        invariant
            pen_ok(p),
            sgr(ps@, k as int, p) == sgr(ps@, 0, pen),
        decreases ps.len() - k,
    {
        let v = ps[k];
        if v == 0 {
            p = Pen { fg: 7, bg: 0, bold: false, ..p };
            k = k + 1;
        } else if v == 1 {
            p = Pen { bold: true, ..p };
            k = k + 1;
        } else if v == 22 {
            p = Pen { bold: false, ..p };
            k = k + 1;
        } else if 30 <= v && v <= 37 {
            p = Pen { fg: (v - 30) as u8, ..p };
            k = k + 1;
        } else if v == 39 {
            p = Pen { fg: 7, ..p };
            k = k + 1;
        } else if 40 <= v && v <= 47 {
            p = Pen { bg: (v - 40) as u8, ..p };
            k = k + 1;
        } else if v == 49 {
            p = Pen { bg: 0, ..p };
            k = k + 1;
        } else if (v == 38 || v == 48) && k + 1 < ps.len() && ps[k + 1] == 5 {
            if k + 2 < ps.len() {
                if v == 38 {
                    p = Pen { fg: #[verifier::truncate] (ps[k + 2] as u8), bold: false, ..p };
                } else {
                    p = Pen { bg: #[verifier::truncate] (ps[k + 2] as u8), ..p };
                }
            }
            if ps.len() - k <= 3 {
                k = ps.len();
            } else {
                k = k + 3;
            }
        } else if (v == 38 || v == 48) && k + 1 < ps.len() && ps[k + 1] == 2 {
            if ps.len() - k <= 5 {
                k = ps.len();
            } else {
                k = k + 5;
            }
        } else {
            k = k + 1;
        }
    }
    p
}

fn first_count(ps: &Vec<u16>) -> (n: usize)
    ensures
        n == count_param(ps@),
        1 <= n <= 65535,
{
    if ps.len() > 0 && ps[0] >= 1 {
        ps[0] as usize
    } else {
        1
    }
}

fn apply_csi_exec(fin: u8, ps: &Vec<u16>, p: Pen) -> (r: Pen)
    requires
        pen_ok(p),
    ensures
        r == apply_csi(fin, ps@, p),
        pen_ok(r),
{
    let n = first_count(ps);
    if fin == 0x6D {
        if ps.len() == 0 {
            let mut z: Vec<u16> = Vec::new();
            z.push(0);
            assert(z@ =~= seq![0u16]);
            sgr_exec(&z, p)
        } else {
            sgr_exec(ps, p)
        }
    } else if fin == 0x43 {
        let x = if p.x + n < WIDTH - 1 { p.x + n } else { WIDTH - 1 };
        Pen { x: x, ..p }
    } else if fin == 0x44 {
        let x = if p.x >= n { p.x - n } else { 0 };
        Pen { x: x, ..p }
    } else if fin == 0x41 {
        let y = if p.y >= n { p.y - n } else { 0 };
        Pen { y: y, ..p }
    } else if fin == 0x42 {
        let y = if p.y + n < MAX_ROWS - 1 { p.y + n } else { MAX_ROWS - 1 };
        Pen { y: y, ..p }
    } else if fin == 0x48 || fin == 0x66 {
        let col: usize = if ps.len() > 1 && ps[1] >= 1 { ps[1] as usize } else { 1 };
        let y = if n - 1 < MAX_ROWS - 1 { n - 1 } else { MAX_ROWS - 1 };
        let x = if col - 1 < WIDTH - 1 { col - 1 } else { WIDTH - 1 };
        Pen { y: y, x: x, ..p }
    } else if fin == 0x73 {
        Pen { saved_x: p.x, saved_y: p.y, ..p }
    } else if fin == 0x75 {
        Pen { x: p.saved_x, y: p.saved_y, ..p }
    } else {
        p
    }
}

/// Scan the control sequence whose parameters start at `start`.
fn scan_csi_exec(data: &[u8], start: usize) -> (r: (usize, Option<(u8, Vec<u16>)>))
    requires
        start <= data@.len(),
    ensures
        r.0 == scan_csi(data@, start as int, seq![], seq![]).0,
        match r.1 {
            Some((fin, ps)) => scan_csi(data@, start as int, seq![], seq![]).1 == Some((fin, ps@)),
            None => scan_csi(data@, start as int, seq![], seq![]).1 is None,
        },
{
    let mut params: Vec<u16> = Vec::new();
    // the digits read so far, capped at 65536 (= too large for a parameter)
    let mut val: u32 = 0;
    let mut has_digits = false;
    let ghost mut num: Seq<u8> = seq![];
    let mut j = start;
    while j < data.len()
        invariant
            start <= j <= data@.len(),
            has_digits == (num.len() > 0),
            val == (if digits_value(num) < 65536 { digits_value(num) } else { 65536 }),
            scan_csi(data@, j as int, params@, num) == scan_csi(data@, start as int, seq![], seq![]),
        decreases data@.len() - j,
    {
        let c = data[j];
        if 0x30 <= c && c <= 0x39 {
            proof {
                let n2 = num.push(c);
                assert(n2.drop_last() =~= num);
                num = n2;
            }
            let d = (c - 0x30) as u32;
            val = if val * 10 + d < 65536 { val * 10 + d } else { 65536 };
            has_digits = true;
        } else if c == 0x3B {
            let v: u16 = if val < 65536 { val as u16 } else { 0 };
            params.push(v);
            val = 0;
            has_digits = false;
            proof {
                num = seq![];
            }
        } else if c == 0x3F || c == 0x3D {
        } else {
            if has_digits {
                let v: u16 = if val < 65536 { val as u16 } else { 0 };
                params.push(v);
            }
            return (j + 1, Some((c, params)));
        }
        j = j + 1;
    }
    (j, None)
}

/// Read .ANS file bytes into a canvas. Reading stops at the SUB byte (0x1A)
/// that precedes a SAUCE record.
pub fn load(data: &[u8]) -> (c: Canvas)
    ensures
        c.wf(),
        c@ == decoded(data@),
{
    let mut canvas = Canvas::new(25);
    let mut pen = Pen { x: 0, y: 0, saved_x: 0, saved_y: 0, fg: 7, bg: 0, bold: false };
    let mut i: usize = 0;
    while i < data.len()
        invariant
            canvas.wf(),
            pen_ok(pen),
            i <= data@.len(),
            decode_from(data@, i as int, pen, canvas@) == decode_from(
                data@,
                0,
                start_pen(),
                blank_rows(25),
            ),
        ensures
            canvas.wf(),
            decode_from(data@, i as int, pen, canvas@) == (pen, canvas@),
        decreases data@.len() - i,
    {
        let b = data[i];
        if b == 0x1A {
            break;
        } else if b == 0x0D {
            pen = Pen { x: 0, ..pen };
            i = i + 1;
        } else if b == 0x0A {
            let y = if pen.y + 1 < MAX_ROWS - 1 { pen.y + 1 } else { MAX_ROWS - 1 };
            pen = Pen { x: 0, y: y, ..pen };
            i = i + 1;
        } else if b == 0x1B && i + 1 < data.len() && data[i + 1] == 0x5B {
            proof {
                lemma_scan_csi_bounds(data@, i + 2, seq![], seq![]);
            }
            let (j, fin) = scan_csi_exec(data, i + 2);
            match fin {
                Some((c, ps)) => {
                    pen = apply_csi_exec(c, &ps, pen);
                },
                None => {},
            }
            i = j;
        } else if b == 0x09 {
            let t = (pen.x / 8 + 1) * 8;
            let x = if t < WIDTH - 1 { t } else { WIDTH - 1 };
            pen = Pen { x: x, ..pen };
            i = i + 1;
        } else {
            let ch = byte_to_char(b);
            let fg = if pen.fg < 8 && pen.bold { pen.fg + 8 } else { pen.fg };
            canvas.set(pen.x, pen.y, Cell { ch: ch, fg: fg, bg: pen.bg });
            if pen.x + 1 >= WIDTH {
                let y = if pen.y + 1 < MAX_ROWS - 1 { pen.y + 1 } else { MAX_ROWS - 1 };
                pen = Pen { x: 0, y: y, ..pen };
            } else {
                pen = Pen { x: pen.x + 1, ..pen };
            }
            i = i + 1;
        }
    }
    canvas
}


/// `ESC [ 0 m`: reset all attributes.
pub open spec fn reset_text() -> Seq<u8> {
    seq![0x1Bu8, 0x5B, 0x30, 0x6D]
}

/// The SGR sequence selecting colors `fg` on `bg`: the classic 16-color
/// form (bold for bright foregrounds) when it can express them, else the
/// xterm-256 form.
pub open spec fn sgr_text(fg: u8, bg: u8) -> Seq<u8> {
    if fg < 16 && bg < 8 {
        seq![0x1Bu8, 0x5B, 0x30] + (if fg >= 8 {
            seq![0x3Bu8, 0x31]
        } else {
            seq![]
        }) + seq![0x3Bu8] + decimal((30 + fg % 8) as nat) + seq![0x3Bu8] + decimal((40 + bg) as nat)
            + seq![0x6Du8]
    } else {
        seq![0x1Bu8, 0x5B, 0x30, 0x3B, 0x33, 0x38, 0x3B, 0x35, 0x3B] + decimal(fg as nat) + seq![
            0x3Bu8,
            0x34,
            0x38,
            0x3B,
            0x35,
            0x3B,
        ] + decimal(bg as nat) + seq![0x6Du8]
    }
}

/// The bytes for one glyph: UTF-8, or the CP437 byte.
pub open spec fn char_text(c: char, utf8: bool) -> Seq<u8> {
    if utf8 {
        encode_scalar(c as u32)
    } else {
        seq![encoded(c)]
    }
}

/// Cells `x..end` of a row, each preceded by an SGR sequence whenever its
/// colors differ from the colors `cur` last selected.
pub open spec fn row_text(r: Seq<Cell>, x: int, end: int, cur: Option<(u8, u8)>, utf8: bool) -> Seq<u8>
    decreases end - x,
{
    if x >= end || x < 0 {
        seq![]
    } else {
        let c = r[x];
        let attr = if cur != Some((c.fg, c.bg)) {
            sgr_text(c.fg, c.bg)
        } else {
            seq![]
        };
        attr + char_text(c.ch, utf8) + row_text(r, x + 1, end, Some((c.fg, c.bg)), utf8)
    }
}

/// The number of leading cells of the first `n` that contain every
/// non-blank one among them.
pub open spec fn row_end_below(r: Seq<Cell>, n: int) -> int
    decreases n,
{
    if n <= 0 {
        0
    } else if !r[n - 1].blank() {
        n
    } else {
        row_end_below(r, n - 1)
    }
}

/// The written width of a row: one past its last non-blank cell, or 0.
pub open spec fn row_end(r: Seq<Cell>) -> int {
    row_end_below(r, r.len() as int)
}

/// The end of a row's used part is within the row, every cell after it
/// is blank, and the cell before it is not.
pub proof fn lemma_row_end_below(r: Seq<Cell>, n: int)
    requires
        0 <= n <= r.len(),
    ensures
        0 <= row_end_below(r, n) <= n,
        forall|i: int| row_end_below(r, n) <= i < n ==> (#[trigger] r[i]).blank(),
        row_end_below(r, n) == 0 || !r[row_end_below(r, n) - 1].blank(),
    decreases n,
{
    if n > 0 {
        lemma_row_end_below(r, n - 1);
    }
}

/// The line that ends every row: reset, carriage return, line feed.
pub open spec fn line_end_text() -> Seq<u8> {
    seq![0x1Bu8, 0x5B, 0x30, 0x6D, 0x0D, 0x0A]
}

/// The text of the first `n` rows.
pub open spec fn rows_text(v: Seq<Seq<Cell>>, n: int, utf8: bool) -> Seq<u8>
    decreases n,
{
    if n <= 0 {
        seq![]
    } else {
        rows_text(v, n - 1, utf8) + row_text(v[n - 1], 0, row_end(v[n - 1]), None, utf8)
            + line_end_text()
    }
}

/// The art part of a .ANS file: a reset, then each row up to the last used
/// one, written up to its last non-blank cell.
pub open spec fn body_text(v: Seq<Seq<Cell>>, utf8: bool) -> Seq<u8> {
    reset_text() + rows_text(v, last_used(v) + 1, utf8)
}

fn push_sgr(out: &mut Vec<u8>, fg: u8, bg: u8)
    ensures
        final(out)@ == old(out)@ + sgr_text(fg, bg),
{
    let ghost start = out@;
    if fg < 16 && bg < 8 {
        out.push(0x1B);
        out.push(0x5B);
        out.push(0x30);
        if fg >= 8 {
            out.push(0x3B);
            out.push(0x31);
        }
        out.push(0x3B);
        push_decimal(out, (30 + fg % 8) as u64);
        out.push(0x3B);
        push_decimal(out, (40 + bg) as u64);
        out.push(0x6D);
    } else {
        out.push(0x1B);
        out.push(0x5B);
        out.push(0x30);
        out.push(0x3B);
        out.push(0x33);
        out.push(0x38);
        out.push(0x3B);
        out.push(0x35);
        out.push(0x3B);
        push_decimal(out, fg as u64);
        out.push(0x3B);
        out.push(0x34);
        out.push(0x38);
        out.push(0x3B);
        out.push(0x35);
        out.push(0x3B);
        push_decimal(out, bg as u64);
        out.push(0x6D);
    }
    assert(out@ =~= start + sgr_text(fg, bg));
}

fn push_char(out: &mut Vec<u8>, c: char, utf8: bool)
    ensures
        final(out)@ == old(out)@ + char_text(c, utf8),
{
    let ghost start = out@;
    if utf8 {
        let v = c as u32;
        if v <= 0x7F {
            out.push((v & 0x7F) as u8);
        } else if v <= 0x7FF {
            out.push(0xC0 | ((v >> 6) & 0x1F) as u8);
            out.push(0x80 | (v & 0x3F) as u8);
        } else if v <= 0xFFFF {
            out.push(0xE0 | ((v >> 12) & 0x0F) as u8);
            out.push(0x80 | ((v >> 6) & 0x3F) as u8);
            out.push(0x80 | (v & 0x3F) as u8);
        } else {
            out.push(0xF0 | ((v >> 18) & 0x07) as u8);
            out.push(0x80 | ((v >> 12) & 0x3F) as u8);
            out.push(0x80 | ((v >> 6) & 0x3F) as u8);
            out.push(0x80 | (v & 0x3F) as u8);
        }
    } else {
        out.push(char_to_byte(c));
    }
    assert(out@ =~= start + char_text(c, utf8));
}

fn push_row(out: &mut Vec<u8>, canvas: &Canvas, y: usize, end: usize, utf8: bool)
    requires
        canvas.wf(),
        y < canvas@.len(),
        end <= WIDTH,
    ensures
        final(out)@ == old(out)@ + row_text(canvas@[y as int], 0, end as int, None, utf8),
{
    let ghost row = canvas@[y as int];
    let ghost start = old(out)@;
    let mut cur: Option<(u8, u8)> = None;
    let mut x: usize = 0;
    while x < end
        invariant
            canvas.wf(),
            y < canvas@.len(),
            row == canvas@[y as int],
            x <= end <= WIDTH,
            start + row_text(row, 0, end as int, None, utf8) == out@ + row_text(
                row,
                x as int,
                end as int,
                cur,
                utf8,
            ),
        decreases end - x,
    {
        let c = canvas.get(x, y);
        assert(c == row[x as int]);
        let ghost before = out@;
        let ghost old_cur = cur;
        let same = match cur {
            Some((f, b)) => f == c.fg && b == c.bg,
            None => false,
        };
        if !same {
            push_sgr(out, c.fg, c.bg);
        }
        push_char(out, c.ch, utf8);
        cur = Some((c.fg, c.bg));
        x = x + 1;
        proof {
            let attr = if !same { sgr_text(c.fg, c.bg) } else { seq![] };
            assert(out@ =~= before + attr + char_text(c.ch, utf8));
            assert(row_text(row, (x - 1) as int, end as int, old_cur, utf8) == attr + char_text(
                c.ch,
                utf8,
            ) + row_text(row, x as int, end as int, cur, utf8));
            assert(before + row_text(row, (x - 1) as int, end as int, old_cur, utf8) =~= out@
                + row_text(row, x as int, end as int, cur, utf8));
        }
    }
    assert(row_text(row, x as int, end as int, cur, utf8) =~= Seq::<u8>::empty());
}

fn push_line_end(out: &mut Vec<u8>)
    ensures
        final(out)@ == old(out)@ + line_end_text(),
{
    let ghost start = out@;
    out.push(0x1B);
    out.push(0x5B);
    out.push(0x30);
    out.push(0x6D);
    out.push(0x0D);
    out.push(0x0A);
    assert(out@ =~= start + line_end_text());
}

/// The art part of the file (everything before any SAUCE record).
pub fn encode_body(canvas: &Canvas, utf8: bool) -> (out: Vec<u8>)
    requires
        canvas.wf(),
    ensures
        out@ == body_text(canvas@, utf8),
{
    let mut out: Vec<u8> = Vec::new();
    out.push(0x1B);
    out.push(0x5B);
    out.push(0x30);
    out.push(0x6D);
    assert(out@ =~= reset_text() + rows_text(canvas@, 0, utf8));
    let h = canvas.height();
    let last = canvas.last_used_row();
    let n = last + 1;
    let mut y: usize = 0;
    while y < n
        invariant
            canvas.wf(),
            n <= h == canvas@.len(),
            n == last_used(canvas@) + 1,
            y <= n,
            out@ == reset_text() + rows_text(canvas@, y as int, utf8),
        decreases n - y,
    {
        let end = match canvas.line_bounds(y) {
            Some((_, right)) => right + 1,
            None => 0,
        };
        proof {
            lemma_row_end_below(canvas@[y as int], WIDTH as int);
        }
        assert(end == row_end(canvas@[y as int]));
        let ghost before = out@;
        push_row(&mut out, canvas, y, end, utf8);
        push_line_end(&mut out);
        y = y + 1;
        assert(out@ =~= reset_text() + rows_text(canvas@, y as int, utf8));
    }
    out
}

/// What `save_with` writes: the art, then, with `meta`, the SAUCE block
/// for an 80-column image of the used rows, dated `date`.
pub open spec fn saved_text(v: Seq<Seq<Cell>>, meta: Option<crate::sauce::SauceText>, utf8: bool, date: Seq<char>) -> Seq<u8> {
    let body = body_text(v, utf8);
    match meta {
        None => body,
        Some(s) => body + sauce_block(
            s,
            #[verifier::truncate] (body.len() as u32),
            WIDTH as u16,
            #[verifier::truncate] ((last_used(v) + 1) as u16),
            date,
        ),
    }
}

pub open spec fn sauce_text_of(meta: Option<&Sauce>) -> Option<crate::sauce::SauceText> {
    match meta {
        Some(s) => Some(s@),
        None => None,
    }
}

/// The bytes of the .ANS file for the canvas, with a SAUCE record dated
/// today when `meta` is given. With `utf8`, glyphs are written as UTF-8
/// instead of CP437 bytes: the same escape codes, but modern terminals
/// (`cat`) render it directly. Classic CP437 is the authentic format scene
/// viewers expect.
pub fn save_with(canvas: &Canvas, meta: Option<&Sauce>, utf8: bool) -> (out: Vec<u8>)
    requires
        canvas.wf(),
    ensures
        exists|date: Seq<char>|
            (meta is None || is_date_text(date)) && out@ == #[trigger] saved_text(
                canvas@,
                sauce_text_of(meta),
                utf8,
                date,
            ),
{
    let mut out = encode_body(canvas, utf8);
    let ghost body = out@;
    match meta {
        Some(s) => {
            let _n = canvas.height();
            let lines = #[verifier::truncate] ((canvas.last_used_row() + 1) as u16);
            append(&mut out, s, WIDTH as u16, lines);
            proof {
                let d = choose|d: Seq<char>|
                    is_date_text(d) && out@ == body + #[trigger] sauce_block(
                        s@,
                        #[verifier::truncate] (body.len() as u32),
                        WIDTH as u16,
                        lines,
                        d,
                    );
                assert(out@ == saved_text(canvas@, sauce_text_of(meta), utf8, d));
            }
        },
        None => {
            assert(out@ == saved_text(canvas@, None, utf8, seq![]));
        },
    }
    out
}

/// The bytes of the .ANS file for the canvas in CP437, with a SAUCE record
/// dated today when `meta` is given.
pub fn save(canvas: &Canvas, meta: Option<&Sauce>) -> (out: Vec<u8>)
    requires
        canvas.wf(),
    ensures
        exists|date: Seq<char>|
            (meta is None || is_date_text(date)) && out@ == #[trigger] saved_text(
                canvas@,
                sauce_text_of(meta),
                false,
                date,
            ),
{
    save_with(canvas, meta, false)
}

} // verus!
