//! Reading back what `ansi::encode_body` wrote: the loader reproduces every
//! written cell of the canvas, and leaves everything else empty.
use vstd::prelude::*;

use crate::ansi::{
    apply_csi, decode_from, param_of, scan_csi, sgr, sgr_text, Pen, pen_ok, start_pen,
    pen_cell, advanced, min_int, row_text, char_text, line_end_text, reset_text, rows_text,
    body_text, row_end, lemma_row_end_below, decoded, saved_text, count_param,
};
use crate::sauce::{SauceText, parsed_sauce, stored_sauce, lemma_parse_appended};
use crate::canvas::{
    Cell, WIDTH, MAX_ROWS, blank_cell, blank_rows, blank_row, cell_at, grid_wf, put, lemma_put,
    last_used, lemma_last_used_below, row_used,
};
use crate::cp437::{encodable, encoded, glyph, lemma_char_roundtrip};
use crate::decimal::{all_digits, decimal, digits_value, is_digit, lemma_decimal_value};

verus! {

/// `s` occurs in `data` at index `i`.
pub open spec fn matches_at(data: Seq<u8>, i: int, s: Seq<u8>) -> bool {
    &&& 0 <= i
    &&& i + s.len() <= data.len()
    &&& forall|t: int| 0 <= t < s.len() ==> data[i + t] == #[trigger] s[t]
}

proof fn lemma_matches_split(data: Seq<u8>, i: int, a: Seq<u8>, b: Seq<u8>)
    requires
        matches_at(data, i, a + b),
    ensures
        matches_at(data, i, a),
        matches_at(data, i + a.len(), b),
{
    assert forall|t: int| 0 <= t < a.len() implies data[i + t] == #[trigger] a[t] by {
        assert((a + b)[t] == a[t]);
    }
    assert forall|t: int| 0 <= t < b.len() implies data[i + a.len() + t] == #[trigger] b[t] by {
        assert((a + b)[a.len() + t] == b[t]);
    }
}

proof fn lemma_scan_digits(data: Seq<u8>, j: int, k: int, ps: Seq<u16>, num: Seq<u8>)
    requires
        0 <= j,
        0 <= k,
        j + k <= data.len(),
        forall|t: int| 0 <= t < k ==> is_digit(#[trigger] data[j + t]),
    ensures
        scan_csi(data, j, ps, num) == scan_csi(data, j + k, ps, num + data.subrange(j, j + k)),
    decreases k,
{
    if k > 0 {
        assert(is_digit(data[j + 0]));
        assert forall|t: int| 0 <= t < k - 1 implies is_digit(#[trigger] data[j + 1 + t]) by {
            assert(is_digit(data[j + (t + 1)]));
        }
        lemma_scan_digits(data, j + 1, k - 1, ps, num.push(data[j]));
        assert(num.push(data[j]) + data.subrange(j + 1, j + k) =~= num + data.subrange(j, j + k));
    } else {
        assert(num + data.subrange(j, j) =~= num);
    }
}

/// A decimal parameter followed by `;`.
proof fn lemma_scan_param(data: Seq<u8>, j: int, ps: Seq<u16>, n: nat)
    requires
        n <= 65535,
        matches_at(data, j, decimal(n) + seq![0x3Bu8]),
    ensures
        scan_csi(data, j, ps, seq![]) == scan_csi(
            data,
            j + decimal(n).len() + 1,
            ps.push(n as u16),
            seq![],
        ),
{
    let d = decimal(n);
    lemma_decimal_value(n);
    lemma_matches_split(data, j, d, seq![0x3Bu8]);
    assert forall|t: int| 0 <= t < d.len() implies is_digit(#[trigger] data[j + t]) by {
        assert(data[j + t] == d[t]);
    }
    lemma_scan_digits(data, j, d.len() as int, ps, seq![]);
    assert(data.subrange(j, j + d.len()) =~= d);
    assert(Seq::<u8>::empty() + d =~= d);
    let semi = seq![0x3Bu8];
    assert(semi[0] == 0x3B);
    assert(data[j + d.len() + 0] == 0x3B);
}

/// A decimal parameter followed by the final byte `fin`.
proof fn lemma_scan_last(data: Seq<u8>, j: int, ps: Seq<u16>, n: nat, fin: u8)
    requires
        n <= 65535,
        !is_digit(fin),
        fin != 0x3B && fin != 0x3F && fin != 0x3D,
        matches_at(data, j, decimal(n) + seq![fin]),
    ensures
        scan_csi(data, j, ps, seq![]) == (j + decimal(n).len() + 1, Some((fin, ps.push(n as u16)))),
{
    let d = decimal(n);
    lemma_decimal_value(n);
    lemma_matches_split(data, j, d, seq![fin]);
    assert forall|t: int| 0 <= t < d.len() implies is_digit(#[trigger] data[j + t]) by {
        assert(data[j + t] == d[t]);
    }
    lemma_scan_digits(data, j, d.len() as int, ps, seq![]);
    assert(data.subrange(j, j + d.len()) =~= d);
    assert(Seq::<u8>::empty() + d =~= d);
    let last = seq![fin];
    assert(last[0] == fin);
    assert(data[j + d.len() + 0] == fin);
}

/// The pen after an SGR sequence for colors `f` on `b`.
pub open spec fn sgr_pen(p: Pen, f: u8, b: u8) -> Pen {
    if f < 16 && b < 8 {
        Pen { fg: f % 8, bg: b, bold: f >= 8, ..p }
    } else {
        Pen { fg: f, bg: b, bold: false, ..p }
    }
}

/// The colors a pen writes with.
pub open spec fn pen_colors(p: Pen) -> (u8, u8) {
    (if p.fg < 8 && p.bold { (p.fg + 8) as u8 } else { p.fg }, p.bg)
}

proof fn lemma_sgr_pen_colors(p: Pen, f: u8, b: u8)
    ensures
        pen_colors(sgr_pen(p, f, b)) == (f, b),
{
}

proof fn lemma_read_sgr_classic(data: Seq<u8>, i: int, p: Pen, g: Seq<Seq<Cell>>, f: u8, b: u8)
    requires
        f < 16 && b < 8,
        matches_at(data, i, sgr_text(f, b)),
        pen_ok(p),
    ensures
        decode_from(data, i, p, g) == decode_from(data, i + sgr_text(f, b).len(), sgr_pen(p, f, b), g),
{
    let s = sgr_text(f, b);
    assert(data[i + 0] == s[0]);
    assert(data[i + 1] == s[1]);
        let head = seq![0x1Bu8, 0x5B, 0x30] + (if f >= 8 {
            seq![0x3Bu8, 0x31]
        } else {
            seq![]
        }) + seq![0x3Bu8];
        let d1 = decimal((30 + f % 8) as nat);
        let d2 = decimal((40 + b) as nat);
        assert(s =~= head + (d1 + seq![0x3Bu8]) + (d2 + seq![0x6Du8]));
        lemma_matches_split(data, i, head + (d1 + seq![0x3Bu8]), d2 + seq![0x6Du8]);
        lemma_matches_split(data, i, head, d1 + seq![0x3Bu8]);
        let j1 = i + head.len();
        let j2 = j1 + d1.len() + 1;
        // "0;" (and "1;")
        assert(decimal(0) =~= seq![0x30u8]);
        assert(decimal(1) =~= seq![0x31u8]);
        let ps0: Seq<u16> = seq![0u16];
        if f >= 8 {
            assert(head =~= seq![0x1Bu8, 0x5B] + (decimal(0) + seq![0x3Bu8]) + (decimal(1) + seq![
                0x3Bu8,
            ]));
            lemma_matches_split(data, i, seq![0x1Bu8, 0x5B] + (decimal(0) + seq![0x3Bu8]), decimal(1) + seq![0x3Bu8]);
            lemma_matches_split(data, i, seq![0x1Bu8, 0x5B], decimal(0) + seq![0x3Bu8]);
            lemma_scan_param(data, i + 2, seq![], 0);
            lemma_scan_param(data, i + 4, ps0, 1);
            let ps1: Seq<u16> = seq![0u16, 1];
            assert(ps0.push(1u16) =~= ps1);
            lemma_scan_param(data, j1, ps1, (30 + f % 8) as nat);
            lemma_scan_last(data, j2, ps1.push((30 + f % 8) as u16), (40 + b) as nat, 0x6D);
            let ps = ps1.push((30 + f % 8) as u16).push((40 + b) as u16);
            assert(scan_csi(data, i + 2, seq![], seq![]) == (i + s.len(), Some((0x6Du8, ps))));
            let p1 = Pen { fg: 7, bg: 0, bold: false, ..p };
            let p2 = Pen { bold: true, ..p1 };
            let p3 = Pen { fg: (f % 8) as u8, ..p2 };
            let p4 = Pen { bg: b, ..p3 };
            assert(sgr(ps, 4, p4) == p4);
            assert(sgr(ps, 3, p3) == p4);
            assert(sgr(ps, 2, p2) == p4);
            assert(sgr(ps, 1, p1) == p4);
            assert(sgr(ps, 0, p) == sgr_pen(p, f, b));
        } else {
            assert(head =~= seq![0x1Bu8, 0x5B] + (decimal(0) + seq![0x3Bu8]));
            lemma_matches_split(data, i, seq![0x1Bu8, 0x5B], decimal(0) + seq![0x3Bu8]);
            lemma_scan_param(data, i + 2, seq![], 0);
            lemma_scan_param(data, j1, ps0, (30 + f % 8) as nat);
            lemma_scan_last(data, j2, ps0.push((30 + f % 8) as u16), (40 + b) as nat, 0x6D);
            let ps = ps0.push((30 + f % 8) as u16).push((40 + b) as u16);
            assert(scan_csi(data, i + 2, seq![], seq![]) == (i + s.len(), Some((0x6Du8, ps))));
            let p1 = Pen { fg: 7, bg: 0, bold: false, ..p };
            let p3 = Pen { fg: (f % 8) as u8, ..p1 };
            let p4 = Pen { bg: b, ..p3 };
            assert(sgr(ps, 3, p4) == p4);
            assert(sgr(ps, 2, p3) == p4);
            assert(sgr(ps, 1, p1) == p4);
            assert(sgr(ps, 0, p) == sgr_pen(p, f, b));
        }
}

proof fn lemma_read_sgr_256(data: Seq<u8>, i: int, p: Pen, g: Seq<Seq<Cell>>, f: u8, b: u8)
    requires
        !(f < 16 && b < 8),
        matches_at(data, i, sgr_text(f, b)),
        pen_ok(p),
    ensures
        decode_from(data, i, p, g) == decode_from(data, i + sgr_text(f, b).len(), sgr_pen(p, f, b), g),
{
    let s = sgr_text(f, b);
    assert(data[i + 0] == s[0]);
    assert(data[i + 1] == s[1]);
        let head = seq![0x1Bu8, 0x5B, 0x30, 0x3B, 0x33, 0x38, 0x3B, 0x35, 0x3B];
        let mid = seq![0x3Bu8, 0x34, 0x38, 0x3B, 0x35, 0x3B];
        let d1 = decimal(f as nat);
        let d2 = decimal(b as nat);
        assert(decimal(0) =~= seq![0x30u8]);
        assert(decimal(5) =~= seq![0x35u8]);
        assert(decimal(3) =~= seq![0x33u8]);
        assert(decimal(4) =~= seq![0x34u8]);
        assert(decimal(38) =~= seq![0x33u8, 0x38]);
        assert(decimal(48) =~= seq![0x34u8, 0x38]);
        let a0 = decimal(0) + seq![0x3Bu8];
        let a1 = decimal(38) + seq![0x3Bu8];
        let a2 = decimal(5) + seq![0x3Bu8];
        let a3 = d1 + seq![0x3Bu8];
        let a4 = decimal(48) + seq![0x3Bu8];
        let a5 = decimal(5) + seq![0x3Bu8];
        let a6 = d2 + seq![0x6Du8];
        let e = seq![0x1Bu8, 0x5B];
        assert(s =~= e + a0 + a1 + a2 + a3 + a4 + a5 + a6);
        lemma_matches_split(data, i, e + a0 + a1 + a2 + a3 + a4 + a5, a6);
        lemma_matches_split(data, i, e + a0 + a1 + a2 + a3 + a4, a5);
        lemma_matches_split(data, i, e + a0 + a1 + a2 + a3, a4);
        lemma_matches_split(data, i, e + a0 + a1 + a2, a3);
        lemma_matches_split(data, i, e + a0 + a1, a2);
        lemma_matches_split(data, i, e + a0, a1);
        lemma_matches_split(data, i, e, a0);
        let k0 = i + 2;
        let k1 = k0 + 2;
        let k2 = k1 + 3;
        let k3 = k2 + 2;
        let k4 = k3 + d1.len() + 1;
        let k5 = k4 + 3;
        let k6 = k5 + 2;
        lemma_scan_param(data, k0, seq![], 0);
        let q0: Seq<u16> = seq![0u16];
        lemma_scan_param(data, k1, q0, 38);
        lemma_scan_param(data, k2, q0.push(38u16), 5);
        lemma_scan_param(data, k3, q0.push(38u16).push(5u16), f as nat);
        lemma_scan_param(data, k4, q0.push(38u16).push(5u16).push(f as u16), 48);
        lemma_scan_param(data, k5, q0.push(38u16).push(5u16).push(f as u16).push(48u16), 5);
        lemma_scan_last(
            data,
            k6,
            q0.push(38u16).push(5u16).push(f as u16).push(48u16).push(5u16),
            b as nat,
            0x6D,
        );
        let ps = q0.push(38u16).push(5u16).push(f as u16).push(48u16).push(5u16).push(b as u16);
        assert(scan_csi(data, i + 2, seq![], seq![]) == (i + s.len(), Some((0x6Du8, ps))));
        let p1 = Pen { fg: 7, bg: 0, bold: false, ..p };
        let p2 = Pen { fg: f, bold: false, ..p1 };
        let p3 = Pen { bg: b, ..p2 };
        assert(sgr(ps, 7, p3) == p3);
        assert(sgr(ps, 4, p2) == p3);
        assert(ps[3] == f as u16);
        assert((f as u16) as u8 == f);
        assert(ps[6] == b as u16);
        assert((b as u16) as u8 == b);
        assert(ps[1] == 38u16);
        assert(ps[2] == 5u16);
        assert(ps.len() == 7);
        assert(min_int(4, 7) == 4);
        assert(sgr(ps, 1, p1) == sgr(ps, 4, p2));
        assert(sgr(ps, 1, p1) == p3);
        assert(sgr(ps, 0, p) == sgr_pen(p, f, b));
}

/// Reading the SGR sequence for `f` on `b` selects exactly those colors.
pub proof fn lemma_read_sgr(data: Seq<u8>, i: int, p: Pen, g: Seq<Seq<Cell>>, f: u8, b: u8)
    requires
        matches_at(data, i, sgr_text(f, b)),
        pen_ok(p),
    ensures
        decode_from(data, i, p, g) == decode_from(data, i + sgr_text(f, b).len(), sgr_pen(p, f, b), g),
{
    if f < 16 && b < 8 {
        lemma_read_sgr_classic(data, i, p, g, f, b);
    } else {
        lemma_read_sgr_256(data, i, p, g, f, b);
    }
}

/// Reading `ESC [ 0 m CR LF` resets the colors and moves to the start of
/// the next line.
pub proof fn lemma_read_line_end(data: Seq<u8>, i: int, p: Pen, g: Seq<Seq<Cell>>)
    requires
        matches_at(data, i, line_end_text()),
        pen_ok(p),
    ensures
        decode_from(data, i, p, g) == decode_from(
            data,
            i + 6,
            Pen { x: 0, y: min_int(p.y + 1, MAX_ROWS - 1) as usize, fg: 7, bg: 0, bold: false, ..p },
            g,
        ),
{
    let s = line_end_text();
    assert(data[i + 0] == s[0]);
    assert(data[i + 1] == s[1]);
    assert(data[i + 4] == s[4]);
    assert(data[i + 5] == s[5]);
    assert(decimal(0) =~= seq![0x30u8]);
    assert(s =~= seq![0x1Bu8, 0x5B] + (decimal(0) + seq![0x6Du8]) + seq![0x0Du8, 0x0A]);
    lemma_matches_split(data, i, seq![0x1Bu8, 0x5B] + (decimal(0) + seq![0x6Du8]), seq![0x0Du8, 0x0A]);
    lemma_matches_split(data, i, seq![0x1Bu8, 0x5B], decimal(0) + seq![0x6Du8]);
    lemma_scan_last(data, i + 2, seq![], 0, 0x6D);
    let ps: Seq<u16> = seq![0u16];
    assert(Seq::<u16>::empty().push(0u16) =~= ps);
    let p1 = Pen { fg: 7, bg: 0, bold: false, ..p };
    assert(sgr(ps, 1, p1) == p1);
    assert(apply_csi(0x6D, ps, p) == p1);
    assert(decode_from(data, i, p, g) == decode_from(data, i + 4, p1, g));
    let p2 = Pen { x: 0, ..p1 };
    assert(decode_from(data, i + 4, p1, g) == decode_from(data, i + 5, p2, g));
    let p3 = Pen { x: 0, y: min_int(p2.y + 1, MAX_ROWS - 1) as usize, ..p2 };
    assert(decode_from(data, i + 5, p2, g) == decode_from(data, i + 6, p3, g));
}

/// Reading `ESC [ 0 m` from the start state keeps the start state.
pub proof fn lemma_read_reset(data: Seq<u8>, g: Seq<Seq<Cell>>)
    requires
        matches_at(data, 0, reset_text()),
    ensures
        decode_from(data, 0, start_pen(), g) == decode_from(data, 4, start_pen(), g),
{
    let s = reset_text();
    assert(data[0int + 0] == s[0]);
    assert(data[0int + 1] == s[1]);
    assert(decimal(0) =~= seq![0x30u8]);
    assert(s =~= seq![0x1Bu8, 0x5B] + (decimal(0) + seq![0x6Du8]));
    lemma_matches_split(data, 0, seq![0x1Bu8, 0x5B], decimal(0) + seq![0x6Du8]);
    lemma_scan_last(data, 2, seq![], 0, 0x6D);
    let ps: Seq<u16> = seq![0u16];
    assert(Seq::<u16>::empty().push(0u16) =~= ps);
    assert(sgr(ps, 1, start_pen()) == start_pen());
}

/// The bytes that the loader treats as controls rather than glyphs
/// (tab, line feed, carriage return, SUB).
pub open spec fn control_byte(b: u8) -> bool {
    b == 0x09 || b == 0x0A || b == 0x0D || b == 0x1A
}

/// Cell `x` of row `r` is written and read back as itself: its glyph has a
/// CP437 byte that is no control byte, and an ESC glyph is not followed by
/// a `[` glyph in the same colors (which together would start an escape
/// sequence).
pub open spec fn cell_reads_back(r: Seq<Cell>, x: int, end: int) -> bool {
    let c = r[x];
    &&& encodable(c.ch)
    &&& !control_byte(encoded(c.ch))
    &&& (encoded(c.ch) == 0x1B && x + 1 < end) ==> !(r[x + 1].ch == '[' && r[x + 1].fg == c.fg
        && r[x + 1].bg == c.bg)
}

/// Row `y` of grid `g` after writing cells `x..end` of `r` into it.
pub open spec fn written(g: Seq<Seq<Cell>>, r: Seq<Cell>, y: int, x: int, end: int) -> Seq<Seq<Cell>>
    decreases end - x,
{
    if x >= end || x < 0 {
        g
    } else {
        written(put(g, x, y, r[x]), r, y, x + 1, end)
    }
}

/// The pen after reading the text of cells `x..end` of `r`.
pub open spec fn row_pen(p: Pen, r: Seq<Cell>, x: int, end: int, cur: Option<(u8, u8)>) -> Pen
    decreases end - x,
{
    if x >= end || x < 0 {
        p
    } else {
        let c = r[x];
        let p1 = if cur != Some((c.fg, c.bg)) {
            sgr_pen(p, c.fg, c.bg)
        } else {
            p
        };
        row_pen(advanced(p1), r, x + 1, end, Some((c.fg, c.bg)))
    }
}

proof fn lemma_row_pen(p: Pen, r: Seq<Cell>, x: int, end: int, cur: Option<(u8, u8)>)
    requires
        pen_ok(p),
        0 <= x <= end <= WIDTH,
        x < end ==> p.x == x,
    ensures
        pen_ok(row_pen(p, r, x, end, cur)),
        row_pen(p, r, x, end, cur).saved_x == p.saved_x,
        row_pen(p, r, x, end, cur).saved_y == p.saved_y,
        x < end && end < WIDTH ==> row_pen(p, r, x, end, cur).y == p.y,
        x < end && end == WIDTH ==> row_pen(p, r, x, end, cur).y == min_int(p.y + 1, MAX_ROWS - 1),
        x == end ==> row_pen(p, r, x, end, cur) == p,
    decreases end - x,
{
    if x < end {
        let c = r[x];
        let p1 = if cur != Some((c.fg, c.bg)) {
            sgr_pen(p, c.fg, c.bg)
        } else {
            p
        };
        lemma_row_pen(advanced(p1), r, x + 1, end, Some((c.fg, c.bg)));
    }
}

/// Reading the text of cells `x..end` of a row writes exactly those cells.
pub proof fn lemma_read_row(
    data: Seq<u8>,
    i: int,
    r: Seq<Cell>,
    y: int,
    x: int,
    end: int,
    cur: Option<(u8, u8)>,
    p: Pen,
    g: Seq<Seq<Cell>>,
)
    requires
        r.len() == WIDTH,
        0 <= x <= end <= WIDTH,
        forall|k: int| x <= k < end ==> cell_reads_back(r, k, end),
        pen_ok(p),
        x < end ==> p.x == x && p.y == y,
        cur matches Some(cl) ==> pen_colors(p) == cl,
        matches_at(data, i, row_text(r, x, end, cur, false)),
        i + row_text(r, x, end, cur, false).len() < data.len(),
        data[i + row_text(r, x, end, cur, false).len()] == 0x1B,
    ensures
        decode_from(data, i, p, g) == decode_from(
            data,
            i + row_text(r, x, end, cur, false).len(),
            row_pen(p, r, x, end, cur),
            written(g, r, y, x, end),
        ),
    decreases end - x,
{
    if x < end {
        let c = r[x];
        let attr = if cur != Some((c.fg, c.bg)) {
            sgr_text(c.fg, c.bg)
        } else {
            seq![]
        };
        let rest = row_text(r, x + 1, end, Some((c.fg, c.bg)), false);
        let ct = char_text(c.ch, false);
        let text = row_text(r, x, end, cur, false);
        assert(text == attr + ct + rest);
        lemma_matches_split(data, i, attr + ct, rest);
        lemma_matches_split(data, i, attr, ct);
        let p1 = if cur != Some((c.fg, c.bg)) {
            sgr_pen(p, c.fg, c.bg)
        } else {
            p
        };
        if cur != Some((c.fg, c.bg)) {
            lemma_read_sgr(data, i, p, g, c.fg, c.bg);
            lemma_sgr_pen_colors(p, c.fg, c.bg);
        }
        assert(decode_from(data, i, p, g) == decode_from(data, i + attr.len(), p1, g));
        assert(pen_colors(p1) == (c.fg, c.bg));
        let j = i + attr.len();
        let b = encoded(c.ch);
        assert(cell_reads_back(r, x, end));
        lemma_char_roundtrip(c.ch);
        assert(ct[0] == b);
        assert(data[j + 0] == b);
        // the byte after the glyph never opens an escape sequence
        if b == 0x1B {
            if x + 1 < end {
                let n = r[x + 1];
                let rest_attr = if Some((c.fg, c.bg)) != Some((n.fg, n.bg)) {
                    sgr_text(n.fg, n.bg)
                } else {
                    seq![]
                };
                let rest_rest = row_text(r, x + 2, end, Some((n.fg, n.bg)), false);
                assert(rest == rest_attr + char_text(n.ch, false) + rest_rest);
                assert(cell_reads_back(r, x + 1, end));
                lemma_char_roundtrip(n.ch);
                if rest_attr.len() > 0 {
                    assert(rest[0] == 0x1B);
                } else {
                    assert(rest[0] == encoded(n.ch));
                    assert(n.ch != '[');
                    assert(glyph(0x5B) == '[');
                }
                assert(data[j + 1 + 0] == rest[0]);
                assert(data[j + 1] != 0x5B);
            } else {
                assert(rest =~= Seq::<u8>::empty());
                assert(data[j + 1] == 0x1B);
            }
        }
        assert(pen_cell(b, p1) == c);
        lemma_read_row(
            data,
            j + 1,
            r,
            y,
            x + 1,
            end,
            Some((c.fg, c.bg)),
            advanced(p1),
            put(g, x, y, c),
        );
    }
}

proof fn lemma_written(g: Seq<Seq<Cell>>, r: Seq<Cell>, y: int, x: int, end: int)
    requires
        grid_wf(g),
        0 <= y < MAX_ROWS,
        0 <= x <= end <= WIDTH,
        r.len() == WIDTH,
    ensures
        grid_wf(written(g, r, y, x, end)),
        forall|x2: int, y2: int| #[trigger]
            cell_at(written(g, r, y, x, end), x2, y2) == if y2 == y && x <= x2 < end {
                r[x2]
            } else {
                cell_at(g, x2, y2)
            },
    decreases end - x,
{
    if x < end {
        lemma_put(g, x, y, r[x]);
        lemma_written(put(g, x, y, r[x]), r, y, x + 1, end);
    }
}

/// The grid after reading rows `0..m` of a written canvas.
pub open spec fn rows_written(v: Seq<Seq<Cell>>, m: int) -> Seq<Seq<Cell>>
    decreases m,
{
    if m <= 0 {
        blank_rows(25)
    } else {
        written(rows_written(v, m - 1), v[m - 1], m - 1, 0, row_end(v[m - 1]))
    }
}

/// What reading back shows at (x, y): the cell itself where it was written,
/// the blank cell elsewhere.
pub open spec fn read_back_cell(v: Seq<Seq<Cell>>, m: int, x: int, y: int) -> Cell {
    if 0 <= y < m && 0 <= x < row_end(v[y]) {
        v[y][x]
    } else {
        blank_cell()
    }
}

proof fn lemma_rows_written(v: Seq<Seq<Cell>>, m: int)
    requires
        grid_wf(v),
        0 <= m <= v.len(),
        m <= MAX_ROWS,
    ensures
        grid_wf(rows_written(v, m)),
        forall|x: int, y: int| #[trigger]
            cell_at(rows_written(v, m), x, y) == read_back_cell(v, m, x, y),
    decreases m,
{
    if m == 0 {
        let b = blank_rows(25);
        assert forall|k: int| 0 <= k < b.len() implies (#[trigger] b[k]).len() == WIDTH by {
            assert(b[k] == blank_row());
        }
        assert forall|x: int, y: int| #[trigger] cell_at(b, x, y) == read_back_cell(v, m, x, y) by {
            if 0 <= y < b.len() && 0 <= x < b[y].len() {
                assert(b[y] == blank_row());
            }
        }
    } else {
        lemma_rows_written(v, m - 1);
        let r = v[m - 1];
        lemma_row_end_below(r, r.len() as int);
        lemma_written(rows_written(v, m - 1), r, m - 1, 0, row_end(r));
    }
}

/// Everything that `encode_body` writes reads back as itself: no glyph is a
/// control byte (and no ESC glyph runs into a `[` glyph of its colors), no
/// row but the last one reaches the last column (the cursor would wrap
/// into the next row), and the art fits in `MAX_ROWS` rows.
pub open spec fn roundtrip_ok(v: Seq<Seq<Cell>>) -> bool {
    &&& last_used(v) < MAX_ROWS
    &&& forall|y: int| 0 <= y < last_used(v) ==> row_end(#[trigger] v[y]) < WIDTH
    &&& forall|y: int, x: int|
        0 <= y <= last_used(v) && 0 <= x < row_end(v[y]) ==> #[trigger] cell_reads_back(
            v[y],
            x,
            row_end(v[y]),
        )
}

/// The pen at the start of row `m`.
pub open spec fn row_start_pen(m: int) -> Pen {
    Pen { y: m as usize, ..start_pen() }
}

proof fn lemma_rows_prefix(data: Seq<u8>, v: Seq<Seq<Cell>>, m: int, n: int)
    requires
        0 <= m <= n,
        matches_at(data, 0, reset_text() + rows_text(v, n, false)),
    ensures
        matches_at(data, 0, reset_text() + rows_text(v, m, false)),
    decreases n - m,
{
    if m < n {
        let tail = row_text(v[n - 1], 0, row_end(v[n - 1]), None, false) + line_end_text();
        assert(reset_text() + rows_text(v, n, false) =~= (reset_text() + rows_text(v, n - 1, false))
            + tail);
        lemma_matches_split(data, 0, reset_text() + rows_text(v, n - 1, false), tail);
        lemma_rows_prefix(data, v, m, n - 1);
    }
}

/// Reading the written rows `0..m` (all before the last used row).
proof fn lemma_read_rows(data: Seq<u8>, v: Seq<Seq<Cell>>, m: int)
    requires
        grid_wf(v),
        roundtrip_ok(v),
        0 <= m <= last_used(v),
        matches_at(data, 0, reset_text() + rows_text(v, last_used(v) + 1, false)),
    ensures
        decode_from(data, 0, start_pen(), blank_rows(25)) == decode_from(
            data,
            (reset_text() + rows_text(v, m, false)).len() as int,
            row_start_pen(m),
            rows_written(v, m),
        ),
    decreases m,
{
    lemma_last_used_below(v, v.len() as int);
    lemma_rows_prefix(data, v, m, last_used(v) + 1);
    if m == 0 {
        lemma_matches_split(data, 0, reset_text(), rows_text(v, 0, false));
        lemma_read_reset(data, blank_rows(25));
        assert(row_start_pen(0) == start_pen());
        assert(rows_text(v, 0, false) =~= Seq::<u8>::empty());
    } else {
        lemma_read_rows(data, v, m - 1);
        read_row_and_line_end(data, v, m - 1);
    }
}

/// One more row: reading row `k` and its line end from the start of row `k`.
proof fn read_row_and_line_end(data: Seq<u8>, v: Seq<Seq<Cell>>, k: int)
    requires
        grid_wf(v),
        roundtrip_ok(v),
        0 <= k <= last_used(v),
        matches_at(data, 0, reset_text() + rows_text(v, k + 1, false)),
    ensures
        ({
            let at = (reset_text() + rows_text(v, k, false)).len() as int;
            let next = (reset_text() + rows_text(v, k + 1, false)).len() as int;
            exists|q: Pen|
                #![trigger decode_from(data, next, q, rows_written(v, k + 1))]
                pen_ok(q) && (k < last_used(v) ==> q == row_start_pen(k + 1)) && decode_from(
                    data,
                    at,
                    row_start_pen(k),
                    rows_written(v, k),
                ) == decode_from(data, next, q, rows_written(v, k + 1))
        }),
{
    lemma_last_used_below(v, v.len() as int);
    let r = v[k];
    let end = row_end(r);
    lemma_row_end_below(r, r.len() as int);
    let at = (reset_text() + rows_text(v, k, false)).len() as int;
    let rt = row_text(r, 0, end, None, false);
    let le = line_end_text();
    assert(reset_text() + rows_text(v, k + 1, false) =~= (reset_text() + rows_text(v, k, false)) + (rt
        + le));
    lemma_matches_split(data, 0, reset_text() + rows_text(v, k, false), rt + le);
    lemma_matches_split(data, at, rt, le);
    assert(data[at + rt.len() + 0] == le[0]);
    let p0 = row_start_pen(k);
    assert forall|x: int| 0 <= x < end implies cell_reads_back(r, x, end) by {
    }
    lemma_read_row(data, at, r, k, 0, end, None, p0, rows_written(v, k));
    let p1 = row_pen(p0, r, 0, end, None);
    lemma_row_pen(p0, r, 0, end, None);
    lemma_read_line_end(data, at + rt.len(), p1, written(rows_written(v, k), r, k, 0, end));
    let q = Pen { x: 0, y: min_int(p1.y + 1, MAX_ROWS - 1) as usize, fg: 7, bg: 0, bold: false, ..p1 };
    assert(rows_written(v, k + 1) == written(rows_written(v, k), r, k, 0, end));
    assert((reset_text() + rows_text(v, k + 1, false)).len() == at + rt.len() + 6);
    if k < last_used(v) {
        assert(end < WIDTH);
        assert(q == row_start_pen(k + 1));
    }
    assert(pen_ok(q));
}

/// Reading the art that `encode_body` writes (in CP437) gives back every
/// written cell: each row up to its last non-blank cell, down to the last
/// used row. Every other cell reads as the blank cell, and is blank (if not
/// equal) in the original.
pub proof fn lemma_decode_encode(v: Seq<Seq<Cell>>)
    requires
        grid_wf(v),
        roundtrip_ok(v),
    ensures
        forall|x: int, y: int| #[trigger]
            cell_at(decoded(body_text(v, false)), x, y) == read_back_cell(v, last_used(v) + 1, x, y),
        forall|x: int, y: int|
            read_back_cell(v, last_used(v) + 1, x, y) != #[trigger] cell_at(v, x, y) ==> cell_at(
                v,
                x,
                y,
            ).blank() && read_back_cell(v, last_used(v) + 1, x, y) == blank_cell(),
{
    let data = body_text(v, false);
    let l = last_used(v);
    lemma_last_used_below(v, v.len() as int);
    assert forall|t: int| 0 <= t < data.len() implies data[0 + t] == #[trigger] data[t] by {
    }
    lemma_read_rows(data, v, l);
    lemma_rows_prefix(data, v, l + 1, l + 1);
    read_row_and_line_end(data, v, l);
    let next = (reset_text() + rows_text(v, l + 1, false)).len() as int;
    let q = choose|q: Pen|
        #![trigger decode_from(data, next, q, rows_written(v, l + 1))]
        pen_ok(q) && (l < last_used(v) ==> q == row_start_pen(l + 1)) && decode_from(
            data,
            (reset_text() + rows_text(v, l, false)).len() as int,
            row_start_pen(l),
            rows_written(v, l),
        ) == decode_from(data, next, q, rows_written(v, l + 1));
    assert(next == data.len());
    assert(decode_from(data, next, q, rows_written(v, l + 1)) == (q, rows_written(v, l + 1)));
    lemma_rows_written(v, l + 1);
    assert forall|x: int, y: int|
        read_back_cell(v, l + 1, x, y) != #[trigger] cell_at(v, x, y) implies cell_at(v, x, y).blank()
        && read_back_cell(v, l + 1, x, y) == blank_cell() by {
        if 0 <= y < v.len() && 0 <= x < v[y].len() {
            let r = v[y];
            assert(r.len() == WIDTH);
            lemma_row_end_below(r, r.len() as int);
            assert(cell_at(v, x, y) == r[x]);
            if y > l {
                assert(!row_used(r));
                assert(!(!r[x].blank()));
            } else if x >= row_end(r) {
                assert(r[x].blank());
            } else {
                assert(read_back_cell(v, l + 1, x, y) == r[x]);
            }
        } else {
            assert(cell_at(v, x, y) == blank_cell());
            if 0 <= y < v.len() {
                assert(v[y].len() == WIDTH);
                lemma_row_end_below(v[y], v[y].len() as int);
            }
        }
    }
}

/// A byte that continues a control sequence's parameters.
pub open spec fn param_byte(b: u8) -> bool {
    is_digit(b) || b == 0x3B || b == 0x3F || b == 0x3D
}

proof fn lemma_scan_prefix(d1: Seq<u8>, t: Seq<u8>, j: int, ps: Seq<u16>, num: Seq<u8>)
    requires
        0 <= j < d1.len(),
        !param_byte(d1.last()),
    ensures
        scan_csi(d1 + t, j, ps, num) == scan_csi(d1, j, ps, num),
    decreases d1.len() - j,
{
    let b = d1[j];
    assert((d1 + t)[j] == b);
    if is_digit(b) {
        lemma_scan_prefix(d1, t, j + 1, ps, num.push(b));
    } else if b == 0x3B {
        lemma_scan_prefix(d1, t, j + 1, ps.push(param_of(num)), seq![]);
    } else if b == 0x3F || b == 0x3D {
        lemma_scan_prefix(d1, t, j + 1, ps, num);
    }
}

/// When data that ends with a line feed is followed by a SUB byte, the
/// loader reads exactly the same as from the data alone.
pub proof fn lemma_decode_stops_at_sub(d1: Seq<u8>, t: Seq<u8>, i: int, p: Pen, g: Seq<Seq<Cell>>)
    requires
        0 <= i <= d1.len(),
        d1.len() > 0,
        d1.last() == 0x0A,
        t.len() > 0,
        t[0] == 0x1A,
    ensures
        decode_from(d1 + t, i, p, g) == decode_from(d1, i, p, g),
    decreases d1.len() - i,
{
    let d = d1 + t;
    if i == d1.len() {
        assert(d[i] == 0x1A);
    } else {
        let b = d1[i];
        assert(d[i] == b);
        if b == 0x1A {
        } else if b == 0x0D || b == 0x0A || b == 0x09 {
            lemma_decode_stops_at_sub(d1, t, i + 1, Pen { x: 0, ..p }, g);
            lemma_decode_stops_at_sub(
                d1,
                t,
                i + 1,
                Pen { x: 0, y: min_int(p.y + 1, MAX_ROWS - 1) as usize, ..p },
                g,
            );
            lemma_decode_stops_at_sub(
                d1,
                t,
                i + 1,
                Pen { x: min_int((p.x / 8 + 1) * 8, WIDTH - 1) as usize, ..p },
                g,
            );
        } else if b == 0x1B && i + 1 < d1.len() && d1[i + 1] == 0x5B {
            assert(d[i + 1] == 0x5B);
            assert(i + 1 != d1.len() - 1);
            lemma_scan_prefix(d1, t, i + 2, seq![], seq![]);
            crate::ansi::lemma_scan_csi_bounds(d1, i + 2, seq![], seq![]);
            let r = scan_csi(d1, i + 2, seq![], seq![]);
            match r.1 {
                Some((fin, ps)) => {
                    lemma_decode_stops_at_sub(d1, t, r.0, apply_csi(fin, ps, p), g);
                },
                None => {
                    lemma_decode_stops_at_sub(d1, t, r.0, p, g);
                },
            }
        } else {
            if b == 0x1B && i + 1 < d.len() {
                assert(i + 1 < d1.len() || d[i + 1] == 0x1A);
            }
            lemma_decode_stops_at_sub(
                d1,
                t,
                i + 1,
                advanced(p),
                put(g, p.x as int, p.y as int, pen_cell(b, p)),
            );
        }
    }
}

/// The control sequence that starts with `ESC [` at `i`, as scanned.
pub open spec fn csi_at(d: Seq<u8>, i: int) -> (int, Option<(u8, Seq<u16>)>) {
    scan_csi(d, i + 2, seq![], seq![])
}

/// Every `ESC [` in the data starts a control sequence that ends within
/// the data.
pub open spec fn csi_complete(d: Seq<u8>) -> bool {
    forall|i: int| 0 <= i && i + 1 < d.len() && d[i] == 0x1B && d[i + 1] == 0x5B ==> (#[trigger] csi_at(d, i)).1 is Some
}

proof fn lemma_scan_done_prefix(d1: Seq<u8>, t: Seq<u8>, j: int, ps: Seq<u16>, num: Seq<u8>)
    requires
        0 <= j,
        scan_csi(d1, j, ps, num).1 is Some,
    ensures
        scan_csi(d1 + t, j, ps, num) == scan_csi(d1, j, ps, num),
    decreases d1.len() - j,
{
    let b = d1[j];
    assert((d1 + t)[j] == b);
    if is_digit(b) {
        lemma_scan_done_prefix(d1, t, j + 1, ps, num.push(b));
    } else if b == 0x3B {
        lemma_scan_done_prefix(d1, t, j + 1, ps.push(param_of(num)), seq![]);
    } else if b == 0x3F || b == 0x3D {
        lemma_scan_done_prefix(d1, t, j + 1, ps, num);
    }
}

proof fn lemma_decode_prefix(d1: Seq<u8>, t: Seq<u8>, i: int, p: Pen, g: Seq<Seq<Cell>>)
    requires
        0 <= i <= d1.len(),
        csi_complete(d1),
        t.len() > 0,
        t[0] == 0x1A,
    ensures
        decode_from(d1 + t, i, p, g) == decode_from(d1, i, p, g),
    decreases d1.len() - i,
{
    let d = d1 + t;
    if i == d1.len() {
        assert(d[i] == 0x1A);
    } else {
        let b = d1[i];
        assert(d[i] == b);
        if b == 0x1A {
        } else if b == 0x0D || b == 0x0A || b == 0x09 {
            lemma_decode_prefix(d1, t, i + 1, Pen { x: 0, ..p }, g);
            lemma_decode_prefix(
                d1,
                t,
                i + 1,
                Pen { x: 0, y: min_int(p.y + 1, MAX_ROWS - 1) as usize, ..p },
                g,
            );
            lemma_decode_prefix(
                d1,
                t,
                i + 1,
                Pen { x: min_int((p.x / 8 + 1) * 8, WIDTH - 1) as usize, ..p },
                g,
            );
        } else if b == 0x1B && i + 1 < d1.len() && d1[i + 1] == 0x5B {
            assert(d[i + 1] == 0x5B);
            assert(csi_at(d1, i).1 is Some);
            lemma_scan_done_prefix(d1, t, i + 2, seq![], seq![]);
            crate::ansi::lemma_scan_csi_bounds(d1, i + 2, seq![], seq![]);
            let r = scan_csi(d1, i + 2, seq![], seq![]);
            match r.1 {
                Some((fin, ps)) => {
                    lemma_decode_prefix(d1, t, r.0, apply_csi(fin, ps, p), g);
                },
                None => {
                    lemma_decode_prefix(d1, t, r.0, p, g);
                },
            }
        } else {
            if b == 0x1B && i + 1 < d.len() {
                assert(i + 1 < d1.len() || d[i + 1] == 0x1A);
            }
            lemma_decode_prefix(
                d1,
                t,
                i + 1,
                advanced(p),
                put(g, p.x as int, p.y as int, pen_cell(b, p)),
            );
        }
    }
}

/// The loader reads nothing after a SUB byte: data whose control
/// sequences all end within it loads the same with or without a SUB byte
/// and anything after it (a SAUCE block, say) appended.
pub proof fn lemma_load_ignores_tail(d1: Seq<u8>, t: Seq<u8>)
    requires
        csi_complete(d1),
        t.len() > 0,
        t[0] == 0x1A,
    ensures
        decoded(d1 + t) == decoded(d1),
{
    lemma_decode_prefix(d1, t, 0, start_pen(), blank_rows(25));
}

/// Cursor back: `ESC [ n D` with a one-digit count `n` of 1 to 9, then a
/// printable byte, writes that byte `n` columns left of the cursor (at
/// column 0 at the most), in the cursor's row and the current colors; the
/// rest of the pen is unchanged.
pub proof fn lemma_cursor_back(data: Seq<u8>, i: int, p: Pen, g: Seq<Seq<Cell>>, n: int, b: u8)
    requires
        0 <= i,
        i + 5 <= data.len(),
        data[i] == 0x1B,
        data[i + 1] == 0x5B,
        1 <= n <= 9,
        data[i + 2] == (0x30 + n) as u8,
        data[i + 3] == 0x44,
        data[i + 4] == b,
        b != 0x1A && b != 0x0D && b != 0x0A && b != 0x09 && b != 0x1B,
    ensures
        ({
            let x = if p.x >= n { p.x - n } else { 0 };
            let q = Pen { x: x as usize, ..p };
            decode_from(data, i, p, g) == decode_from(
                data,
                i + 5,
                advanced(q),
                put(g, x, p.y as int, pen_cell(b, q)),
            )
        }),
{
    let d = (0x30 + n) as u8;
    assert(is_digit(d));
    assert(!is_digit(0x44u8));
    assert(d as int == 0x30 + n);
    assert(seq![d].len() == 1 && seq![d].last() == d);
    assert(seq![d].drop_last() =~= Seq::<u8>::empty());
    assert(digits_value(Seq::<u8>::empty()) == 0);
    assert(digits_value(seq![d]) == digits_value(seq![d].drop_last()) * 10 + (d - 0x30) as nat);
    assert(digits_value(seq![d]) == n);
    assert(scan_csi(data, i + 3, seq![], seq![d]) == (i + 4, Some((0x44u8, seq![param_of(seq![d])]))));
    assert(scan_csi(data, i + 2, seq![], seq![]) == scan_csi(data, i + 3, seq![], seq![d]));
    assert(count_param(seq![n as u16]) == n);
    assert(param_of(seq![d]) == n as u16);
    let x = if p.x >= n { p.x - n } else { 0 };
    let q = Pen { x: x as usize, ..p };
    assert(apply_csi(0x44u8, seq![n as u16], p) == q);
    assert(decode_from(data, i, p, g) == decode_from(data, i + 4, q, g));
}

/// The loader ignores a SAUCE block after the art: anything after the SUB
/// byte that follows the last line is never read.
pub proof fn lemma_decode_ignores_tail(v: Seq<Seq<Cell>>, utf8: bool, t: Seq<u8>)
    requires
        t.len() > 0,
        t[0] == 0x1A,
    ensures
        decoded(body_text(v, utf8) + t) == decoded(body_text(v, utf8)),
{
    let l = last_used(v);
    let body = body_text(v, utf8);
    crate::canvas::lemma_last_used_below(v, v.len() as int);
    let le = line_end_text();
    assert(rows_text(v, l + 1, utf8) == rows_text(v, l, utf8) + row_text(
        v[l],
        0,
        row_end(v[l]),
        None,
        utf8,
    ) + le);
    assert(body.last() == le.last());
    lemma_decode_stops_at_sub(body, t, 0, start_pen(), blank_rows(25));
}

/// Loading a saved file gives the art whether or not a SAUCE record was
/// attached; for art that survives the trip (`roundtrip_ok`), saved in
/// CP437, it is every written cell again.
pub proof fn lemma_load_save(v: Seq<Seq<Cell>>, meta: Option<SauceText>, utf8: bool, date: Seq<char>)
    requires
        grid_wf(v),
    ensures
        decoded(saved_text(v, meta, utf8, date)) == decoded(body_text(v, utf8)),
        !utf8 && roundtrip_ok(v) ==> forall|x: int, y: int| #[trigger]
            cell_at(decoded(saved_text(v, meta, utf8, date)), x, y) == read_back_cell(
                v,
                last_used(v) + 1,
                x,
                y,
            ),
{
    match meta {
        Some(s) => {
            let body = body_text(v, utf8);
            let t = crate::sauce::sauce_block(
                s,
                #[verifier::truncate] (body.len() as u32),
                WIDTH as u16,
                #[verifier::truncate] ((last_used(v) + 1) as u16),
                date,
            );
            assert(t[0] == 0x1A);
            lemma_decode_ignores_tail(v, utf8, t);
        },
        None => {},
    }
    if !utf8 && roundtrip_ok(v) {
        lemma_decode_encode(v);
    }
}

/// The SAUCE record of a saved file reads back as stored: text fields cut
/// to their sizes through CP437 with trailing white space trimmed, the
/// first 255 comments, the iCE flag, and the save date.
pub proof fn lemma_sauce_of_save(v: Seq<Seq<Cell>>, s: SauceText, utf8: bool, date: Seq<char>)
    ensures
        parsed_sauce(saved_text(v, Some(s), utf8, date)) == Some(stored_sauce(s, date)),
{
    let body = body_text(v, utf8);
    lemma_parse_appended(
        body,
        s,
        #[verifier::truncate] (body.len() as u32),
        WIDTH as u16,
        #[verifier::truncate] ((last_used(v) + 1) as u16),
        date,
    );
}

} // verus!
