//! Half-block pixel space: the canvas read as a `WIDTH` x (2 * `MAX_ROWS`)
//! grid of square pixels, two per text cell, packed into ▀/▄/█ glyphs.
//! Plotting a pixel preserves the other half of the cell, so pixel art can
//! be built incrementally in any order.
//!
//! ANSI constraint: a cell's background can only be colors 0-7, so when two
//! *different bright* colors (8-15) share a cell vertically, the bottom one
//! is degraded to its nearest dark neighbor. Align bright color boundaries
//! to even pixel rows to avoid this.
use vstd::prelude::*;

use crate::canvas::{Canvas, Cell, MAX_ROWS, WIDTH, blank_cell, cell_at, put, lemma_put, grid_wf};
use crate::import_image::{nearest, first_nearest, vga_table};
use crate::render_png::{PALETTE, vga_rgb, lemma_palette};

verus! {

pub const PIX_W: usize = WIDTH;

pub const PIX_H: usize = 2000;

/// The dark color (0-7) nearest to VGA color `c & 15`, the first on ties.
pub open spec fn is_nearest_dark(c: u8, d: u8) -> bool {
    first_nearest(vga_rgb((c & 15u8) as int), vga_table(), 8, d as int)
}

/// Nearest dark (bg-capable) color to the given palette color.
pub fn nearest_dark(c: u8) -> (r: u8)
    ensures
        is_nearest_dark(c, r),
        r < 8,
{
    proof {
        lemma_palette();
    }
    let k = (c & 15) as usize;
    assert(c & 15u8 < 16) by (bit_vector);
    assert(PALETTE@[k as int]@ == vga_rgb(k as int));
    nearest(PALETTE[k], 8)
}

/// The (top, bottom) pixel colors of a cell: ▀ is fg over bg, ▄ bg over
/// fg, █ fg twice; any other glyph reads as its background twice.
pub open spec fn pixels_of(cell: Cell) -> (u8, u8) {
    if cell.ch == '▀' {
        (cell.fg, cell.bg)
    } else if cell.ch == '▄' {
        (cell.bg, cell.fg)
    } else if cell.ch == '█' {
        (cell.fg, cell.fg)
    } else {
        (cell.bg, cell.bg)
    }
}

/// Decode a cell into its (top, bottom) pixel colors. Non-block glyphs are
/// treated as their background color.
pub fn cell_pixels(cell: Cell) -> (r: (u8, u8))
    ensures
        r == pixels_of(cell),
{
    if cell.ch == '▀' {
        (cell.fg, cell.bg)
    } else if cell.ch == '▄' {
        (cell.bg, cell.fg)
    } else if cell.ch == '█' {
        (cell.fg, cell.fg)
    } else {
        (cell.bg, cell.bg)
    }
}

/// The cell that best shows the pixel pair (top & 15, bottom & 15): blank
/// for black over black, a full block for one color, otherwise a half
/// block with the bright color (if any) in the foreground; of two
/// different bright colors the bottom one is dimmed to its nearest dark
/// color `dark`.
pub open spec fn pair_cell(top: u8, bottom: u8, dark: u8) -> Cell {
    let t = top & 15u8;
    let b = bottom & 15u8;
    if t == b {
        if t == 0 {
            blank_cell()
        } else {
            Cell { ch: '█', fg: t, bg: 0 }
        }
    } else if b < 8 {
        Cell { ch: '▀', fg: t, bg: b }
    } else if t < 8 {
        Cell { ch: '▄', fg: b, bg: t }
    } else {
        Cell { ch: '▀', fg: t, bg: dark }
    }
}

/// The cell `pixels_to_cell` gives for a pixel pair.
pub open spec fn cell_for(top: u8, bottom: u8) -> Cell {
    pair_cell(top, bottom, choose|d: u8| is_nearest_dark(bottom, d))
}

/// Encode a (top, bottom) pixel pair as the best available cell.
pub fn pixels_to_cell(top: u8, bottom: u8) -> (c: Cell)
    ensures
        c == cell_for(top, bottom),
{
    let t = top & 15;
    let b = bottom & 15;
    if t == b {
        if t == 0 {
            Cell::default()
        } else {
            Cell { ch: '█', fg: t, bg: 0 }
        }
    } else if b < 8 {
        Cell { ch: '▀', fg: t, bg: b }
    } else if t < 8 {
        Cell { ch: '▄', fg: b, bg: t }
    } else {
        let d = nearest_dark(b);
        proof {
            assert(b & 15u8 == bottom & 15u8) by (bit_vector)
                requires
                    b == bottom & 15u8,
            ;
            lemma_nearest_dark_unique(bottom, d);
        }
        Cell { ch: '▀', fg: t, bg: d }
    }
}

proof fn lemma_nearest_dark_unique(c: u8, d: u8)
    requires
        is_nearest_dark(c, d),
    ensures
        (choose|e: u8| is_nearest_dark(c, e)) == d,
{
    let e = choose|e: u8| is_nearest_dark(c, e);
    assert(is_nearest_dark(c, e));
    let tgt = vga_rgb((c & 15u8) as int);
    let pal = vga_table();
    if e < d {
        assert(crate::import_image::dist_spec(tgt, pal[e as int]) > crate::import_image::dist_spec(
            tgt,
            pal[d as int],
        ));
    } else if d < e {
        assert(crate::import_image::dist_spec(tgt, pal[d as int]) > crate::import_image::dist_spec(
            tgt,
            pal[e as int],
        ));
    }
}

/// The first index among `0..n` whose color in `pal` is nearest to `t`.
pub open spec fn argmin(t: Seq<u8>, pal: Seq<Seq<u8>>, n: int) -> int
    decreases n,
{
    if n <= 1 {
        0
    } else {
        let m = argmin(t, pal, n - 1);
        if crate::import_image::dist_spec(t, pal[n - 1]) < crate::import_image::dist_spec(t, pal[m]) {
            n - 1
        } else {
            m
        }
    }
}

/// The index `argmin` picks is a first nearest palette color.
pub proof fn lemma_argmin_first(t: Seq<u8>, pal: Seq<Seq<u8>>, n: int)
    requires
        n >= 1,
    ensures
        first_nearest(t, pal, n, argmin(t, pal, n)),
        0 <= argmin(t, pal, n) < n,
{
    lemma_argmin(t, pal, n);
}

proof fn lemma_argmin(t: Seq<u8>, pal: Seq<Seq<u8>>, n: int)
    requires
        n >= 1,
    ensures
        first_nearest(t, pal, n, argmin(t, pal, n)),
    decreases n,
{
    if n > 1 {
        lemma_argmin(t, pal, n - 1);
    }
}

/// Every color has a nearest dark color.
pub proof fn lemma_nearest_dark_exists(c: u8)
    ensures
        is_nearest_dark(c, (choose|d: u8| is_nearest_dark(c, d))),
        (choose|d: u8| is_nearest_dark(c, d)) < 8,
{
    let t = vga_rgb((c & 15u8) as int);
    lemma_argmin(t, vga_table(), 8);
    let m = argmin(t, vga_table(), 8);
    assert(is_nearest_dark(c, m as u8));
}

/// The pixel at (x, y): the top or bottom half of cell (x, y / 2).
pub open spec fn pixel_at(v: Seq<Seq<Cell>>, x: int, y: int) -> u8 {
    let p = pixels_of(cell_at(v, x, y / 2));
    if y % 2 == 0 {
        p.0
    } else {
        p.1
    }
}

/// The grid after plotting `color` at pixel (x, y); pixels outside
/// `PIX_W` x `PIX_H` are ignored.
pub open spec fn plot(v: Seq<Seq<Cell>>, x: int, y: int, color: u8) -> Seq<Seq<Cell>> {
    if 0 <= x < PIX_W && 0 <= y < PIX_H {
        let p = pixels_of(cell_at(v, x, y / 2));
        let c = if y % 2 == 0 {
            cell_for(color, p.1)
        } else {
            cell_for(p.0, color)
        };
        put(v, x, y / 2, c)
    } else {
        v
    }
}

/// Plot one pixel, keeping the other half of its cell.
pub fn set_pixel(canvas: &mut Canvas, x: usize, y: usize, color: u8)
    requires
        old(canvas).wf(),
    ensures
        final(canvas).wf(),
        final(canvas)@ == plot(old(canvas)@, x as int, y as int, color),
{
    if x >= PIX_W || y >= PIX_H {
        return;
    }
    let cy = y / 2;
    let (mut t, mut b) = cell_pixels(canvas.get(x, cy));
    if y % 2 == 0 {
        t = color;
    } else {
        b = color;
    }
    canvas.set(x, cy, pixels_to_cell(t, b));
}

/// The pixel pair a cell made from (top, bottom) reads back as: both
/// colors (taken `& 15`), except that of two different bright colors the
/// bottom one comes back as its nearest dark color.
pub open spec fn stored_pair(top: u8, bottom: u8) -> (u8, u8) {
    let t = top & 15u8;
    let b = bottom & 15u8;
    if t >= 8 && b >= 8 && t != b {
        (t, choose|d: u8| is_nearest_dark(bottom, d))
    } else {
        (t, b)
    }
}

/// Encoding a pixel pair as a cell and decoding the cell gives the pair
/// back, but for the degraded bottom of two different bright colors.
pub proof fn lemma_pair_roundtrip(top: u8, bottom: u8)
    ensures
        pixels_of(cell_for(top, bottom)) == stored_pair(top, bottom),
        stored_pair(top, bottom).1 != (bottom & 15u8) ==> stored_pair(top, bottom).1 < 8,
{
    lemma_nearest_dark_exists(bottom);
    let t = top & 15u8;
    let b = bottom & 15u8;
    assert(t < 16 && b < 16) by (bit_vector)
        requires
            t == top & 15u8,
            b == bottom & 15u8,
    ;
}

/// Plotting a pixel sets it (a bright bottom under a different bright top
/// comes out as its nearest dark color), keeps the other half of its cell
/// (the bottom half dimmed the same way under a new bright top), and
/// leaves every other pixel alone.
pub proof fn lemma_plot_keeps_other_half(v: Seq<Seq<Cell>>, x: int, y: int, color: u8)
    requires
        grid_wf(v),
        0 <= x < PIX_W,
        0 <= y < PIX_H,
    ensures
        ({
            let w = plot(v, x, y, color);
            if y % 2 == 0 {
                (pixel_at(w, x, y), pixel_at(w, x, y + 1)) == stored_pair(color, pixel_at(v, x, y + 1))
            } else {
                (pixel_at(w, x, y - 1), pixel_at(w, x, y)) == stored_pair(pixel_at(v, x, y - 1), color)
            }
        }),
        forall|x2: int, y2: int|
            !(x2 == x && y2 / 2 == y / 2) ==> #[trigger] pixel_at(plot(v, x, y, color), x2, y2)
                == pixel_at(v, x2, y2),
{
    let p = pixels_of(cell_at(v, x, y / 2));
    let c = if y % 2 == 0 {
        cell_for(color, p.1)
    } else {
        cell_for(p.0, color)
    };
    lemma_put(v, x, y / 2, c);
    if y % 2 == 0 {
        lemma_pair_roundtrip(color, p.1);
        assert((y + 1) / 2 == y / 2);
    } else {
        lemma_pair_roundtrip(p.0, color);
        assert((y - 1) / 2 == y / 2);
    }
}

/// 4x4 Bayer ordered-dither matrix (values 0-15).
pub const BAYER4: [[u8; 4]; 4] = [[0, 8, 2, 10], [12, 4, 14, 6], [3, 11, 1, 9], [15, 7, 13, 5]];

/// The Bayer matrix value for pixel (x, y).
pub open spec fn bayer_value(x: int, y: int) -> u8 {
    BAYER4@[y % 4]@[x % 4]
}

/// The color of pixel (px, py) in a dithered fill: `c2` where the Bayer
/// value is below `level`, `c1` elsewhere.
pub open spec fn dither_color(px: int, py: int, c1: u8, c2: u8, level: u8) -> u8 {
    if level > bayer_value(px, py) {
        c2
    } else {
        c1
    }
}

/// Pixel (px, py) lies in the rectangle at (x, y) of size w x h, within
/// pixel space.
pub open spec fn in_rect(px: int, py: int, x: int, y: int, w: int, h: int) -> bool {
    x <= px < x + w && y <= py < y + h && px < PIX_W && py < PIX_H
}

/// Cell (cx, cy) after a dithered fill: each of its pixels inside the
/// rectangle takes its dither color, the others keep theirs; a cell with no
/// pixel inside stays as it was.
pub open spec fn dithered_cell(
    v: Seq<Seq<Cell>>,
    cx: int,
    cy: int,
    x: int,
    y: int,
    w: int,
    h: int,
    c1: u8,
    c2: u8,
    level: u8,
) -> Cell {
    let tin = in_rect(cx, 2 * cy, x, y, w, h);
    let bin = in_rect(cx, 2 * cy + 1, x, y, w, h);
    let p = pixels_of(cell_at(v, cx, cy));
    if !tin && !bin {
        cell_at(v, cx, cy)
    } else {
        cell_for(
            if tin {
                dither_color(cx, 2 * cy, c1, c2, level)
            } else {
                p.0
            },
            if bin {
                dither_color(cx, 2 * cy + 1, c1, c2, level)
            } else {
                p.1
            },
        )
    }
}

/// The number of rows a grid of `len` rows has after a fill of the
/// rectangle: down to the cell row of its last pixel row.
pub open spec fn rows_after_fill(len: int, x: int, y: int, w: int, h: int) -> int {
    let xe = if x + w < PIX_W { x + w } else { PIX_W as int };
    let ye = if y + h < PIX_H { y + h } else { PIX_H as int };
    if x < xe && y < ye && len < (ye - 1) / 2 + 1 {
        (ye - 1) / 2 + 1
    } else {
        len
    }
}

/// `w` is `v` after a dithered fill of the rectangle.
pub open spec fn is_dithered(
    w: Seq<Seq<Cell>>,
    v: Seq<Seq<Cell>>,
    x: int,
    y: int,
    wd: int,
    h: int,
    c1: u8,
    c2: u8,
    level: u8,
) -> bool {
    &&& w.len() == rows_after_fill(v.len() as int, x, y, wd, h)
    &&& forall|cx: int, cy: int| #[trigger]
        cell_at(w, cx, cy) == dithered_cell(v, cx, cy, x, y, wd, h, c1, c2, level)
}

proof fn lemma_refill(color: u8, b: u8)
    ensures
        cell_for((color & 15u8), b) == cell_for(color, b),
{
    assert((color & 15u8) & 15u8 == color & 15u8) by (bit_vector);
}

fn bayer_at(px: usize, py: usize) -> (r: u8)
    ensures
        r == bayer_value(px as int, py as int),
{
    BAYER4[py % 4][px % 4]
}

fn paint_rect(canvas: &mut Canvas, x: usize, y: usize, w: usize, h: usize, c1: u8, c2: u8, level: u8)
    requires
        old(canvas).wf(),
        x + w <= usize::MAX,
        y + h <= usize::MAX,
    ensures
        final(canvas).wf(),
        is_dithered(final(canvas)@, old(canvas)@, x as int, y as int, w as int, h as int, c1, c2, level),
{
    let ghost v = canvas@;
    let xe = if x + w < PIX_W {
        x + w
    } else {
        PIX_W
    };
    let ye = if y + h < PIX_H {
        y + h
    } else {
        PIX_H
    };
    let mut py: usize = y;
    while py < ye
        invariant
            canvas.wf(),
            grid_wf(v),
            xe == (if x + w < PIX_W { x + w } else { PIX_W as int }),
            ye == (if y + h < PIX_H { y + h } else { PIX_H as int }),
            y <= py,
            py <= ye || py == y,
            canvas@.len() == (if x < xe && y < py && v.len() < (py - 1) / 2 + 1 {
                (py - 1) / 2 + 1
            } else {
                v.len() as int
            }),
            forall|cx: int, cy: int| #[trigger]
                cell_at(canvas@, cx, cy) == dithered_cell(
                    v,
                    cx,
                    cy,
                    x as int,
                    y as int,
                    w as int,
                    if py < h + y { py - y } else { h as int },
                    c1,
                    c2,
                    level,
                ),
        decreases ye - py,
    {
        let mut px: usize = x;
        while px < xe
            invariant
                canvas.wf(),
                grid_wf(v),
                xe == (if x + w < PIX_W { x + w } else { PIX_W as int }),
                ye == (if y + h < PIX_H { y + h } else { PIX_H as int }),
                y <= py < ye,
                x <= px,
                px <= xe || px == x,
                canvas@.len() == (if (x < xe && y < py && v.len() < (py - 1) / 2 + 1) || (x < px
                    && v.len() < py / 2 + 1) {
                    if x < px {
                        py / 2 + 1
                    } else {
                        (py - 1) / 2 + 1
                    }
                } else {
                    v.len() as int
                }),
                forall|cx: int, cy: int| #[trigger]
                    cell_at(canvas@, cx, cy) == {
                        let tin = in_rect(cx, 2 * cy, x as int, y as int, w as int, py - y)
                            || (2 * cy == py && x <= cx < px);
                        let bin = in_rect(cx, 2 * cy + 1, x as int, y as int, w as int, py - y) || (2
                            * cy + 1 == py && x <= cx < px);
                        let p = pixels_of(cell_at(v, cx, cy));
                        if !tin && !bin {
                            cell_at(v, cx, cy)
                        } else {
                            cell_for(
                                if tin {
                                    dither_color(cx, 2 * cy, c1, c2, level)
                                } else {
                                    p.0
                                },
                                if bin {
                                    dither_color(cx, 2 * cy + 1, c1, c2, level)
                                } else {
                                    p.1
                                },
                            )
                        }
                    },
            decreases xe - px,
        {
            let b = bayer_at(px, py);
            let c = if level > b {
                c2
            } else {
                c1
            };
            let ghost before = canvas@;
            proof {
                let cy = py as int / 2;
                let p = pixels_of(cell_at(before, px as int, cy));
                lemma_pair_roundtrip(dither_color(px as int, 2 * cy, c1, c2, level), pixels_of(cell_at(v, px as int, cy)).1);
                lemma_refill(dither_color(px as int, 2 * cy, c1, c2, level), c);
                let nc = if py % 2 == 0 {
                    cell_for(c, p.1)
                } else {
                    cell_for(p.0, c)
                };
                lemma_put(before, px as int, cy, nc);
            }
            set_pixel(canvas, px, py, c);
            px = px + 1;
        }
        py = py + 1;
    }
}

/// Fill a pixel rect with an ordered-dither mix of two colors: pixels whose
/// Bayer value (0-15) is below `level` take `c2`, the others `c1`, so
/// `level` 0 is all `c1`, 16 all `c2`, and the levels between fake the
/// gradient steps that the 16-color palette can't reach.
pub fn dither_rect(canvas: &mut Canvas, x: usize, y: usize, w: usize, h: usize, c1: u8, c2: u8, level: u8)
    requires
        old(canvas).wf(),
        x + w <= usize::MAX,
        y + h <= usize::MAX,
    ensures
        final(canvas).wf(),
        is_dithered(final(canvas)@, old(canvas)@, x as int, y as int, w as int, h as int, c1, c2, level),
{
    paint_rect(canvas, x, y, w, h, c1, c2, level);
}

/// Fill a pixel rect with one color (clipped to pixel space).
pub fn fill_rect(canvas: &mut Canvas, x: usize, y: usize, w: usize, h: usize, color: u8)
    requires
        old(canvas).wf(),
        x + w <= usize::MAX,
        y + h <= usize::MAX,
    ensures
        final(canvas).wf(),
        is_dithered(final(canvas)@, old(canvas)@, x as int, y as int, w as int, h as int, color, color, 0),
{
    paint_rect(canvas, x, y, w, h, color, color, 0);
}

/// Bresenham's stepping rule: from point (x, y) with error term `err`, on a
/// line spanning `a` columns and `b` rows with step directions `sx`, `sy`.
pub open spec fn line_step(x: int, y: int, err: int, a: int, b: int, sx: int, sy: int) -> (int, int, int) {
    let e2 = 2 * err;
    let x2 = if e2 >= -b {
        x + sx
    } else {
        x
    };
    let err2 = if e2 >= -b {
        err - b
    } else {
        err
    };
    let y2 = if e2 <= a {
        y + sy
    } else {
        y
    };
    let err3 = if e2 <= a {
        err2 + a
    } else {
        err2
    };
    (x2, y2, err3)
}

/// The pixels Bresenham's algorithm visits from (x, y) with error `err`
/// until it reaches (x1, y1) (or has taken `fuel` steps).
pub open spec fn line_from(
    x: int,
    y: int,
    err: int,
    x1: int,
    y1: int,
    a: int,
    b: int,
    sx: int,
    sy: int,
    fuel: nat,
) -> Seq<(int, int)>
    decreases fuel,
{
    if fuel == 0 || (x == x1 && y == y1) {
        seq![(x, y)]
    } else {
        let n = line_step(x, y, err, a, b, sx, sy);
        seq![(x, y)] + line_from(n.0, n.1, n.2, x1, y1, a, b, sx, sy, (fuel - 1) as nat)
    }
}

pub open spec fn abs(v: int) -> int {
    if v < 0 {
        -v
    } else {
        v
    }
}

/// The pixels of the Bresenham line from (x0, y0) to (x1, y1), in order.
pub open spec fn line_points(x0: int, y0: int, x1: int, y1: int) -> Seq<(int, int)> {
    let a = abs(x1 - x0);
    let b = abs(y1 - y0);
    line_from(
        x0,
        y0,
        a - b,
        x1,
        y1,
        a,
        b,
        if x0 < x1 { 1 } else { -1 },
        if y0 < y1 { 1 } else { -1 },
        (a + b) as nat,
    )
}

/// The grid after plotting `color` at each of the points in order.
pub open spec fn plot_all(v: Seq<Seq<Cell>>, pts: Seq<(int, int)>, color: u8) -> Seq<Seq<Cell>>
    decreases pts.len(),
{
    if pts.len() == 0 {
        v
    } else {
        plot(plot_all(v, pts.drop_last(), color), pts.last().0, pts.last().1, color)
    }
}

proof fn lemma_step_bounds(a: int, b: int, i: int, j: int, err: int)
    requires
        0 <= i <= a,
        0 <= j <= b,
        !(i == a && j == b),
        err == a * (j + 1) - b * (i + 1),
        -3 * b <= 2 * err <= 3 * a,
    ensures
        2 * err >= -b || 2 * err <= a,
        2 * err >= -b ==> i < a,
        2 * err <= a ==> j < b,
        ({
            let xs: int = if 2 * err >= -b { 1 } else { 0 };
            let ys: int = if 2 * err <= a { 1 } else { 0 };
            let e = err - xs * b + ys * a;
            &&& -3 * b <= 2 * e <= 3 * a
            &&& e == a * (j + ys + 1) - b * (i + xs + 1)
        }),
{
    if 2 * err >= -b && i == a {
        assert(false) by (nonlinear_arith)
            requires
                j < b,
                j >= 0,
                a >= 0,
                err == a * (j + 1) - b * (a + 1),
                2 * err >= -b,
        ;
    }
    if 2 * err <= a && j == b {
        assert(false) by (nonlinear_arith)
            requires
                i < a,
                i >= 0,
                b >= 0,
                err == a * (b + 1) - b * (i + 1),
                2 * err <= a,
        ;
    }
    assert(a * (j + 1 + 1) == a * (j + 1) + a) by (nonlinear_arith);
    assert(b * (i + 1 + 1) == b * (i + 1) + b) by (nonlinear_arith);
}

proof fn lemma_line_from(
    x0: int,
    y0: int,
    x1: int,
    y1: int,
    a: int,
    b: int,
    sx: int,
    sy: int,
    i: int,
    j: int,
    err: int,
    fuel: nat,
)
    requires
        a >= 0,
        b >= 0,
        sx == 1 || sx == -1,
        sy == 1 || sy == -1,
        x1 == x0 + sx * a,
        y1 == y0 + sy * b,
        0 <= i <= a,
        0 <= j <= b,
        err == a * (j + 1) - b * (i + 1),
        -3 * b <= 2 * err <= 3 * a,
        fuel >= (a - i) + (b - j),
    ensures
        ({
            let s = line_from(x0 + sx * i, y0 + sy * j, err, x1, y1, a, b, sx, sy, fuel);
            &&& s.len() >= 1
            &&& s[0] == (x0 + sx * i, y0 + sy * j)
            &&& s.last() == (x1, y1)
            &&& forall|k: int|
                0 <= k < s.len() - 1 ==> abs(s[k + 1].0 - s[k].0) <= 1 && abs(s[k + 1].1 - (#[trigger] s[k]).1)
                    <= 1
        }),
    decreases fuel,
{
    let x = x0 + sx * i;
    let y = y0 + sy * j;
    let s = line_from(x, y, err, x1, y1, a, b, sx, sy, fuel);
    if x == x1 && y == y1 {
    } else {
        assert(!(i == a && j == b)) by (nonlinear_arith)
            requires
                x == x0 + sx * i,
                y == y0 + sy * j,
                x1 == x0 + sx * a,
                y1 == y0 + sy * b,
                !(x == x1 && y == y1),
        ;
        lemma_step_bounds(a, b, i, j, err);
        let n = line_step(x, y, err, a, b, sx, sy);
        let xs: int = if 2 * err >= -b { 1 } else { 0 };
        let ys: int = if 2 * err <= a { 1 } else { 0 };
        assert(n.0 == x0 + sx * (i + xs)) by (nonlinear_arith)
            requires
                n.0 == (if xs == 1 { x + sx } else { x }),
                x == x0 + sx * i,
                xs == 0 || xs == 1,
        ;
        assert(n.1 == y0 + sy * (j + ys)) by (nonlinear_arith)
            requires
                n.1 == (if ys == 1 { y + sy } else { y }),
                y == y0 + sy * j,
                ys == 0 || ys == 1,
        ;
        assert(n.2 == err - xs * b + ys * a) by (nonlinear_arith)
            requires
                n.2 == (if ys == 1 {
                    (if xs == 1 { err - b } else { err }) + a
                } else {
                    (if xs == 1 { err - b } else { err })
                }),
                xs == 0 || xs == 1,
                ys == 0 || ys == 1,
        ;
        assert(n.2 == a * (j + ys + 1) - b * (i + xs + 1));
        lemma_line_from(x0, y0, x1, y1, a, b, sx, sy, i + xs, j + ys, n.2, (fuel - 1) as nat);
        let t = line_from(n.0, n.1, n.2, x1, y1, a, b, sx, sy, (fuel - 1) as nat);
        assert(s == seq![(x, y)] + t);
        assert forall|k: int| 0 <= k < s.len() - 1 implies abs(s[k + 1].0 - s[k].0) <= 1 && abs(
            s[k + 1].1 - (#[trigger] s[k]).1,
        ) <= 1 by {
            if k > 0 {
                assert(s[k] == t[k - 1]);
                assert(s[k + 1] == t[k]);
            }
        }
    }
}

/// A Bresenham line starts at its first endpoint, ends at its second, and
/// moves at most one pixel in each direction per step.
pub proof fn lemma_line_endpoints(x0: int, y0: int, x1: int, y1: int)
    ensures
        ({
            let s = line_points(x0, y0, x1, y1);
            &&& s.len() >= 1
            &&& s[0] == (x0, y0)
            &&& s.last() == (x1, y1)
            &&& forall|k: int|
                0 <= k < s.len() - 1 ==> abs(s[k + 1].0 - s[k].0) <= 1 && abs(s[k + 1].1 - (#[trigger] s[k]).1)
                    <= 1
        }),
{
    let a = abs(x1 - x0);
    let b = abs(y1 - y0);
    let sx: int = if x0 < x1 { 1 } else { -1 };
    let sy: int = if y0 < y1 { 1 } else { -1 };
    assert(x1 == x0 + sx * a) by (nonlinear_arith)
        requires
            a == abs(x1 - x0),
            sx == (if x0 < x1 { 1int } else { -1int }),
    ;
    assert(y1 == y0 + sy * b) by (nonlinear_arith)
        requires
            b == abs(y1 - y0),
            sy == (if y0 < y1 { 1int } else { -1int }),
    ;
    assert(a - b == a * (0 + 1) - b * (0 + 1)) by (nonlinear_arith);
    lemma_line_from(x0, y0, x1, y1, a, b, sx, sy, 0, 0, a - b, (a + b) as nat);
    assert(x0 + sx * 0 == x0);
    assert(y0 + sy * 0 == y0);
}

/// Bresenham line in pixel space; pixels with a negative coordinate (or
/// past pixel space) are skipped.
pub fn line(canvas: &mut Canvas, x0: i64, y0: i64, x1: i64, y1: i64, color: u8)
    requires
        old(canvas).wf(),
        -(i64::MAX / 3) <= x1 - x0 <= i64::MAX / 3,
        -(i64::MAX / 3) <= y1 - y0 <= i64::MAX / 3,
    ensures
        final(canvas).wf(),
        final(canvas)@ == plot_all(old(canvas)@, line_points(x0 as int, y0 as int, x1 as int, y1 as int), color),
{
    let ghost v = canvas@;
    let dx = if x1 >= x0 {
        x1 - x0
    } else {
        x0 - x1
    };
    let dy = if y1 >= y0 {
        -(y1 - y0)
    } else {
        -(y0 - y1)
    };
    let sx: i64 = if x0 < x1 {
        1
    } else {
        -1
    };
    let sy: i64 = if y0 < y1 {
        1
    } else {
        -1
    };
    let ghost a = dx as int;
    let ghost b = -dy as int;
    let ghost pts = line_points(x0 as int, y0 as int, x1 as int, y1 as int);
    let mut err = dx + dy;
    let mut x = x0;
    let mut y = y0;
    let ghost mut i: int = 0;
    let ghost mut j: int = 0;
    let ghost mut fuel: nat = (a + b) as nat;
    let ghost mut done: Seq<(int, int)> = seq![];
    assert(err == a * (0 + 1) - b * (0 + 1)) by (nonlinear_arith)
        requires
            err == dx + dy,
            a == dx,
            b == -dy,
    ;
    loop
        invariant_except_break
            pts == done + line_from(x as int, y as int, err as int, x1 as int, y1 as int, a, b, sx as int, sy as int, fuel),
            canvas@ == plot_all(v, done, color),
        invariant
            canvas.wf(),
            grid_wf(v),
            a == abs(x1 - x0),
            b == abs(y1 - y0),
            a <= i64::MAX / 3,
            b <= i64::MAX / 3,
            dx == a,
            dy == -b,
            sx == if x0 < x1 { 1int } else { -1int },
            sy == if y0 < y1 { 1int } else { -1int },
            x1 == x0 + sx * a,
            y1 == y0 + sy * b,
            0 <= i <= a,
            0 <= j <= b,
            x == x0 + sx * i,
            y == y0 + sy * j,
            err == a * (j + 1) - b * (i + 1),
            -3 * b <= 2 * err <= 3 * a,
            fuel >= (a - i) + (b - j),
            pts == line_points(x0 as int, y0 as int, x1 as int, y1 as int),
        ensures
            canvas.wf(),
            canvas@ == plot_all(v, pts, color),
            pts == line_points(x0 as int, y0 as int, x1 as int, y1 as int),
        decreases fuel,
    {
        let ghost before = canvas@;
        if x >= 0 && y >= 0 && x < PIX_W as i64 && y < PIX_H as i64 {
            set_pixel(canvas, x as usize, y as usize, color);
        }
        proof {
            let nd = done.push((x as int, y as int));
            assert(nd.drop_last() =~= done);
            done = nd;
        }
        if x == x1 && y == y1 {
            proof {
                assert(line_from(x as int, y as int, err as int, x1 as int, y1 as int, a, b, sx as int, sy as int, fuel) =~= seq![(x as int, y as int)]);
                assert(pts =~= done);
            }
            break;
        }
        proof {
            assert(!(i == a && j == b)) by (nonlinear_arith)
                requires
                    x == x0 + sx * i,
                    y == y0 + sy * j,
                    x1 == x0 + sx * a,
                    y1 == y0 + sy * b,
                    !(x == x1 && y == y1),
            ;
            lemma_step_bounds(a, b, i, j, err as int);
        }
        let e2 = 2 * err;
        if e2 >= dy {
            proof {
                if sx == 1 {
                    assert(x0 + sx * (i + 1) == x + 1 && x + 1 <= x1) by (nonlinear_arith)
                        requires
                            sx == 1,
                            x == x0 + sx * i,
                            x1 == x0 + sx * a,
                            i < a,
                    ;
                } else {
                    assert(x0 + sx * (i + 1) == x - 1 && x - 1 >= x1) by (nonlinear_arith)
                        requires
                            sx == -1,
                            x == x0 + sx * i,
                            x1 == x0 + sx * a,
                            i < a,
                    ;
                }
            }
            err = err + dy;
            x = x + sx;
            proof {
                i = i + 1;
            }
        }
        if e2 <= dx {
            proof {
                if sy == 1 {
                    assert(y0 + sy * (j + 1) == y + 1 && y + 1 <= y1) by (nonlinear_arith)
                        requires
                            sy == 1,
                            y == y0 + sy * j,
                            y1 == y0 + sy * b,
                            j < b,
                    ;
                } else {
                    assert(y0 + sy * (j + 1) == y - 1 && y - 1 >= y1) by (nonlinear_arith)
                        requires
                            sy == -1,
                            y == y0 + sy * j,
                            y1 == y0 + sy * b,
                            j < b,
                    ;
                }
            }
            err = err + dx;
            y = y + sy;
            proof {
                j = j + 1;
            }
        }
        proof {
            let old_fuel = fuel;
            assert(old_fuel > 0);
            fuel = (old_fuel - 1) as nat;
        }
    }
}

} // verus!
