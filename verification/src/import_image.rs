//! Convert an image into canvas cells with the half-block technique: each
//! cell holds two vertically stacked "pixels" via ▀/▄/█, quantized to the
//! 16-color VGA palette (backgrounds limited to the dark 8, as ANSI demands,
//! so the bright pixel of each pair goes to the foreground) or to the full
//! xterm-256 palette.
use vstd::prelude::*;

use crate::canvas::{Canvas, Cell, blank_cell, WIDTH, MAX_ROWS, cell_at, put, lemma_put, grid_wf, blank_rows};
use crate::render_png::{PALETTE, vga_rgb, lemma_palette, rgb256, palette256};
use crate::halfblock::{bayer_value, BAYER4};

verus! {

/// Squared Euclidean distance between two RGB colors.
pub open spec fn dist_spec(a: Seq<u8>, b: Seq<u8>) -> int {
    (a[0] - b[0]) * (a[0] - b[0]) + (a[1] - b[1]) * (a[1] - b[1]) + (a[2] - b[2]) * (a[2] - b[2])
}

/// `best` is the first of the first `n` colors of `pal` nearest to `c`.
pub open spec fn first_nearest(c: Seq<u8>, pal: Seq<Seq<u8>>, n: int, best: int) -> bool {
    &&& 0 <= best < n
    &&& forall|j: int| 0 <= j < n ==> dist_spec(c, pal[best]) <= dist_spec(c, #[trigger] pal[j])
    &&& forall|j: int| 0 <= j < best ==> dist_spec(c, #[trigger] pal[j]) > dist_spec(c, pal[best])
}

/// The VGA palette as a sequence of RGB colors.
pub open spec fn vga_table() -> Seq<Seq<u8>> {
    Seq::new(16, |i: int| vga_rgb(i))
}

/// Squared Euclidean distance between two RGB colors.
pub fn dist(a: [u8; 3], b: [u8; 3]) -> (d: u32)
    ensures
        d == dist_spec(a@, b@),
        d <= 195075,
{
    let dr = a[0] as i32 - b[0] as i32;
    let dg = a[1] as i32 - b[1] as i32;
    let db = a[2] as i32 - b[2] as i32;
    assert(dr * dr <= 65025 && dg * dg <= 65025 && db * db <= 65025) by (nonlinear_arith)
        requires
            -255 <= dr <= 255,
            -255 <= dg <= 255,
            -255 <= db <= 255,
    ;
    assert(dr * dr >= 0 && dg * dg >= 0 && db * db >= 0) by (nonlinear_arith);
    (dr * dr + dg * dg + db * db) as u32
}

/// Nearest palette index among the first `limit` VGA colors (16 for a
/// foreground, 8 for a background); the first such index on ties.
pub fn nearest(c: [u8; 3], limit: usize) -> (r: u8)
    requires
        limit <= 16,
    ensures
        limit >= 1 ==> first_nearest(c@, vga_table(), limit as int, r as int),
        limit == 0 ==> r == 0,
{
    proof {
        lemma_palette();
    }
    let mut best: u8 = 0;
    let mut bd: u32 = u32::MAX;
    let mut i: usize = 0;
    while i < limit
        invariant
            limit <= 16,
            i <= limit,
            forall|k: int| 0 <= k < 16 ==> (#[trigger] PALETTE@[k])@ == vga_rgb(k),
            i == 0 ==> best == 0 && bd == u32::MAX,
            i > 0 ==> best < i && bd == dist_spec(c@, vga_table()[best as int]),
            forall|j: int| 0 <= j < i ==> bd <= dist_spec(c@, #[trigger] vga_table()[j]),
            forall|j: int| 0 <= j < best ==> dist_spec(c@, #[trigger] vga_table()[j]) > bd,
        decreases limit - i,
    {
        let d = dist(c, PALETTE[i]);
        assert(PALETTE@[i as int]@ == vga_table()[i as int]);
        if d < bd {
            bd = d;
            best = i as u8;
        }
        i = i + 1;
    }
    best
}

/// The first of the 16 (or 8) VGA colors nearest to `c`.
pub open spec fn nearest_vga(c: Seq<u8>, n: int) -> u8 {
    choose|b: u8| first_nearest(c, vga_table(), n, b as int)
}

/// There is only one first nearest color.
pub proof fn lemma_first_nearest_unique(c: Seq<u8>, pal: Seq<Seq<u8>>, n: int, b1: int, b2: int)
    requires
        first_nearest(c, pal, n, b1),
        first_nearest(c, pal, n, b2),
    ensures
        b1 == b2,
{
    if b1 < b2 {
        assert(dist_spec(c, pal[b1]) > dist_spec(c, pal[b2]));
    } else if b2 < b1 {
        assert(dist_spec(c, pal[b2]) > dist_spec(c, pal[b1]));
    }
}

fn nearest_of(c: [u8; 3], limit: usize) -> (r: u8)
    requires
        1 <= limit <= 16,
    ensures
        r == nearest_vga(c@, limit as int),
        r < limit,
{
    let r = nearest(c, limit);
    proof {
        let e = nearest_vga(c@, limit as int);
        assert(first_nearest(c@, vga_table(), limit as int, r as int));
        assert(first_nearest(c@, vga_table(), limit as int, e as int));
        lemma_first_nearest_unique(c@, vga_table(), limit as int, r as int, e as int);
    }
    r
}

/// The rounded-down mean of two colors, channel by channel.
pub open spec fn mean_rgb(a: Seq<u8>, b: Seq<u8>) -> Seq<u8> {
    seq![((a[0] + b[0]) / 2) as u8, ((a[1] + b[1]) / 2) as u8, ((a[2] + b[2]) / 2) as u8]
}

/// The best 16-color cell for a (top, bottom) pixel pair: of a full block
/// in the color nearest the pair's mean, an upper half block (top in any
/// of the 16 colors, bottom in a dark one) and a lower half block (bottom
/// in any color, top in a dark one), the first with the least summed
/// squared error; pure black comes out as the blank cell.
pub open spec fn pair_cell_16(top: Seq<u8>, bot: Seq<u8>) -> Cell {
    let f = nearest_vga(mean_rgb(top, bot), 16);
    let e_full = dist_spec(top, vga_rgb(f as int)) + dist_spec(bot, vga_rgb(f as int));
    let uf = nearest_vga(top, 16);
    let ub = nearest_vga(bot, 8);
    let e_upper = dist_spec(top, vga_rgb(uf as int)) + dist_spec(bot, vga_rgb(ub as int));
    let lf = nearest_vga(bot, 16);
    let lb = nearest_vga(top, 8);
    let e_lower = dist_spec(bot, vga_rgb(lf as int)) + dist_spec(top, vga_rgb(lb as int));
    let best = if e_full <= e_upper && e_full <= e_lower {
        Cell { ch: '█', fg: f, bg: 0 }
    } else if e_upper <= e_lower {
        Cell { ch: '▀', fg: uf, bg: ub }
    } else {
        Cell { ch: '▄', fg: lf, bg: lb }
    };
    if best.fg == 0 && best.bg == 0 {
        blank_cell()
    } else {
        best
    }
}

/// A 16-color pair cell never needs a bright background: its background is
/// one of the dark colors 0-7.
pub proof fn lemma_pair_cell_dark_background(top: Seq<u8>, bot: Seq<u8>)
    ensures
        pair_cell_16(top, bot).bg < 8,
        pair_cell_16(top, bot).fg < 16,
{
    let f = nearest_vga(mean_rgb(top, bot), 16);
    let uf = nearest_vga(top, 16);
    let ub = nearest_vga(bot, 8);
    let lf = nearest_vga(bot, 16);
    let lb = nearest_vga(top, 8);
    lemma_nearest_exists(mean_rgb(top, bot), 16);
    lemma_nearest_exists(top, 16);
    lemma_nearest_exists(bot, 8);
    lemma_nearest_exists(bot, 16);
    lemma_nearest_exists(top, 8);
}

/// Every color has a first nearest among the first `n` VGA colors.
pub proof fn lemma_nearest_exists(c: Seq<u8>, n: int)
    requires
        1 <= n <= 16,
    ensures
        first_nearest(c, vga_table(), n, nearest_vga(c, n) as int),
        nearest_vga(c, n) < n,
{
    crate::halfblock::lemma_argmin_first(c, vga_table(), n);
    let m = crate::halfblock::argmin(c, vga_table(), n);
    assert(first_nearest(c, vga_table(), n, (m as u8) as int));
}

/// Pick the best cell for a (top, bottom) pixel pair.
pub fn pair_to_cell(top: [u8; 3], bot: [u8; 3]) -> (c: Cell)
    ensures
        c == pair_cell_16(top@, bot@),
{
    proof {
        lemma_palette();
    }
    let avg: [u8; 3] = [
        ((top[0] as u16 + bot[0] as u16) / 2) as u8,
        ((top[1] as u16 + bot[1] as u16) / 2) as u8,
        ((top[2] as u16 + bot[2] as u16) / 2) as u8,
    ];
    assert(avg@ =~= mean_rgb(top@, bot@));
    let f = nearest_of(avg, 16);
    assert(PALETTE@[f as int]@ == vga_rgb(f as int));
    let e_full = dist(top, PALETTE[f as usize]) + dist(bot, PALETTE[f as usize]);
    let uf = nearest_of(top, 16);
    let ub = nearest_of(bot, 8);
    assert(PALETTE@[uf as int]@ == vga_rgb(uf as int));
    assert(PALETTE@[ub as int]@ == vga_rgb(ub as int));
    let e_upper = dist(top, PALETTE[uf as usize]) + dist(bot, PALETTE[ub as usize]);
    let lf = nearest_of(bot, 16);
    let lb = nearest_of(top, 8);
    assert(PALETTE@[lf as int]@ == vga_rgb(lf as int));
    assert(PALETTE@[lb as int]@ == vga_rgb(lb as int));
    let e_lower = dist(bot, PALETTE[lf as usize]) + dist(top, PALETTE[lb as usize]);
    let best = if e_full <= e_upper && e_full <= e_lower {
        Cell { ch: '█', fg: f, bg: 0 }
    } else if e_upper <= e_lower {
        Cell { ch: '▀', fg: uf, bg: ub }
    } else {
        Cell { ch: '▄', fg: lf, bg: lb }
    };
    if best.fg == 0 && best.bg == 0 {
        Cell::default()
    } else {
        best
    }
}

/// The colors of a 256-entry palette as a sequence.
pub open spec fn palette_seq(pal: [[u8; 3]; 256]) -> Seq<Seq<u8>> {
    Seq::new(256, |i: int| pal@[i]@)
}

/// The first entry of `pal` nearest to `c`.
pub open spec fn nearest_in(c: Seq<u8>, pal: Seq<Seq<u8>>) -> u8 {
    choose|b: u8| first_nearest(c, pal, 256, b as int)
}

/// The 256-color cell for a pixel pair: any color can be a background, so
/// the pair is the nearest palette entries of top and bottom; one color
/// gives a full block (blank for black), two an upper half block.
pub open spec fn pair_cell_256(top: Seq<u8>, bot: Seq<u8>, pal: Seq<Seq<u8>>) -> Cell {
    let t = nearest_in(top, pal);
    let b = nearest_in(bot, pal);
    if t == b {
        if t == 0 {
            blank_cell()
        } else {
            Cell { ch: '█', fg: t, bg: 0 }
        }
    } else {
        Cell { ch: '▀', fg: t, bg: b }
    }
}

fn nearest_256(c: [u8; 3], pal: &[[u8; 3]; 256]) -> (r: u8)
    ensures
        r == nearest_in(c@, palette_seq(*pal)),
{
    let ghost ps = palette_seq(*pal);
    let mut best: u8 = 0;
    let mut bd: u32 = u32::MAX;
    let mut i: usize = 0;
    while i < 256
        invariant
            i <= 256,
            ps == palette_seq(*pal),
            i == 0 ==> best == 0 && bd == u32::MAX,
            i > 0 ==> best < i && bd == dist_spec(c@, ps[best as int]),
            forall|j: int| 0 <= j < i ==> bd <= dist_spec(c@, #[trigger] ps[j]),
            forall|j: int| 0 <= j < best ==> dist_spec(c@, #[trigger] ps[j]) > bd,
        decreases 256 - i,
    {
        let d = dist(c, pal[i]);
        assert(ps[i as int] == pal@[i as int]@);
        if d < bd {
            bd = d;
            best = i as u8;
        }
        i = i + 1;
    }
    proof {
        let e = nearest_in(c@, ps);
        assert(first_nearest(c@, ps, 256, best as int));
        assert(first_nearest(c@, ps, 256, e as int));
        lemma_first_nearest_unique(c@, ps, 256, best as int, e as int);
    }
    best
}

/// 256-color pair: any color can be a background, so no degrade logic.
pub fn pair_to_cell_256(top: [u8; 3], bot: [u8; 3], pal: &[[u8; 3]; 256]) -> (c: Cell)
    ensures
        c == pair_cell_256(top@, bot@, palette_seq(*pal)),
{
    let t = nearest_256(top, pal);
    let b = nearest_256(bot, pal);
    if t == b {
        if t == 0 {
            Cell::default()
        } else {
            Cell { ch: '█', fg: t, bg: 0 }
        }
    } else {
        Cell { ch: '▀', fg: t, bg: b }
    }
}

/// The decoder's error type of the png crate.
#[verifier::external_type_specification]
#[verifier::external_body]
pub struct ExPngDecodingError(png::DecodingError);

/// What the png crate's decoder makes of a file's bytes, with its
/// transformations to 8 bits per channel (palettes expanded): width,
/// height, channels per pixel (1 gray, 2 gray + alpha, 3 RGB, 4 RGBA, 0
/// for any other color type) and the first frame's pixel bytes; `None`
/// when it refuses the file.
pub uninterp spec fn png_image(file: Seq<u8>) -> Option<(u32, u32, u8, Seq<u8>)>;

/// Decode a PNG file's bytes with the png crate: `png::Decoder::new`,
/// `set_transformations(normalize_to_color8())`, `read_info`, then
/// `next_frame` into a buffer of `output_buffer_size()` bytes, cut to the
/// frame's `buffer_size()`. The result is named `png_image`.
#[verifier::external_body]
fn decode_png_rgb8(file: &[u8]) -> (r: Result<(u32, u32, u8, Vec<u8>), png::DecodingError>)
    ensures
        match r {
            Ok(t) => png_image(file@) == Some((t.0, t.1, t.2, t.3@)),
            Err(_) => png_image(file@) is None,
        },
{
    let mut dec = png::Decoder::new(file);
    dec.set_transformations(png::Transformations::normalize_to_color8());
    let mut reader = dec.read_info()?;
    let mut buf = vec![0u8; reader.output_buffer_size()];
    let info = reader.next_frame(&mut buf)?;
    buf.truncate(info.buffer_size());
    let channels: u8 = match info.color_type {
        png::ColorType::Grayscale => 1,
        png::ColorType::GrayscaleAlpha => 2,
        png::ColorType::Rgb => 3,
        png::ColorType::Rgba => 4,
        png::ColorType::Indexed => 0,
    };
    Ok((info.width, info.height, channels, buf))
}

/// An RGB image, row by row.
#[derive(Debug)]
pub struct RgbImage {
    pub width: usize,
    pub height: usize,
    pub pixels: Vec<[u8; 3]>,
}

/// Why an image could not be imported.
#[derive(Debug)]
pub enum ImportError {
    /// The PNG decoder refused the file.
    Decoding(png::DecodingError),
    /// The decoded pixels have a layout other than gray, gray + alpha, RGB
    /// or RGBA.
    UnsupportedColor,
    /// Fewer pixels than width x height.
    ShortData,
}

/// Pixel `k` of decoded bytes with `ch` channels as RGB; alpha is
/// composited over black.
pub open spec fn rgb_of(data: Seq<u8>, ch: int, k: int) -> Seq<u8> {
    if ch == 3 {
        seq![data[3 * k], data[3 * k + 1], data[3 * k + 2]]
    } else if ch == 4 {
        let a = data[4 * k + 3] as int;
        seq![(data[4 * k] * a / 255) as u8, (data[4 * k + 1] * a / 255) as u8, (data[4 * k + 2] * a / 255) as u8]
    } else if ch == 1 {
        seq![data[k], data[k], data[k]]
    } else {
        let v = (data[2 * k] * data[2 * k + 1] / 255) as u8;
        seq![v, v, v]
    }
}

/// The whole pixels of decoded bytes as RGB (a trailing partial pixel is
/// dropped).
pub open spec fn rgb_pixels(data: Seq<u8>, ch: int) -> Seq<Seq<u8>> {
    Seq::new((data.len() as int / ch) as nat, |k: int| rgb_of(data, ch, k))
}

pub open spec fn pixel_views(px: Seq<[u8; 3]>) -> Seq<Seq<u8>> {
    px.map_values(|p: [u8; 3]| p@)
}

fn pixel_rgb(data: &Vec<u8>, ch: usize, k: usize) -> (p: [u8; 3])
    requires
        1 <= ch <= 4,
        k < data@.len() as int / (ch as int),
    ensures
        p@ == rgb_of(data@, ch as int, k as int),
{
    assert(k * ch + ch <= data.len()) by (nonlinear_arith)
        requires
            k < data@.len() as int / (ch as int),
            ch >= 1,
    {
        assert((data@.len() as int / (ch as int)) * ch <= data@.len());
    }
    assert(ch * k + ch <= data.len()) by (nonlinear_arith)
        requires
            k * ch + ch <= data.len(),
    ;
    let p = if ch == 3 {
        [data[3 * k], data[3 * k + 1], data[3 * k + 2]]
    } else if ch == 4 {
        let a = data[4 * k + 3] as u32;
        let r = data[4 * k] as u32;
        let g = data[4 * k + 1] as u32;
        let b = data[4 * k + 2] as u32;
        assert(r * a <= 65025 && g * a <= 65025 && b * a <= 65025) by (nonlinear_arith)
            requires
                r <= 255,
                g <= 255,
                b <= 255,
                a <= 255,
        ;
        [(r * a / 255) as u8, (g * a / 255) as u8, (b * a / 255) as u8]
    } else if ch == 1 {
        [data[k], data[k], data[k]]
    } else {
        let g = data[2 * k] as u32;
        let a = data[2 * k + 1] as u32;
        assert(g * a <= 65025) by (nonlinear_arith)
            requires
                g <= 255,
                a <= 255,
        ;
        let v = (g * a / 255) as u8;
        [v, v, v]
    };
    proof {
        if ch == 4 {
            let a = data@[4 * k + 3] as int;
            assert(data@[4 * k as int] * a / 255 <= 255) by (nonlinear_arith)
                requires
                    0 <= data@[4 * k as int] <= 255,
                    0 <= a <= 255,
            ;
            assert(data@[4 * k + 1] * a / 255 <= 255) by (nonlinear_arith)
                requires
                    0 <= data@[4 * k + 1] <= 255,
                    0 <= a <= 255,
            ;
            assert(data@[4 * k + 2] * a / 255 <= 255) by (nonlinear_arith)
                requires
                    0 <= data@[4 * k + 2] <= 255,
                    0 <= a <= 255,
            ;
        } else if ch == 2 {
            assert(data@[2 * k as int] * data@[2 * k + 1] / 255 <= 255) by (nonlinear_arith)
                requires
                    0 <= data@[2 * k as int] <= 255,
                    0 <= data@[2 * k + 1] <= 255,
            ;
        }
    }
    assert(p@ =~= rgb_of(data@, ch as int, k as int));
    p
}

/// Decoded bytes with `ch` channels as RGB pixels.
fn to_rgb(data: &Vec<u8>, ch: usize) -> (px: Vec<[u8; 3]>)
    requires
        1 <= ch <= 4,
    ensures
        pixel_views(px@) == rgb_pixels(data@, ch as int),
{
    let n = data.len() / ch;
    let mut px: Vec<[u8; 3]> = Vec::new();
    let mut k: usize = 0;
    while k < n
        invariant
            1 <= ch <= 4,
            n == data@.len() as int / (ch as int),
            k <= n,
            px@.len() == k,
            forall|j: int| 0 <= j < k ==> (#[trigger] px@[j])@ == rgb_of(data@, ch as int, j),
        decreases n - k,
    {
        px.push(pixel_rgb(data, ch, k));
        k = k + 1;
    }
    assert(pixel_views(px@) =~= rgb_pixels(data@, ch as int));
    px
}

/// The image a PNG file holds, as `decode_image` returns it: the decoded
/// pixels as RGB when the layout is supported and there are at least
/// width x height of them.
pub open spec fn decoded_image(file: Seq<u8>) -> Option<(int, int, Seq<Seq<u8>>)> {
    match png_image(file) {
        None => None,
        Some(t) => if 1 <= t.2 <= 4 && rgb_pixels(t.3, t.2 as int).len() >= t.0 * t.1 {
            Some((t.0 as int, t.1 as int, rgb_pixels(t.3, t.2 as int)))
        } else {
            None
        },
    }
}

/// Decode a PNG file's bytes to RGB, compositing alpha over black.
pub fn decode_image(file: &[u8]) -> (r: Result<RgbImage, ImportError>)
    ensures
        match r {
            Ok(img) => decoded_image(file@) == Some((img.width as int, img.height as int, pixel_views(img.pixels@)))
                && img.width <= u32::MAX && img.height <= u32::MAX,
            Err(ImportError::Decoding(_)) => png_image(file@) is None,
            Err(ImportError::UnsupportedColor) => png_image(file@) matches Some(t) && !(1 <= t.2 <= 4),
            Err(ImportError::ShortData) => png_image(file@) matches Some(t) && 1 <= t.2 <= 4 && rgb_pixels(
                t.3,
                t.2 as int,
            ).len() < t.0 * t.1,
        },
{
    let (w, h, ch, data) = match decode_png_rgb8(file) {
        Ok(t) => t,
        Err(e) => {
            return Err(ImportError::Decoding(e));
        },
    };
    if ch < 1 || ch > 4 {
        return Err(ImportError::UnsupportedColor);
    }
    let pixels = to_rgb(&data, ch as usize);
    let sw = w as usize;
    let sh = h as usize;
    assert((w as u128) * (h as u128) <= 0xFFFF_FFFF_FFFF_FFFF_FFFF_FFFF_FFFF_FFFFu128) by (nonlinear_arith)
        requires
            w <= u32::MAX,
            h <= u32::MAX,
    ;
    if (pixels.len() as u128) < (w as u128) * (h as u128) {
        return Err(ImportError::ShortData);
    }
    Ok(RgbImage { width: sw, height: sh, pixels })
}

/// The source window (x, y, width, height) that an import reads: the
/// whole image, or the crop rectangle with its corner moved inside the
/// image and its size clamped to 1 up to what fits.
pub open spec fn window(sw: int, sh: int, crop: Option<(usize, usize, usize, usize)>) -> (int, int, int, int) {
    match crop {
        None => (0, 0, sw, sh),
        Some(c) => {
            let mx = if sw >= 1 { sw - 1 } else { 0 };
            let my = if sh >= 1 { sh - 1 } else { 0 };
            let cx = if c.0 < mx { c.0 as int } else { mx };
            let cy = if c.1 < my { c.1 as int } else { my };
            let cw = if c.2 < 1 { 1 } else if c.2 > sw - cx { sw - cx } else { c.2 as int };
            let ch = if c.3 < 1 { 1 } else if c.3 > sh - cy { sh - cy } else { c.3 as int };
            (cx, cy, cw, ch)
        },
    }
}

/// The source window of an import: the whole `sw` x `sh` image, or the
/// given crop rectangle fitted inside it.
pub fn crop_window(sw: usize, sh: usize, crop: Option<(usize, usize, usize, usize)>) -> (r: (usize, usize, usize, usize))
    requires
        crop is Some ==> sw >= 1 && sh >= 1,
    ensures
        (r.0 as int, r.1 as int, r.2 as int, r.3 as int) == window(sw as int, sh as int, crop),
        crop is Some ==> 1 <= r.2 && r.0 + r.2 <= sw && 1 <= r.3 && r.1 + r.3 <= sh,
{
    match crop {
        None => (0, 0, sw, sh),
        Some((cx, cy, cw, ch)) => {
            let mx = if sw >= 1 {
                sw - 1
            } else {
                0
            };
            let my = if sh >= 1 {
                sh - 1
            } else {
                0
            };
            let cx = if cx < mx {
                cx
            } else {
                mx
            };
            let cy = if cy < my {
                cy
            } else {
                my
            };
            let cw = if cw < 1 {
                1
            } else if cw > sw - cx {
                sw - cx
            } else {
                cw
            };
            let ch = if ch < 1 {
                1
            } else if ch > sh - cy {
                sh - cy
            } else {
                ch
            };
            (cx, cy, cw, ch)
        },
    }
}

/// The first index of the box of sample `p` of `n` over `size` source
/// pixels.
pub open spec fn box_lo(p: int, size: int, n: int) -> int {
    p * size / n
}

/// One past the last index of the box: the end rounded up, within the
/// source, and at least one pixel wide.
pub open spec fn box_hi(p: int, size: int, n: int) -> int {
    let c = ((p + 1) * size + n - 1) / n;
    let m = if c < size { c } else { size };
    if m < box_lo(p, size, n) + 1 {
        box_lo(p, size, n) + 1
    } else {
        m
    }
}

/// The sum of `f` over source row `y`, columns `x0..x`.
pub open spec fn row_total(img: Seq<Seq<u8>>, stride: int, y: int, x0: int, x: int, f: spec_fn(Seq<u8>) -> int) -> int
    decreases x - x0,
{
    if x <= x0 {
        0
    } else {
        row_total(img, stride, y, x0, x - 1, f) + f(img[y * stride + x - 1])
    }
}

/// The sum of `f` over source rows `y0..y`, columns `x0..x1`.
pub open spec fn box_total(
    img: Seq<Seq<u8>>,
    stride: int,
    x0: int,
    x1: int,
    y0: int,
    y: int,
    f: spec_fn(Seq<u8>) -> int,
) -> int
    decreases y - y0,
{
    if y <= y0 {
        0
    } else {
        box_total(img, stride, x0, x1, y0, y - 1, f) + row_total(img, stride, y - 1, x0, x1, f)
    }
}

/// The channels and the near-black test (1 when every channel is below
/// 80) as summands.
pub open spec fn red() -> spec_fn(Seq<u8>) -> int {
    |p: Seq<u8>| p[0] as int
}

pub open spec fn green() -> spec_fn(Seq<u8>) -> int {
    |p: Seq<u8>| p[1] as int
}

pub open spec fn blue() -> spec_fn(Seq<u8>) -> int {
    |p: Seq<u8>| p[2] as int
}

pub open spec fn dark() -> spec_fn(Seq<u8>) -> int {
    |p: Seq<u8>|
        if p[0] < 80 && p[1] < 80 && p[2] < 80 {
            1int
        } else {
            0int
        }
}

/// The color of target pixel (px, py) of a `pw` x `ph` grid sampled from
/// the `w` x `h` window at (ox, oy): the mean (rounded down) of its source
/// box; with `ink`, black when at least a quarter of the box is near-black.
pub open spec fn sample_color(
    img: Seq<Seq<u8>>,
    stride: int,
    ox: int,
    oy: int,
    w: int,
    h: int,
    pw: int,
    ph: int,
    px: int,
    py: int,
    ink: bool,
) -> Seq<u8> {
    let x0 = ox + box_lo(px, w, pw);
    let x1 = ox + box_hi(px, w, pw);
    let y0 = oy + box_lo(py, h, ph);
    let y1 = oy + box_hi(py, h, ph);
    let n = (x1 - x0) * (y1 - y0);
    if ink && box_total(img, stride, x0, x1, y0, y1, dark()) * 4 >= n {
        seq![0u8, 0u8, 0u8]
    } else {
        seq![
            (box_total(img, stride, x0, x1, y0, y1, red()) / n) as u8,
            (box_total(img, stride, x0, x1, y0, y1, green()) / n) as u8,
            (box_total(img, stride, x0, x1, y0, y1, blue()) / n) as u8,
        ]
    }
}

proof fn lemma_box_bounds(p: int, size: int, n: int)
    requires
        0 <= p < n,
        size >= 1,
    ensures
        0 <= box_lo(p, size, n) < box_hi(p, size, n) <= size,
{
    assert(0 <= p * size / n < size) by (nonlinear_arith)
        requires
            0 <= p < n,
            size >= 1,
    {
        assert(p * size <= (n - 1) * size);
        assert((n - 1) * size < n * size);
        assert(p * size / n <= p * size / n);
    }
}

fn box_lo_exec(p: u64, size: u64, n: u64) -> (r: u64)
    requires
        n >= 1,
        p < n,
        1 <= size <= u32::MAX,
        n <= 2000,
    ensures
        r == box_lo(p as int, size as int, n as int),
        r < size,
{
    proof {
        lemma_box_bounds(p as int, size as int, n as int);
    }
    assert(p * size <= 2000 * 0xFFFF_FFFF) by (nonlinear_arith)
        requires
            p < 2000,
            size <= u32::MAX,
    ;
    p * size / n
}

fn box_hi_exec(p: u64, size: u64, n: u64) -> (r: u64)
    requires
        n >= 1,
        p < n,
        1 <= size <= u32::MAX,
        n <= 2000,
    ensures
        r == box_hi(p as int, size as int, n as int),
{
    assert((p + 1) * size <= 2000 * 0xFFFF_FFFF) by (nonlinear_arith)
        requires
            p < 2000,
            size <= u32::MAX,
    ;
    let c = ((p + 1) * size + n - 1) / n;
    let m = if c < size {
        c
    } else {
        size
    };
    let lo = box_lo_exec(p, size, n);
    if m < lo + 1 {
        lo + 1
    } else {
        m
    }
}

proof fn lemma_row_total_bound(img: Seq<Seq<u8>>, stride: int, y: int, x0: int, x: int, f: spec_fn(Seq<u8>) -> int, hi: int)
    requires
        x0 <= x,
        forall|p: Seq<u8>| 0 <= #[trigger] f(p) <= hi,
    ensures
        0 <= row_total(img, stride, y, x0, x, f) <= hi * (x - x0),
    decreases x - x0,
{
    if x > x0 {
        lemma_row_total_bound(img, stride, y, x0, x - 1, f, hi);
        assert(hi * (x - 1 - x0) + hi == hi * (x - x0)) by (nonlinear_arith);
        assert(0 <= f(img[y * stride + x - 1]) <= hi);
    }
}

/// The sums of red, green, blue and near-black pixels over a source box.
fn box_sums(img: &RgbImage, x0: usize, x1: usize, y0: usize, y1: usize) -> (r: (u64, u64, u64, u64))
    requires
        x0 < x1 <= img.width,
        y0 < y1 <= img.height,
        img.width * img.height <= img.pixels.len(),
        img.pixels@.len() <= 0x1_0000_0000_0000,
    ensures
        ({
            let v = pixel_views(img.pixels@);
            let st = img.width as int;
            &&& r.0 == box_total(v, st, x0 as int, x1 as int, y0 as int, y1 as int, red())
            &&& r.1 == box_total(v, st, x0 as int, x1 as int, y0 as int, y1 as int, green())
            &&& r.2 == box_total(v, st, x0 as int, x1 as int, y0 as int, y1 as int, blue())
            &&& r.3 == box_total(v, st, x0 as int, x1 as int, y0 as int, y1 as int, dark())
            &&& r.0 <= 255 * ((y1 - y0) * (x1 - x0))
            &&& r.1 <= 255 * ((y1 - y0) * (x1 - x0))
            &&& r.2 <= 255 * ((y1 - y0) * (x1 - x0))
            &&& r.3 <= (y1 - y0) * (x1 - x0)
        }),
{
    let ghost v = pixel_views(img.pixels@);
    let ghost st = img.width as int;
    let stride = img.width;
    let mut r: u64 = 0;
    let mut g: u64 = 0;
    let mut b: u64 = 0;
    let mut dk: u64 = 0;
    let mut y: usize = y0;
    while y < y1
        invariant
            x0 < x1 <= img.width,
            y0 <= y <= y1 <= img.height,
            stride == img.width,
            st == stride,
            v == pixel_views(img.pixels@),
            img.width * img.height <= img.pixels.len(),
            img.pixels@.len() <= 0x1_0000_0000_0000,
            r == box_total(v, st, x0 as int, x1 as int, y0 as int, y as int, red()),
            g == box_total(v, st, x0 as int, x1 as int, y0 as int, y as int, green()),
            b == box_total(v, st, x0 as int, x1 as int, y0 as int, y as int, blue()),
            dk == box_total(v, st, x0 as int, x1 as int, y0 as int, y as int, dark()),
            r <= 255 * ((y - y0) * (x1 - x0)),
            g <= 255 * ((y - y0) * (x1 - x0)),
            b <= 255 * ((y - y0) * (x1 - x0)),
            dk <= (y - y0) * (x1 - x0),
        decreases y1 - y,
    {
        assert((y - y0) * (x1 - x0) <= img.height * img.width) by (nonlinear_arith)
            requires
                y0 <= y < y1 <= img.height,
                x0 < x1 <= img.width,
        ;
        let ghost r0 = r;
        let ghost g0 = g;
        let ghost b0 = b;
        let ghost d0 = dk;
        let mut x: usize = x0;
        while x < x1
            invariant
                x0 <= x <= x1 <= img.width,
                y0 <= y < y1 <= img.height,
                stride == img.width,
                st == stride,
                v == pixel_views(img.pixels@),
                img.width * img.height <= img.pixels.len(),
                img.pixels@.len() <= 0x1_0000_0000_0000,
                (y - y0) * (x1 - x0) <= img.height * img.width,
                r0 <= 255 * ((y - y0) * (x1 - x0)),
                g0 <= 255 * ((y - y0) * (x1 - x0)),
                b0 <= 255 * ((y - y0) * (x1 - x0)),
                d0 <= (y - y0) * (x1 - x0),
                r == r0 + row_total(v, st, y as int, x0 as int, x as int, red()),
                g == g0 + row_total(v, st, y as int, x0 as int, x as int, green()),
                b == b0 + row_total(v, st, y as int, x0 as int, x as int, blue()),
                dk == d0 + row_total(v, st, y as int, x0 as int, x as int, dark()),
                r <= r0 + 255 * (x - x0),
                g <= g0 + 255 * (x - x0),
                b <= b0 + 255 * (x - x0),
                dk <= d0 + (x - x0),
            decreases x1 - x,
        {
            assert(y * stride + x < img.height * img.width) by (nonlinear_arith)
                requires
                    y < img.height,
                    x < img.width,
                    stride == img.width,
            ;
            assert(((y - y0) * (x1 - x0) + (x - x0)) <= img.height * img.width) by (nonlinear_arith)
                requires
                    y0 <= y < y1 <= img.height,
                    x0 <= x < x1 <= img.width,
            ;
            let p = img.pixels[y * stride + x];
            assert(v[y * st + x] == p@);
            r = r + p[0] as u64;
            g = g + p[1] as u64;
            b = b + p[2] as u64;
            if p[0] < 80 && p[1] < 80 && p[2] < 80 {
                dk = dk + 1;
            }
            x = x + 1;
        }
        assert((y - y0) * (x1 - x0) + (x1 - x0) == (y + 1 - y0) * (x1 - x0)) by (nonlinear_arith);
        y = y + 1;
    }
    (r, g, b, dk)
}

/// The image constraints an import works within: width and height from
/// a PNG header, the pixels all there, and the channel sums of any box
/// within 64 bits.
pub open spec fn image_ok(img: &RgbImage) -> bool {
    &&& img.width <= u32::MAX
    &&& img.height <= u32::MAX
    &&& img.width * img.height <= img.pixels.len()
    &&& img.pixels@.len() <= 0x1_0000_0000_0000
}

/// The window (x, y, w, h) lies inside the image and is not empty.
pub open spec fn window_ok(img: &RgbImage, win: (usize, usize, usize, usize)) -> bool {
    &&& 1 <= win.2
    &&& 1 <= win.3
    &&& win.0 + win.2 <= img.width
    &&& win.1 + win.3 <= img.height
}

proof fn lemma_row_uniform(img: Seq<Seq<u8>>, stride: int, y: int, x0: int, x: int, f: spec_fn(Seq<u8>) -> int, c: Seq<u8>)
    requires
        x0 <= x,
        forall|xx: int| x0 <= xx < x ==> #[trigger] img[y * stride + xx] == c,
    ensures
        row_total(img, stride, y, x0, x, f) == (x - x0) * f(c),
    decreases x - x0,
{
    if x > x0 {
        lemma_row_uniform(img, stride, y, x0, x - 1, f, c);
        let i = y * stride + x - 1;
        assert(i == y * stride + (x - 1));
        assert(img[i] == c);
        assert(row_total(img, stride, y, x0, x, f) == row_total(img, stride, y, x0, x - 1, f) + f(img[i]));
        assert((x - 1 - x0) * f(c) + f(c) == (x - x0) * f(c)) by (nonlinear_arith);
    } else {
        assert((x - x0) * f(c) == 0) by (nonlinear_arith)
            requires
                x == x0,
        ;
    }
}

proof fn lemma_box_uniform(
    img: Seq<Seq<u8>>,
    stride: int,
    x0: int,
    x1: int,
    y0: int,
    y: int,
    f: spec_fn(Seq<u8>) -> int,
    c: Seq<u8>,
)
    requires
        x0 <= x1,
        y0 <= y,
        forall|xx: int, yy: int| x0 <= xx < x1 && y0 <= yy < y ==> #[trigger] img[yy * stride + xx] == c,
    ensures
        box_total(img, stride, x0, x1, y0, y, f) == (x1 - x0) * (y - y0) * f(c),
    decreases y - y0,
{
    if y > y0 {
        lemma_box_uniform(img, stride, x0, x1, y0, y - 1, f, c);
        assert forall|xx: int| x0 <= xx < x1 implies #[trigger] img[(y - 1) * stride + xx] == c by {
            assert(img[(y - 1) * stride + xx] == c);
        }
        lemma_row_uniform(img, stride, y - 1, x0, x1, f, c);
        assert((x1 - x0) * (y - 1 - y0) * f(c) + (x1 - x0) * f(c) == (x1 - x0) * (y - y0) * f(c))
            by (nonlinear_arith);
    } else {
        assert((x1 - x0) * (y - y0) * f(c) == 0) by (nonlinear_arith)
            requires
                y == y0,
        ;
    }
}

/// Every source pixel a target pixel takes its color from lies inside the
/// window: when the whole window shows one color `c`, every target pixel
/// samples exactly `c` (or black, with `ink`, when `c` is near-black).
pub proof fn lemma_sample_uniform(
    img: Seq<Seq<u8>>,
    stride: int,
    ox: int,
    oy: int,
    w: int,
    h: int,
    pw: int,
    ph: int,
    px: int,
    py: int,
    ink: bool,
    c: Seq<u8>,
)
    requires
        1 <= w,
        1 <= h,
        0 <= px < pw,
        0 <= py < ph,
        c.len() == 3,
        forall|x: int, y: int| ox <= x < ox + w && oy <= y < oy + h ==> #[trigger] img[y * stride + x] == c,
    ensures
        sample_color(img, stride, ox, oy, w, h, pw, ph, px, py, ink) == (if ink && c[0] < 80 && c[1] < 80
            && c[2] < 80 {
            seq![0u8, 0u8, 0u8]
        } else {
            c
        }),
{
    lemma_box_bounds(px, w, pw);
    lemma_box_bounds(py, h, ph);
    let x0 = ox + box_lo(px, w, pw);
    let x1 = ox + box_hi(px, w, pw);
    let y0 = oy + box_lo(py, h, ph);
    let y1 = oy + box_hi(py, h, ph);
    let n = (x1 - x0) * (y1 - y0);
    assert forall|xx: int, yy: int| x0 <= xx < x1 && y0 <= yy < y1 implies #[trigger] img[yy * stride + xx] == c by {
        assert(img[yy * stride + xx] == c);
    }
    lemma_box_uniform(img, stride, x0, x1, y0, y1, red(), c);
    lemma_box_uniform(img, stride, x0, x1, y0, y1, green(), c);
    lemma_box_uniform(img, stride, x0, x1, y0, y1, blue(), c);
    lemma_box_uniform(img, stride, x0, x1, y0, y1, dark(), c);
    assert(n >= 1) by (nonlinear_arith)
        requires
            x0 < x1,
            y0 < y1,
            n == (x1 - x0) * (y1 - y0),
    ;
    let r = red()(c);
    let gr = green()(c);
    let bl = blue()(c);
    let dk = dark()(c);
    assert(n * r / n == r && n * gr / n == gr && n * bl / n == bl) by (nonlinear_arith)
        requires
            n >= 1,
    ;
    assert((dk == 1 ==> n * dk * 4 >= n) && (dk == 0 ==> !(n * dk * 4 >= n))) by (nonlinear_arith)
        requires
            n >= 1,
    ;
    assert((x1 - x0) * (y1 - y0) * r == n * r);
    assert((x1 - x0) * (y1 - y0) * gr == n * gr);
    assert((x1 - x0) * (y1 - y0) * bl == n * bl);
    assert((x1 - x0) * (y1 - y0) * dk == n * dk);
    if !(ink && c[0] < 80 && c[1] < 80 && c[2] < 80) {
        assert(sample_color(img, stride, ox, oy, w, h, pw, ph, px, py, ink) =~= c);
    }
}

fn sample(img: &RgbImage, win: (usize, usize, usize, usize), pw: usize, ph: usize, px: usize, py: usize, ink: bool) -> (c: [u8; 3])
    requires
        image_ok(img),
        window_ok(img, win),
        1 <= pw <= WIDTH,
        1 <= ph <= 2000,
        px < pw,
        py < ph,
    ensures
        c@ == sample_color(
            pixel_views(img.pixels@),
            img.width as int,
            win.0 as int,
            win.1 as int,
            win.2 as int,
            win.3 as int,
            pw as int,
            ph as int,
            px as int,
            py as int,
            ink,
        ),
{
    let (ox, oy, w, h) = win;
    proof {
        lemma_box_bounds(px as int, w as int, pw as int);
        lemma_box_bounds(py as int, h as int, ph as int);
    }
    let x0 = ox + box_lo_exec(px as u64, w as u64, pw as u64) as usize;
    let x1 = ox + box_hi_exec(px as u64, w as u64, pw as u64) as usize;
    let y0 = oy + box_lo_exec(py as u64, h as u64, ph as u64) as usize;
    let y1 = oy + box_hi_exec(py as u64, h as u64, ph as u64) as usize;
    let (r, g, b, dk) = box_sums(img, x0, x1, y0, y1);
    assert((y1 - y0) * (x1 - x0) <= img.width * img.height) by (nonlinear_arith)
        requires
            y0 < y1 <= img.height,
            x0 < x1 <= img.width,
    ;
    assert((y1 - y0) * (x1 - x0) >= 1) by (nonlinear_arith)
        requires
            y0 < y1,
            x0 < x1,
    ;
    assert((x1 - x0) * (y1 - y0) == (y1 - y0) * (x1 - x0)) by (nonlinear_arith);
    let n = ((y1 - y0) * (x1 - x0)) as u64;
    if ink && dk * 4 >= n {
        let c = [0u8, 0u8, 0u8];
        assert(c@ =~= seq![0u8, 0u8, 0u8]);
        c
    } else {
        assert(r / n <= 255 && g / n <= 255 && b / n <= 255) by (nonlinear_arith)
            requires
                r <= 255 * n,
                g <= 255 * n,
                b <= 255 * n,
                n >= 1,
        ;
        let c = [(r / n) as u8, (g / n) as u8, (b / n) as u8];
        assert(c@ =~= sample_color(
            pixel_views(img.pixels@),
            img.width as int,
            ox as int,
            oy as int,
            w as int,
            h as int,
            pw as int,
            ph as int,
            px as int,
            py as int,
            ink,
        ));
        c
    }
}

/// The Bayer offset of pixel (x, y) in quarters of a level: the float
/// offset `((b + 0.5) / 16 - 0.5) * amplitude`, with amplitude 96 for 16
/// colors and 24 for 256, is exactly `(6b - 45)` or `(6b - 45) / 4` levels.
pub open spec fn bayer_quarters(x: int, y: int, colors256: bool) -> int {
    let b = bayer_value(x, y) as int;
    if colors256 {
        6 * b - 45
    } else {
        24 * b - 180
    }
}

/// A channel moved by `q` quarter levels, clamped to 0-255 and rounded
/// toward zero.
pub open spec fn shifted(v: u8, q: int) -> u8 {
    let t = 4 * v + q;
    if t <= 0 {
        0
    } else if t >= 1020 {
        255
    } else {
        (t / 4) as u8
    }
}

/// A sampled color with the ordered-dither offset of pixel (x, y) applied
/// to each channel (unchanged without `dither`).
pub open spec fn shaded(c: Seq<u8>, x: int, y: int, dither: bool, colors256: bool) -> Seq<u8> {
    if !dither {
        c
    } else {
        let q = bayer_quarters(x, y, colors256);
        seq![shifted(c[0], q), shifted(c[1], q), shifted(c[2], q)]
    }
}

fn shift_channel(v: u8, q: i32) -> (r: u8)
    requires
        -180 <= q <= 180,
    ensures
        r == shifted(v, q as int),
{
    let t = 4 * (v as i32) + q;
    if t <= 0 {
        0
    } else if t >= 1020 {
        255
    } else {
        (t / 4) as u8
    }
}

fn shade(c: [u8; 3], x: usize, y: usize, dither: bool, colors256: bool) -> (r: [u8; 3])
    ensures
        r@ == shaded(c@, x as int, y as int, dither, colors256),
{
    if !dither {
        return c;
    }
    let b = BAYER4[y % 4][x % 4] as i32;
    assert(b <= 15) by {
        assert(forall|i: int, j: int| 0 <= i < 4 && 0 <= j < 4 ==> BAYER4@[i]@[j] <= 15);
    }
    let q = if colors256 {
        6 * b - 45
    } else {
        24 * b - 180
    };
    let r = [shift_channel(c[0], q), shift_channel(c[1], q), shift_channel(c[2], q)];
    assert(r@ =~= shaded(c@, x as int, y as int, dither, colors256));
    r
}

/// The xterm-256 palette as a sequence of RGB colors.
pub open spec fn xterm_table() -> Seq<Seq<u8>> {
    Seq::new(256, |i: int| rgb256(i as u8))
}

/// The cell at column `x`, row `cy` of an import: the shaded samples of
/// pixel rows `2 cy` and `2 cy + 1` (black below the last pixel row),
/// quantized to 16 or 256 colors.
pub open spec fn import_cell(
    img: Seq<Seq<u8>>,
    stride: int,
    win: (usize, usize, usize, usize),
    pw: int,
    ph: int,
    x: int,
    cy: int,
    dither: bool,
    ink: bool,
    colors256: bool,
) -> Cell {
    let top = shaded(
        sample_color(img, stride, win.0 as int, win.1 as int, win.2 as int, win.3 as int, pw, ph, x, 2 * cy, ink),
        x,
        2 * cy,
        dither,
        colors256,
    );
    let bot = if 2 * cy + 1 < ph {
        shaded(
            sample_color(img, stride, win.0 as int, win.1 as int, win.2 as int, win.3 as int, pw, ph, x, 2 * cy + 1, ink),
            x,
            2 * cy + 1,
            dither,
            colors256,
        )
    } else {
        seq![0u8, 0u8, 0u8]
    };
    if colors256 {
        pair_cell_256(top, bot, xterm_table())
    } else {
        pair_cell_16(top, bot)
    }
}

fn xterm_palette() -> (pal: [[u8; 3]; 256])
    ensures
        palette_seq(pal) == xterm_table(),
{
    let mut pal = [[0u8; 3]; 256];
    let mut i: usize = 0;
    while i < 256
        invariant
            i <= 256,
            forall|j: int| 0 <= j < i ==> (#[trigger] pal@[j])@ == rgb256(j as u8),
        decreases 256 - i,
    {
        pal[i] = palette256(i as u8);
        i = i + 1;
    }
    assert(palette_seq(pal) =~= xterm_table());
    pal
}

/// Convert the `win` window of an image into a canvas `cols` cells wide
/// (clamped to 1-80) and `ph` pixel rows tall, two pixel rows per cell row:
/// each sample is the mean of its source box (with `ink`, near-black boxes
/// snap to black), Bayer-shaded with `dither`, and each pair of samples
/// becomes the best half-block cell in 16 or 256 colors.
pub fn import_pixels(
    img: &RgbImage,
    win: (usize, usize, usize, usize),
    cols: usize,
    ph: usize,
    dither: bool,
    ink: bool,
    colors256: bool,
) -> (c: Canvas)
    requires
        image_ok(img),
        window_ok(img, win),
        2 <= ph <= 2000,
    ensures
        c.wf(),
        c@.len() == (ph + 1) / 2,
        ({
            let pw: int = if cols < 1 { 1 } else if cols > WIDTH { WIDTH as int } else { cols as int };
            forall|x: int, y: int| #[trigger]
                cell_at(c@, x, y) == if 0 <= x < pw && 0 <= y < (ph + 1) / 2 {
                    import_cell(pixel_views(img.pixels@), img.width as int, win, pw, ph as int, x, y, dither, ink, colors256)
                } else {
                    blank_cell()
                }
        }),
{
    let pw = if cols < 1 {
        1
    } else if cols > WIDTH {
        WIDTH
    } else {
        cols
    };
    let pal = xterm_palette();
    let rows = (ph + 1) / 2;
    let mut canvas = Canvas::new(rows);
    let ghost v0 = canvas@;
    let mut cy: usize = 0;
    while cy < rows
        invariant
            image_ok(img),
            window_ok(img, win),
            2 <= ph <= 2000,
            rows == (ph + 1) / 2,
            1 <= pw <= WIDTH,
            pw == (if cols < 1 { 1 } else if cols > WIDTH { WIDTH as int } else { cols as int }),
            palette_seq(pal) == xterm_table(),
            canvas.wf(),
            canvas@.len() == rows,
            cy <= rows,
            forall|x: int, y: int| #[trigger]
                cell_at(canvas@, x, y) == if 0 <= x < pw && 0 <= y < cy {
                    import_cell(pixel_views(img.pixels@), img.width as int, win, pw as int, ph as int, x, y, dither, ink, colors256)
                } else {
                    blank_cell()
                },
        decreases rows - cy,
    {
        let mut x: usize = 0;
        while x < pw
            invariant
                image_ok(img),
                window_ok(img, win),
                2 <= ph <= 2000,
                rows == (ph + 1) / 2,
                1 <= pw <= WIDTH,
                palette_seq(pal) == xterm_table(),
                canvas.wf(),
                canvas@.len() == rows,
                cy < rows,
                x <= pw,
                forall|x2: int, y: int| #[trigger]
                    cell_at(canvas@, x2, y) == if 0 <= x2 < pw && (0 <= y < cy || (y == cy && x2 < x)) {
                        import_cell(pixel_views(img.pixels@), img.width as int, win, pw as int, ph as int, x2, y, dither, ink, colors256)
                    } else {
                        blank_cell()
                    },
            decreases pw - x,
        {
            let top = shade(sample(img, win, pw, ph, x, cy * 2, ink), x, cy * 2, dither, colors256);
            let bot = if cy * 2 + 1 < ph {
                shade(sample(img, win, pw, ph, x, cy * 2 + 1, ink), x, cy * 2 + 1, dither, colors256)
            } else {
                [0u8, 0u8, 0u8]
            };
            assert(cy * 2 + 1 >= ph ==> bot@ =~= seq![0u8, 0u8, 0u8]);
            let cell = if colors256 {
                pair_to_cell_256(top, bot, &pal)
            } else {
                pair_to_cell(top, bot)
            };
            proof {
                lemma_put(canvas@, x as int, cy as int, cell);
            }
            canvas.set(x, cy, cell);
            x = x + 1;
        }
        cy = cy + 1;
    }
    canvas
}

} // verus!
