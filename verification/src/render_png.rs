//! Render the canvas to pixels with an 8x16 bitmap font (the classic VGA
//! one, 16 bytes per CP437 glyph, one bit per pixel, most significant bit
//! leftmost) and the VGA / xterm-256 palette, and encode the result as PNG.
use vstd::prelude::*;

use crate::canvas::{Canvas, Cell, WIDTH, cell_at, last_used, lemma_last_used_below};
use crate::cp437::{char_to_byte, encoded};
use vstd::arithmetic::div_mod::lemma_fundamental_div_mod_converse;

verus! {

pub const CELL_W: usize = 8;

pub const CELL_H: usize = 16;

/// The VGA text-mode palette.
pub const PALETTE: [[u8; 3]; 16] = [
    [0x00, 0x00, 0x00],  // black
    [0x00, 0x00, 0xAA],  // blue
    [0x00, 0xAA, 0x00],  // green
    [0x00, 0xAA, 0xAA],  // cyan
    [0xAA, 0x00, 0x00],  // red
    [0xAA, 0x00, 0xAA],  // magenta
    [0xAA, 0x55, 0x00],  // brown
    [0xAA, 0xAA, 0xAA],  // light gray
    [0x55, 0x55, 0x55],  // dark gray
    [0x55, 0x55, 0xFF],  // light blue
    [0x55, 0xFF, 0x55],  // light green
    [0x55, 0xFF, 0xFF],  // light cyan
    [0xFF, 0x55, 0x55],  // light red
    [0xFF, 0x55, 0xFF],  // light magenta
    [0xFF, 0xFF, 0x55],  // yellow
    [0xFF, 0xFF, 0xFF],  // white
];

/// RGB of the VGA color `i` (0-15).
pub open spec fn vga_rgb(i: int) -> Seq<u8> {
    if i == 0 {
        seq![0x00u8, 0x00, 0x00]
    } else if i == 1 {
        seq![0x00u8, 0x00, 0xAA]
    } else if i == 2 {
        seq![0x00u8, 0xAA, 0x00]
    } else if i == 3 {
        seq![0x00u8, 0xAA, 0xAA]
    } else if i == 4 {
        seq![0xAAu8, 0x00, 0x00]
    } else if i == 5 {
        seq![0xAAu8, 0x00, 0xAA]
    } else if i == 6 {
        seq![0xAAu8, 0x55, 0x00]
    } else if i == 7 {
        seq![0xAAu8, 0xAA, 0xAA]
    } else if i == 8 {
        seq![0x55u8, 0x55, 0x55]
    } else if i == 9 {
        seq![0x55u8, 0x55, 0xFF]
    } else if i == 10 {
        seq![0x55u8, 0xFF, 0x55]
    } else if i == 11 {
        seq![0x55u8, 0xFF, 0xFF]
    } else if i == 12 {
        seq![0xFFu8, 0x55, 0x55]
    } else if i == 13 {
        seq![0xFFu8, 0x55, 0xFF]
    } else if i == 14 {
        seq![0xFFu8, 0xFF, 0x55]
    } else {
        seq![0xFFu8, 0xFF, 0xFF]
    }
}

/// The palette table holds the VGA colors.
pub proof fn lemma_palette()
    ensures
        forall|i: int| 0 <= i < 16 ==> (#[trigger] PALETTE@[i])@ == vga_rgb(i),
{
    assert(PALETTE@[0]@ =~= vga_rgb(0));
    assert(PALETTE@[1]@ =~= vga_rgb(1));
    assert(PALETTE@[2]@ =~= vga_rgb(2));
    assert(PALETTE@[3]@ =~= vga_rgb(3));
    assert(PALETTE@[4]@ =~= vga_rgb(4));
    assert(PALETTE@[5]@ =~= vga_rgb(5));
    assert(PALETTE@[6]@ =~= vga_rgb(6));
    assert(PALETTE@[7]@ =~= vga_rgb(7));
    assert(PALETTE@[8]@ =~= vga_rgb(8));
    assert(PALETTE@[9]@ =~= vga_rgb(9));
    assert(PALETTE@[10]@ =~= vga_rgb(10));
    assert(PALETTE@[11]@ =~= vga_rgb(11));
    assert(PALETTE@[12]@ =~= vga_rgb(12));
    assert(PALETTE@[13]@ =~= vga_rgb(13));
    assert(PALETTE@[14]@ =~= vga_rgb(14));
    assert(PALETTE@[15]@ =~= vga_rgb(15));
}

/// One channel level of the xterm-256 color cube (0-5).
pub open spec fn cube_level(v: int) -> u8 {
    if v == 0 {
        0
    } else {
        (55 + 40 * v) as u8
    }
}

/// RGB for an xterm-256 palette index: 0-15 VGA, 16-231 the 6x6x6 color
/// cube, 232-255 the grayscale ramp.
pub open spec fn rgb256(i: u8) -> Seq<u8> {
    if i < 16 {
        vga_rgb(i as int)
    } else if i <= 231 {
        let n = i - 16;
        seq![cube_level(n / 36), cube_level((n / 6) % 6), cube_level(n % 6)]
    } else {
        let v = (8 + 10 * (i - 232)) as u8;
        seq![v, v, v]
    }
}

fn cube_channel(v: u8) -> (r: u8)
    requires
        v < 6,
    ensures
        r == cube_level(v as int),
{
    if v == 0 {
        0
    } else {
        55 + 40 * v
    }
}

/// RGB for any xterm-256 palette index.
pub fn palette256(i: u8) -> (r: [u8; 3])
    ensures
        r@ == rgb256(i),
{
    if i < 16 {
        proof {
            lemma_palette();
        }
        PALETTE[i as usize]
    } else if i <= 231 {
        let n = i - 16;
        let r = [cube_channel(n / 36), cube_channel((n / 6) % 6), cube_channel(n % 6)];
        assert(r@ =~= rgb256(i));
        r
    } else {
        let v = 8 + 10 * (i - 232);
        let r = [v, v, v];
        assert(r@ =~= rgb256(i));
        r
    }
}

/// Whether pixel (gx, gy) of glyph `b` is lit in `font`.
pub open spec fn glyph_on(font: Seq<u8>, b: u8, gy: int, gx: int) -> bool {
    font[b as int * 16 + gy] & (0x80u8 >> (gx as u8)) != 0u8
}

/// The palette index of image pixel (px, py) when the canvas is drawn
/// with `font`, each font pixel a `scale` x `scale` square: the
/// foreground color where the cell's glyph is lit, the background
/// elsewhere.
pub open spec fn pixel_index(v: Seq<Seq<Cell>>, font: Seq<u8>, scale: int, px: int, py: int) -> u8 {
    let ux = px / scale;
    let uy = py / scale;
    let cell = cell_at(v, ux / 8, uy / 16);
    if glyph_on(font, encoded(cell.ch), uy % 16, ux % 8) {
        cell.fg
    } else {
        cell.bg
    }
}

/// Image width in pixels.
pub open spec fn image_width(scale: int) -> int {
    WIDTH * 8 * scale
}

/// Image height in pixels for `rows` text rows.
pub open spec fn image_height(rows: int, scale: int) -> int {
    rows * 16 * scale
}

/// The image of `rows` text rows as palette indices, row by row.
pub open spec fn indexed_image(v: Seq<Seq<Cell>>, font: Seq<u8>, scale: int, rows: int) -> Seq<u8> {
    let w = image_width(scale);
    Seq::new(
        (w * image_height(rows, scale)) as nat,
        |i: int| pixel_index(v, font, scale, i % w, i / w),
    )
}

/// The image of `rows` text rows as RGB8 bytes, row by row.
pub open spec fn rgb_image(v: Seq<Seq<Cell>>, font: Seq<u8>, scale: int, rows: int) -> Seq<u8> {
    let w = image_width(scale);
    Seq::new(
        (w * image_height(rows, scale) * 3) as nat,
        |i: int| rgb256(pixel_index(v, font, scale, (i / 3) % w, (i / 3) / w))[i % 3],
    )
}

proof fn lemma_pixel_slot(q: int, r: int, w: int, c: int)
    requires
        q >= 0,
        0 <= r < w,
        0 <= c < 3,
    ensures
        ((q * w + r) * 3 + c) / 3 == q * w + r,
        ((q * w + r) * 3 + c) % 3 == c,
        (q * w + r) % w == r,
        (q * w + r) / w == q,
{
    lemma_fundamental_div_mod_converse((q * w + r) * 3 + c, 3, q * w + r, c);
    lemma_fundamental_div_mod_converse(q * w + r, w, q, r);
}

/// Rendering at scale `s` repeats every pixel of the scale-1 image `s` x
/// `s` times: the pixel at (px, py) has the color of the scale-1 pixel at
/// (px / s, py / s).
pub proof fn lemma_render_scaled(v: Seq<Seq<Cell>>, font: Seq<u8>, s: int, rows: int, px: int, py: int, c: int)
    requires
        s >= 1,
        rows >= 1,
        0 <= px < image_width(s),
        0 <= py < image_height(rows, s),
        0 <= c < 3,
    ensures
        (py * image_width(s) + px) * 3 + c < rgb_image(v, font, s, rows).len(),
        ((py / s) * image_width(1) + px / s) * 3 + c < rgb_image(v, font, 1, rows).len(),
        rgb_image(v, font, s, rows)[(py * image_width(s) + px) * 3 + c] == rgb_image(v, font, 1, rows)[((
        py / s) * image_width(1) + px / s) * 3 + c],
{
    let w = image_width(s);
    let h = image_height(rows, s);
    let qx = px / s;
    let qy = py / s;
    assert(0 <= qx < 640 && 0 <= qy < rows * 16) by (nonlinear_arith)
        requires
            s >= 1,
            0 <= px < 640 * s,
            0 <= py < rows * 16 * s,
            qx == px / s,
            qy == py / s,
    ;
    assert((py * w + px) * 3 + c < w * h * 3) by (nonlinear_arith)
        requires
            0 <= px < w,
            0 <= py < h,
            0 <= c < 3,
    ;
    assert((qy * 640 + qx) * 3 + c < 640 * (rows * 16) * 3) by (nonlinear_arith)
        requires
            0 <= qx < 640,
            0 <= qy < rows * 16,
            0 <= c < 3,
    ;
    lemma_pixel_slot(py, px, w, c);
    lemma_pixel_slot(qy, qx, 640, c);
    assert(image_height(rows, 1) == rows * 16);
    assert(qx / 1 == qx && qy / 1 == qy);
}

/// An image of `rows` text rows at `scale` has a height that fits in a
/// `u32` and a byte count that fits in memory.
pub open spec fn image_fits(rows: int, scale: int) -> bool {
    &&& image_height(rows, scale) <= u32::MAX
    &&& image_width(scale) * image_height(rows, scale) * 3 <= usize::MAX
}

fn pixel_color(canvas: &Canvas, font: &[u8; 4096], scale: usize, px: usize, py: usize) -> (c: u8)
    requires
        scale > 0,
    ensures
        c == pixel_index(canvas@, font@, scale as int, px as int, py as int),
{
    let ux = px / scale;
    let uy = py / scale;
    let cell = canvas.get(ux / 8, uy / 16);
    let b = char_to_byte(cell.ch) as usize;
    let bits = font[b * 16 + uy % 16];
    if bits & (0x80u8 >> ((ux % 8) as u8)) != 0 {
        cell.fg
    } else {
        cell.bg
    }
}

proof fn lemma_pixel_position(w: int, h: int, px: int, py: int, k: int, d: int)
    requires
        0 <= px < w,
        0 <= py < h,
        0 <= k < d,
        d > 0,
    ensures
        (py * w + px) * d + k < w * h * d,
        ((py * w + px) * d + k) / d == py * w + px,
        ((py * w + px) * d + k) % d == k,
        (py * w + px) % w == px,
        (py * w + px) / w == py,
{
    lemma_fundamental_div_mod_converse((py * w + px) * d + k, d, py * w + px, k);
    lemma_fundamental_div_mod_converse(py * w + px, w, py, px);
    assert((py * w + px) * d + k < w * h * d) by (nonlinear_arith)
        requires
            0 <= px < w,
            0 <= py < h,
            0 <= k < d,
    ;
}

proof fn lemma_dims_fit(rows: int, scale: int)
    requires
        rows >= 1,
        scale >= 0,
        image_fits(rows, scale),
    ensures
        16 * scale <= u32::MAX,
        rows * (16 * scale) == image_height(rows, scale) <= u32::MAX,
        640 * scale == image_width(scale) <= usize::MAX,
{
    assert(16 * scale <= rows * 16 * scale) by (nonlinear_arith)
        requires
            rows >= 1,
            scale >= 0,
    ;
    assert(rows * (16 * scale) == rows * 16 * scale) by (nonlinear_arith);
    if scale > 0 {
        assert(640 * scale <= 640 * scale * (rows * 16 * scale) * 3) by (nonlinear_arith)
            requires
                rows >= 1,
                scale >= 1,
        ;
    }
}

/// Rasterize the used rows to RGB8 with `font`; returns (width, height,
/// pixels).
pub fn render_rgb(canvas: &Canvas, font: &[u8; 4096], scale: usize) -> (r: (usize, usize, Vec<u8>))
    requires
        canvas.wf(),
        image_fits(last_used(canvas@) + 1, scale as int),
    ensures
        r.0 == image_width(scale as int),
        r.1 == image_height(last_used(canvas@) + 1, scale as int),
        r.2@ == rgb_image(canvas@, font@, scale as int, last_used(canvas@) + 1),
{
    let n = canvas.height();
    let rows = canvas.last_used_row() + 1;
    proof {
        lemma_dims_fit(rows as int, scale as int);
    }
    let w = 640 * scale;
    let h = rows * (16 * scale);
    let ghost want = rgb_image(canvas@, font@, scale as int, rows as int);
    let mut img: Vec<u8> = Vec::new();
    let mut py: usize = 0;
    while py < h
        invariant
            w == image_width(scale as int),
            h == image_height(rows as int, scale as int),
            w * h * 3 <= usize::MAX,
            want == rgb_image(canvas@, font@, scale as int, rows as int),
            py <= h,
            img@.len() == py * w * 3,
            forall|i: int| 0 <= i < img@.len() ==> img@[i] == #[trigger] want[i],
        decreases h - py,
    {
        let mut px: usize = 0;
        while px < w
            invariant
                w == image_width(scale as int),
                h == image_height(rows as int, scale as int),
                w * h * 3 <= usize::MAX,
                want == rgb_image(canvas@, font@, scale as int, rows as int),
                py < h,
                px <= w,
                img@.len() == (py * w + px) * 3,
                forall|i: int| 0 <= i < img@.len() ==> img@[i] == #[trigger] want[i],
            decreases w - px,
        {
            assert(scale > 0) by (nonlinear_arith)
                requires
                    px < w,
                    w == WIDTH * 8 * scale,
            ;
            let idx = pixel_color(canvas, font, scale, px, py);
            let c = palette256(idx);
            proof {
                lemma_pixel_position(w as int, h as int, px as int, py as int, 0, 3);
                lemma_pixel_position(w as int, h as int, px as int, py as int, 1, 3);
                lemma_pixel_position(w as int, h as int, px as int, py as int, 2, 3);
            }
            let ghost base = img@.len() as int;
            img.push(c[0]);
            img.push(c[1]);
            img.push(c[2]);
            assert(img@[base] == want[base]);
            assert(img@[base + 1] == want[base + 1]);
            assert(img@[base + 2] == want[base + 2]);
            px = px + 1;
            assert((py * w + px) * 3 == (py * w + px - 1) * 3 + 3) by (nonlinear_arith);
        }
        py = py + 1;
        assert((py - 1) * w + w == py * w) by (nonlinear_arith);
    }
    assert(h * w * 3 == w * h * 3) by (nonlinear_arith);
    assert(img@ =~= want);
    (w, h, img)
}

/// The encoder's error type of the png crate.
#[verifier::external_type_specification]
#[verifier::external_body]
pub struct ExPngEncodingError(png::EncodingError);

/// The PNG file signature.
pub open spec fn png_signature() -> Seq<u8> {
    seq![0x89u8, 0x50, 0x4E, 0x47, 0x0D, 0x0A, 0x1A, 0x0A]
}

/// The PNG stream that the png crate's encoder writes for an 8-bit RGB
/// image of `width` x `height` pixels (`None` when it refuses them).
pub uninterp spec fn png_rgb8(width: u32, height: u32, pixels: Seq<u8>) -> Option<Seq<u8>>;

/// Encode RGB8 pixels with the png crate into memory: `png::Encoder::new`
/// on a `Vec` with the dimensions, `set_color(Rgb)`, `set_depth(Eight)`,
/// `write_header`, `write_image_data`, then the writer is dropped, which
/// writes the closing chunk. The stream (or the refusal) is named
/// `png_rgb8`. As the crate's source shows, the stream starts with the PNG
/// signature, a zero width or height is refused, and otherwise the image is
/// refused only when the pixel bytes are not 3 per pixel (writing into a
/// `Vec` does not fail).
#[verifier::external_body]
fn encode_png_rgb8(width: u32, height: u32, pixels: &[u8]) -> (r: Result<Vec<u8>, png::EncodingError>)
    ensures
        match r {
            Ok(b) => png_rgb8(width, height, pixels@) == Some(b@),
            Err(_) => png_rgb8(width, height, pixels@) is None,
        },
        r is Ok ==> r->Ok_0@.len() >= 8 && r->Ok_0@.take(8) == png_signature(),
        width == 0 || height == 0 ==> r is Err,
        width > 0 && height > 0 && pixels@.len() == width * height * 3 ==> r is Ok,
{
    let mut buf = Vec::new();
    {
        let mut enc = png::Encoder::new(&mut buf, width, height);
        enc.set_color(png::ColorType::Rgb);
        enc.set_depth(png::BitDepth::Eight);
        let mut writer = enc.write_header()?;
        writer.write_image_data(pixels)?;
    }
    Ok(buf)
}

/// Why an image could not be produced.
#[derive(Debug)]
pub enum RenderError {
    /// The PNG encoder refused the image.
    Encoding(png::EncodingError),
}

/// `scale` brought into `1..=hi`.
pub open spec fn clamped(scale: int, hi: int) -> int {
    if scale < 1 {
        1
    } else if scale > hi {
        hi
    } else {
        scale
    }
}

/// What `png_bytes` yields for an RGB8 image: the encoder's stream, or an
/// error where the encoder refuses the image.
pub open spec fn png_of(width: int, height: int, pixels: Seq<u8>) -> Option<Seq<u8>> {
    png_rgb8(width as u32, height as u32, pixels)
}

/// Encode the canvas as a PNG in memory. `scale` is clamped to 1-8.
pub fn png_bytes(canvas: &Canvas, font: &[u8; 4096], scale: usize) -> (r: Result<Vec<u8>, RenderError>)
    requires
        canvas.wf(),
        image_fits(last_used(canvas@) + 1, clamped(scale as int, 8)),
    ensures
        ({
            let s = clamped(scale as int, 8);
            let rows = last_used(canvas@) + 1;
            png_of(image_width(s), image_height(rows, s), rgb_image(canvas@, font@, s, rows))
                == match r {
                Ok(b) => Some(b@),
                Err(_) => None::<Seq<u8>>,
            }
        }),
        r is Ok,
        r is Ok ==> r->Ok_0@.take(8) == png_signature(),
{
    let s = if scale < 1 {
        1
    } else if scale > 8 {
        8
    } else {
        scale
    };
    let (w, h, img) = render_rgb(canvas, font, s);
    proof {
        let rows = last_used(canvas@) + 1;
        lemma_last_used_below(canvas@, canvas@.len() as int);
        assert(rows >= 1);
        assert(image_width(s as int) > 0 && image_height(rows, s as int) > 0) by (nonlinear_arith)
            requires
                s >= 1,
                rows >= 1,
        ;
        assert(image_width(s as int) <= 5120) by (nonlinear_arith)
            requires
                1 <= s <= 8,
        ;
    }
    match encode_png_rgb8(w as u32, h as u32, img.as_slice()) {
        Ok(b) => Ok(b),
        Err(e) => Err(RenderError::Encoding(e)),
    }
}

} // verus!
