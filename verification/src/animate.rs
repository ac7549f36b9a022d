//! Animation frames: canvases rasterized to palette indices (the canvas is
//! already indexed to the xterm-256 palette, which is GIF's native color
//! model, so frames go straight from cells to indexed pixels), and the
//! "reveal" animation in which one canvas appears cell by cell in reading
//! order behind a block cursor, like a BBS download at modem speed.
use vstd::prelude::*;

use crate::canvas::{Canvas, Cell, WIDTH, MAX_ROWS, cell_at, last_used, blank_cell, put, lemma_put};
use crate::render_png::{image_width, image_height, indexed_image, pixel_index, rgb256, palette256, clamped};
use vstd::arithmetic::div_mod::lemma_fundamental_div_mod_converse;

verus! {

fn pixel_at(canvas: &Canvas, font: &[u8; 4096], scale: usize, px: usize, py: usize) -> (c: u8)
    requires
        scale > 0,
    ensures
        c == pixel_index(canvas@, font@, scale as int, px as int, py as int),
{
    let ux = px / scale;
    let uy = py / scale;
    let cell = canvas.get(ux / 8, uy / 16);
    let b = crate::cp437::char_to_byte(cell.ch) as usize;
    let bits = font[b * 16 + uy % 16];
    if bits & (0x80u8 >> ((ux % 8) as u8)) != 0 {
        cell.fg
    } else {
        cell.bg
    }
}

proof fn lemma_index_position(w: int, h: int, px: int, py: int)
    requires
        0 <= px < w,
        0 <= py < h,
    ensures
        py * w + px < w * h,
        (py * w + px) % w == px,
        (py * w + px) / w == py,
{
    lemma_fundamental_div_mod_converse(py * w + px, w, py, px);
    assert(py * w + px < w * h) by (nonlinear_arith)
        requires
            0 <= px < w,
            0 <= py < h,
    ;
}

/// Rasterize `rows` text rows to palette-indexed pixels.
pub fn render_indexed(canvas: &Canvas, font: &[u8; 4096], scale: usize, rows: usize) -> (r: Vec<u8>)
    requires
        canvas.wf(),
        image_width(scale as int) * image_height(rows as int, scale as int) <= usize::MAX,
        image_height(rows as int, scale as int) <= usize::MAX,
        image_width(scale as int) <= usize::MAX,
    ensures
        r@ == indexed_image(canvas@, font@, scale as int, rows as int),
{
    assert(rows * (16 * scale) == image_height(rows as int, scale as int)) by (nonlinear_arith);
    let w = 640 * scale;
    let h = rows * (16 * scale);
    let ghost want = indexed_image(canvas@, font@, scale as int, rows as int);
    let mut img: Vec<u8> = Vec::new();
    let mut py: usize = 0;
    while py < h
        invariant
            w == image_width(scale as int),
            h == image_height(rows as int, scale as int),
            w * h <= usize::MAX,
            want == indexed_image(canvas@, font@, scale as int, rows as int),
            py <= h,
            img@.len() == py * w,
            forall|i: int| 0 <= i < img@.len() ==> img@[i] == #[trigger] want[i],
        decreases h - py,
    {
        let mut px: usize = 0;
        while px < w
            invariant
                w == image_width(scale as int),
                h == image_height(rows as int, scale as int),
                w * h <= usize::MAX,
                want == indexed_image(canvas@, font@, scale as int, rows as int),
                py < h,
                px <= w,
                img@.len() == py * w + px,
                forall|i: int| 0 <= i < img@.len() ==> img@[i] == #[trigger] want[i],
            decreases w - px,
        {
            assert(scale > 0) by (nonlinear_arith)
                requires
                    px < w,
                    w == WIDTH * 8 * scale,
            ;
            proof {
                lemma_index_position(w as int, h as int, px as int, py as int);
            }
            let c = pixel_at(canvas, font, scale, px, py);
            let ghost base = img@.len() as int;
            img.push(c);
            assert(img@[base] == want[base]);
            px = px + 1;
        }
        py = py + 1;
        assert((py - 1) * w + w == py * w) by (nonlinear_arith);
    }
    assert(h * w == w * h) by (nonlinear_arith);
    assert(img@ =~= want);
    img
}

/// The block cursor drawn at the write position of a reveal frame.
pub open spec fn cursor_cell() -> Cell {
    Cell { ch: '█', fg: 7, bg: 0 }
}

/// Cell (x, y) of the reveal frame of `rows` rows showing the first
/// `shown` cells in reading order: the art's cell before the write
/// position, the cursor at it while the art is not complete, blank after.
/// Rows at or past `MAX_ROWS` stay blank, as a canvas never writes there.
pub open spec fn reveal_cell(v: Seq<Seq<Cell>>, rows: int, shown: int, x: int, y: int) -> Cell {
    let i = y * WIDTH + x;
    if y >= MAX_ROWS {
        blank_cell()
    } else if i < shown {
        cell_at(v, x, y)
    } else if i == shown && shown < rows * WIDTH {
        cursor_cell()
    } else {
        blank_cell()
    }
}

/// `f` is the reveal frame of `rows` rows showing `shown` cells of `v`.
pub open spec fn is_reveal_frame(f: Seq<Seq<Cell>>, v: Seq<Seq<Cell>>, rows: int, shown: int) -> bool {
    &&& f.len() == rows
    &&& forall|x: int, y: int|
        0 <= x < WIDTH && 0 <= y < rows ==> #[trigger] cell_at(f, x, y) == reveal_cell(
            v,
            rows,
            shown,
            x,
            y,
        )
}

fn cursor() -> (c: Cell)
    ensures
        c == cursor_cell(),
{
    Cell { ch: '█', fg: 7, bg: 0 }
}

fn reveal_frame(canvas: &Canvas, rows: usize, shown: usize, total: usize) -> (f: Canvas)
    requires
        canvas.wf(),
        rows >= 1,
        total == rows * WIDTH,
        shown <= total,
    ensures
        f.wf(),
        is_reveal_frame(f@, canvas@, rows as int, shown as int),
{
    let mut f = Canvas::new(rows);
    let mut y: usize = 0;
    while y < rows
        invariant
            canvas.wf(),
            f.wf(),
            total == rows * WIDTH,
            shown <= total,
            y <= rows,
            f@.len() == rows,
            forall|x2: int, y2: int|
                0 <= x2 < WIDTH && 0 <= y2 < rows ==> #[trigger] cell_at(f@, x2, y2) == if y2 < y
                    && y2 < MAX_ROWS && y2 * WIDTH + x2 < shown {
                    cell_at(canvas@, x2, y2)
                } else {
                    blank_cell()
                },
        decreases rows - y,
    {
        let mut x: usize = 0;
        while x < WIDTH
            invariant
                canvas.wf(),
                f.wf(),
                total == rows * WIDTH,
                shown <= total,
                y < rows,
                x <= WIDTH,
                f@.len() == rows,
                forall|x2: int, y2: int|
                    0 <= x2 < WIDTH && 0 <= y2 < rows ==> #[trigger] cell_at(f@, x2, y2) == if (y2
                        < y || (y2 == y && x2 < x)) && y2 < MAX_ROWS && y2 * WIDTH + x2 < shown {
                        cell_at(canvas@, x2, y2)
                    } else {
                        blank_cell()
                    },
            decreases WIDTH - x,
        {
            assert(y * WIDTH + x < total) by (nonlinear_arith)
                requires
                    y < rows,
                    x < WIDTH,
                    total == rows * WIDTH,
            ;
            if y * WIDTH + x < shown {
                let c = canvas.get(x, y);
                proof {
                    lemma_put(f@, x as int, y as int, c);
                }
                f.set(x, y, c);
            }
            x = x + 1;
        }
        y = y + 1;
    }
    if shown < total {
        let cx = shown % WIDTH;
        let cy = shown / WIDTH;
        assert(cy < rows) by (nonlinear_arith)
            requires
                shown < total,
                total == rows * WIDTH,
                cy == shown / WIDTH,
        ;
        proof {
            lemma_put(f@, cx as int, cy as int, cursor_cell());
            lemma_fundamental_div_mod_converse(shown as int, WIDTH as int, cy as int, cx as int);
        }
        f.set(cx, cy, cursor());
        assert forall|x2: int, y2: int| 0 <= x2 < WIDTH && 0 <= y2 < rows implies #[trigger] cell_at(
            f@,
            x2,
            y2,
        ) == reveal_cell(canvas@, rows as int, shown as int, x2, y2) by {
            if x2 == cx && y2 == cy {
                assert(y2 * WIDTH + x2 == shown);
            } else {
                assert(y2 * WIDTH + x2 != shown) by (nonlinear_arith)
                    requires
                        0 <= x2 < WIDTH,
                        0 <= cx < WIDTH,
                        !(x2 == cx && y2 == cy),
                        shown == cy * WIDTH + cx,
                ;
            }
        }
    }
    f
}

/// The number of frames that show `total` cells `step` at a time.
pub open spec fn frame_count(total: int, step: int) -> int {
    (total + step - 1) / step
}

/// The number of cells that frame `k` shows.
pub open spec fn shown_in(k: int, step: int, total: int) -> int {
    if (k + 1) * step < total {
        (k + 1) * step
    } else {
        total
    }
}

/// The last reveal frame shows the whole art (every cell of the used rows
/// that a canvas can hold) and no cursor.
pub proof fn lemma_last_frame_complete(f: Seq<Seq<Cell>>, v: Seq<Seq<Cell>>, rows: int, step: int)
    requires
        rows >= 1,
        step >= 1,
        is_reveal_frame(f, v, rows, shown_in(frame_count(rows * WIDTH, step) - 1, step, rows * WIDTH)),
    ensures
        forall|x: int, y: int|
            0 <= x < WIDTH && 0 <= y < rows && y < MAX_ROWS ==> #[trigger] cell_at(f, x, y) == cell_at(v, x, y),
{
    let total = rows * WIDTH;
    let n = frame_count(total, step);
    assert(n * step >= total) by (nonlinear_arith)
        requires
            n == (total + step - 1) / step,
            step >= 1,
            total >= 1,
    ;
    assert(shown_in(n - 1, step, total) == total);
    assert forall|x: int, y: int| 0 <= x < WIDTH && 0 <= y < rows && y < MAX_ROWS implies #[trigger] cell_at(
        f,
        x,
        y,
    ) == cell_at(v, x, y) by {
        assert(y * WIDTH + x < rows * WIDTH) by (nonlinear_arith)
            requires
                0 <= x < WIDTH,
                0 <= y < rows,
        ;
    }
}

/// Each reveal frame shows at least as many cells as the one before.
pub proof fn lemma_frames_progress(k: int, step: int, total: int)
    requires
        0 <= k,
        step >= 1,
    ensures
        shown_in(k, step, total) <= shown_in(k + 1, step, total),
{
    assert((k + 1) * step <= (k + 2) * step) by (nonlinear_arith)
        requires
            step >= 1,
            k >= 0,
    ;
}

/// Build reveal frames: the used rows of the art appear `cells_per_frame`
/// cells at a time (at least one) in reading order, with a block cursor at
/// the write position.
pub fn reveal_frames(canvas: &Canvas, cells_per_frame: usize) -> (r: Vec<Canvas>)
    requires
        canvas.wf(),
        (last_used(canvas@) + 1) * WIDTH <= usize::MAX,
    ensures
        ({
            let rows = last_used(canvas@) + 1;
            let total = rows * WIDTH;
            let step = if cells_per_frame >= 1 {
                cells_per_frame as int
            } else {
                1
            };
            &&& r@.len() == frame_count(total, step)
            &&& forall|k: int|
                0 <= k < r@.len() ==> (#[trigger] r@[k]).wf() && is_reveal_frame(
                    r@[k]@,
                    canvas@,
                    rows,
                    shown_in(k, step, total),
                )
        }),
{
    let n = canvas.height();
    let rows = canvas.last_used_row() + 1;
    let total = rows * WIDTH;
    let step = if cells_per_frame >= 1 {
        cells_per_frame
    } else {
        1
    };
    let mut frames: Vec<Canvas> = Vec::new();
    let mut shown: usize = 0;
    while shown < total
        invariant
            canvas.wf(),
            rows == last_used(canvas@) + 1,
            rows >= 1,
            total == rows * WIDTH,
            step >= 1,
            shown <= total,
            shown == if frames@.len() * step < total {
                frames@.len() * step
            } else {
                total as int
            },
            frames@.len() == 0 || (frames@.len() - 1) * step < total,
            forall|k: int|
                0 <= k < frames@.len() ==> (#[trigger] frames@[k]).wf() && is_reveal_frame(
                    frames@[k]@,
                    canvas@,
                    rows as int,
                    shown_in(k, step as int, total as int),
                ),
        decreases total - shown,
    {
        let ghost k = frames@.len() as int;
        shown = if step >= total - shown {
            total
        } else {
            shown + step
        };
        assert(shown == shown_in(k, step as int, total as int)) by (nonlinear_arith)
            requires
                shown == (if step >= total - (if k * step < total {
                    k * step
                } else {
                    total as int
                }) {
                    total as int
                } else {
                    (if k * step < total {
                        k * step
                    } else {
                        total as int
                    }) + step
                }),
                k * step < total,
                shown_in(k, step as int, total as int) == if (k + 1) * step < total {
                    (k + 1) * step
                } else {
                    total as int
                },
        ;
        let f = reveal_frame(canvas, rows, shown, total);
        frames.push(f);
        assert(frames@[k] == f);
    }
    proof {
        let k = frames@.len() as int;
        assert(k >= 1);
        assert(k * step >= total);
        assert((k - 1) * step == k * step - step) by (nonlinear_arith);
        lemma_fundamental_div_mod_converse(
            total + step - 1,
            step as int,
            k,
            total + step - 1 - k * step,
        );
    }
    frames
}

/// The GIF global color table: the xterm-256 palette as RGB triples.
pub open spec fn palette_bytes() -> Seq<u8> {
    Seq::new(768, |i: int| rgb256((i / 3) as u8)[i % 3])
}

/// The xterm-256 palette as 768 RGB bytes.
pub fn gif_palette() -> (r: Vec<u8>)
    ensures
        r@ == palette_bytes(),
{
    let mut pal: Vec<u8> = Vec::new();
    let mut i: usize = 0;
    while i < 256
        invariant
            i <= 256,
            pal@.len() == 3 * i,
            forall|j: int| 0 <= j < pal@.len() ==> pal@[j] == #[trigger] palette_bytes()[j],
        decreases 256 - i,
    {
        let c = palette256(i as u8);
        proof {
            lemma_fundamental_div_mod_converse(3 * i as int, 3, i as int, 0);
            lemma_fundamental_div_mod_converse(3 * i + 1, 3, i as int, 1);
            lemma_fundamental_div_mod_converse(3 * i + 2, 3, i as int, 2);
        }
        pal.push(c[0]);
        pal.push(c[1]);
        pal.push(c[2]);
        assert(pal@[3 * i as int] == palette_bytes()[3 * i as int]);
        assert(pal@[3 * i + 1] == palette_bytes()[3 * i + 1]);
        assert(pal@[3 * i + 2] == palette_bytes()[3 * i + 2]);
        i = i + 1;
    }
    assert(pal@ =~= palette_bytes());
    pal
}

/// One GIF frame: palette-indexed pixels, shown for `delay` centiseconds.
#[derive(Debug)]
pub struct GifFrame {
    pub pixels: Vec<u8>,
    pub delay: u16,
}

/// A looping GIF animation ready for the encoder: the screen size, the
/// global palette and the frames.
#[derive(Debug)]
pub struct GifPlan {
    pub width: usize,
    pub height: usize,
    pub palette: Vec<u8>,
    pub frames: Vec<GifFrame>,
}

/// The most used rows (last used row + 1) over the canvases; 1 for none.
pub open spec fn max_rows(fs: Seq<Canvas>) -> int
    decreases fs.len(),
{
    if fs.len() == 0 {
        1
    } else {
        let m = max_rows(fs.drop_last());
        let r = last_used(fs.last()@) + 1;
        if r > m {
            r
        } else {
            m
        }
    }
}

proof fn lemma_max_rows(fs: Seq<Canvas>)
    ensures
        max_rows(fs) >= 1,
        forall|k: int| 0 <= k < fs.len() ==> last_used(#[trigger] fs[k]@) + 1 <= max_rows(fs),
    decreases fs.len(),
{
    if fs.len() > 0 {
        lemma_max_rows(fs.drop_last());
        assert forall|k: int| 0 <= k < fs.len() implies last_used(#[trigger] fs[k]@) + 1 <= max_rows(
            fs,
        ) by {
            if k < fs.len() - 1 {
                assert(fs[k] == fs.drop_last()[k]);
            }
        }
    }
}

fn gif_size(rows: usize, s: usize) -> (r: (usize, usize))
    requires
        1 <= s <= 4,
        image_height(rows as int, s as int) <= usize::MAX,
    ensures
        r.0 == image_width(s as int),
        r.1 == image_height(rows as int, s as int),
{
    assert(rows * 16 <= rows * 16 * s) by (nonlinear_arith)
        requires
            s >= 1,
    ;
    (640 * s, rows * 16 * s)
}

/// Lay out frames as a looping GIF: every frame rasterized at the same
/// size (the most used rows among them) with `scale` clamped to 1-4; each
/// frame shows for `delay_cs` centiseconds, the last one for `hold_cs`.
/// `None` when there are no frames.
pub fn gif_plan(frames: &[Canvas], font: &[u8; 4096], scale: usize, delay_cs: u16, hold_cs: u16) -> (r:
    Option<GifPlan>)
    requires
        forall|k: int| 0 <= k < frames@.len() ==> (#[trigger] frames@[k]).wf(),
        image_width(clamped(scale as int, 4)) * image_height(max_rows(frames@), clamped(scale as int, 4))
            <= usize::MAX,
        image_height(max_rows(frames@), clamped(scale as int, 4)) <= usize::MAX,
    ensures
        r is None <==> frames@.len() == 0,
        r matches Some(p) ==> {
            let s = clamped(scale as int, 4);
            let rows = max_rows(frames@);
            &&& p.width == image_width(s)
            &&& p.height == image_height(rows, s)
            &&& p.palette@ == palette_bytes()
            &&& p.frames@.len() == frames@.len()
            &&& forall|k: int|
                0 <= k < frames@.len() ==> (#[trigger] p.frames@[k]).pixels@ == indexed_image(
                    frames@[k]@,
                    font@,
                    s,
                    rows,
                ) && p.frames@[k].delay == if k + 1 == frames@.len() {
                    hold_cs
                } else {
                    delay_cs
                }
        },
{
    if frames.len() == 0 {
        return None;
    }
    let s = if scale < 1 {
        1
    } else if scale > 4 {
        4
    } else {
        scale
    };
    proof {
        lemma_max_rows(frames@);
    }
    let mut rows: usize = 1;
    let mut i: usize = 0;
    while i < frames.len()
        invariant
            i <= frames@.len(),
            forall|k: int| 0 <= k < frames@.len() ==> (#[trigger] frames@[k]).wf(),
            rows == max_rows(frames@.take(i as int)),
            1 <= s <= 4,
            s == clamped(scale as int, 4),
            image_height(max_rows(frames@), s as int) <= usize::MAX,
            max_rows(frames@) >= 1,
            forall|k: int| 0 <= k < frames@.len() ==> last_used(#[trigger] frames@[k]@) + 1
                <= max_rows(frames@),
        decreases frames@.len() - i,
    {
        assert(last_used(frames@[i as int]@) + 1 <= max_rows(frames@));
        assert(max_rows(frames@) <= image_height(max_rows(frames@), s as int)) by (nonlinear_arith)
            requires
                max_rows(frames@) >= 1,
                s >= 1,
        ;
        let u = frames[i].last_used_row() + 1;
        assert(frames@.take(i + 1).drop_last() =~= frames@.take(i as int));
        if u > rows {
            rows = u;
        }
        i = i + 1;
    }
    assert(frames@.take(frames@.len() as int) =~= frames@);
    let (w, h) = gif_size(rows, s);
    let palette = gif_palette();
    let mut out: Vec<GifFrame> = Vec::new();
    let mut k: usize = 0;
    while k < frames.len()
        invariant
            k <= frames@.len(),
            forall|j: int| 0 <= j < frames@.len() ==> (#[trigger] frames@[j]).wf(),
            1 <= s <= 4,
            s == clamped(scale as int, 4),
            rows == max_rows(frames@),
            image_width(s as int) * image_height(rows as int, s as int) <= usize::MAX,
            image_height(rows as int, s as int) <= usize::MAX,
            out@.len() == k,
            forall|j: int|
                0 <= j < k ==> (#[trigger] out@[j]).pixels@ == indexed_image(
                    frames@[j]@,
                    font@,
                    s as int,
                    rows as int,
                ) && out@[j].delay == if j + 1 == frames@.len() {
                    hold_cs
                } else {
                    delay_cs
                },
        decreases frames@.len() - k,
    {
        assert(image_width(s as int) <= 2560) by (nonlinear_arith)
            requires
                1 <= s <= 4,
        ;
        let pixels = render_indexed(&frames[k], font, s, rows);
        let delay = if k + 1 == frames.len() {
            hold_cs
        } else {
            delay_cs
        };
        out.push(GifFrame { pixels, delay });
        k = k + 1;
    }
    Some(GifPlan { width: w, height: h, palette, frames: out })
}


#[verifier::external_type_specification]
#[verifier::external_body]
pub struct ExGifEncodingError(gif::EncodingError);

/// The frames of a plan as the encoder takes them: pixels and delay.
pub open spec fn plan_frames(fs: Seq<GifFrame>) -> Seq<(Seq<u8>, u16)> {
    fs.map_values(|f: GifFrame| (f.pixels@, f.delay))
}

/// The GIF stream that the gif crate's encoder writes for a screen of
/// `width` x `height` pixels with a global palette, looping forever, one
/// image per frame (its indexed pixels and its delay); `None` when the
/// encoder refuses them.
pub uninterp spec fn gif_stream(width: u16, height: u16, palette: Seq<u8>, frames: Seq<(Seq<u8>, u16)>) -> Option<Seq<u8>>;

/// The bytes "GIF89a" that begin the stream.
pub open spec fn gif_signature() -> Seq<u8> {
    seq![0x47u8, 0x49, 0x46, 0x38, 0x39, 0x61]
}

/// Encode a looping GIF into memory with the gif crate:
/// `gif::Encoder::new` on a `Vec` with the screen size and the global
/// palette, `set_repeat(Infinite)`, `write_frame` for each frame (full
/// screen, its pixels and delay, the other frame fields at their
/// defaults), then `into_inner`. The stream (or the refusal) is named
/// `gif_stream`; as the crate's source shows, it begins with "GIF89a". The
/// crate asserts (in debug builds) that a frame has pixels, so the screen
/// is not empty. Nothing is said of when it fails: besides refusing a
/// palette of more than 256 colors or a frame buffer that is too short,
/// the encoder returns an error when it cannot reserve memory for a
/// frame's compressed data, which rests on the machine.
#[verifier::external_body]
fn encode_gif(width: u16, height: u16, palette: &[u8], frames: &Vec<GifFrame>) -> (r: Result<Vec<u8>, gif::EncodingError>)
    requires
        width > 0,
        height > 0,
    ensures
        match r {
            Ok(b) => gif_stream(width, height, palette@, plan_frames(frames@)) == Some(b@),
            Err(_) => true,
        },
        r is Ok ==> r->Ok_0@.len() >= 6 && r->Ok_0@.take(6) == gif_signature(),
{
    let mut enc = gif::Encoder::new(Vec::new(), width, height, palette)?;
    enc.set_repeat(gif::Repeat::Infinite)?;
    for f in frames {
        let frame = gif::Frame {
            width,
            height,
            buffer: std::borrow::Cow::Borrowed(&f.pixels),
            delay: f.delay,
            ..gif::Frame::default()
        };
        enc.write_frame(&frame)?;
    }
    Ok(enc.into_inner()?)
}

/// Why a GIF could not be made.
#[derive(Debug)]
pub enum GifError {
    /// The encoder refused the animation.
    Encoding,
}

/// The plan's screen size as the GIF header holds it (16 bits each).
pub open spec fn header_size(p: GifPlan) -> (u16, u16) {
    (p.width as u16, p.height as u16)
}

/// The looping GIF of a plan, as bytes (see `gif_stream`); the screen
/// size goes into the header's 16-bit fields. An error comes only from the
/// encoder, whose failures this library does not predict (memory).
pub fn gif_bytes(plan: &GifPlan) -> (r: Result<Vec<u8>, GifError>)
    requires
        header_size(*plan).0 > 0,
        header_size(*plan).1 > 0,
    ensures
        r matches Ok(b) ==> gif_stream(header_size(*plan).0, header_size(*plan).1, plan.palette@, plan_frames(plan.frames@))
            == Some(b@) && b@.take(6) == gif_signature(),
{
    let w = plan.width as u16;
    let h = plan.height as u16;
    match encode_gif(w, h, plan.palette.as_slice(), &plan.frames) {
        Ok(b) => Ok(b),
        Err(_) => Err(GifError::Encoding),
    }
}

} // verus!
