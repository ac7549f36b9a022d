//! TheDraw font (.TDF) support: the classic ANSI-scene format for big
//! colored letterforms ("oldschool BBS fonts"). A file holds one or more
//! fonts; each glyph is a small grid of CP437 chars with DOS attributes.
//!
//! Supported font types: 1 (block) and 2 (color). Outline fonts (0) use a
//! separate border-translation scheme and are skipped.
use vstd::prelude::*;

use crate::canvas::{Canvas, Cell, MAX_ROWS, WIDTH, put, grid_wf};
use crate::cp437::{byte_to_char, glyph};
use crate::sauce::string_push;
use vstd::string::StrSliceExecFns;

verus! {

/// One letterform: its nominal size and its rows of (glyph char, DOS
/// attribute).
#[derive(Clone, Debug)]
pub struct Glyph {
    pub width: usize,
    pub height: usize,
    pub rows: Vec<Vec<(char, u8)>>,
}

pub struct GlyphView {
    pub width: int,
    pub height: int,
    pub rows: Seq<Seq<(char, u8)>>,
}

impl View for Glyph {
    type V = GlyphView;

    open spec fn view(&self) -> GlyphView {
        GlyphView {
            width: self.width as int,
            height: self.height as int,
            rows: self.rows@.map_values(|r: Vec<(char, u8)>| r@),
        }
    }
}

/// The rows of a glyph with trailing empty rows removed.
pub open spec fn trim_rows(rows: Seq<Seq<(char, u8)>>) -> Seq<Seq<(char, u8)>>
    decreases rows.len(),
{
    if rows.len() > 0 && rows.last().len() == 0 {
        trim_rows(rows.drop_last())
    } else {
        rows
    }
}

/// The cell of a glyph byte: a block font (type 1) draws white on black,
/// a color font (type 2) gives each char its own attribute byte.
/// Reading the glyph body from `i`: `done` rows so far and the row `cur`
/// being read. A 0x00 byte ends the glyph, 0x0D starts a new row, any other
/// byte is a char (followed by its attribute in a color font). `None` when
/// the body runs past the block.
pub open spec fn glyph_cells(
    block: Seq<u8>,
    i: int,
    kind: u8,
    done: Seq<Seq<(char, u8)>>,
    cur: Seq<(char, u8)>,
) -> Option<Seq<Seq<(char, u8)>>>
    decreases block.len() - i,
{
    if i < 0 || i >= block.len() {
        None
    } else if block[i] == 0 {
        Some(done.push(cur))
    } else if block[i] == 0x0D {
        glyph_cells(block, i + 1, kind, done.push(cur), seq![])
    } else if kind == 2 {
        if i + 1 >= block.len() {
            None
        } else {
            glyph_cells(block, i + 2, kind, done, cur.push((glyph(block[i]), block[i + 1])))
        }
    } else {
        glyph_cells(block, i + 1, kind, done, cur.push((glyph(block[i]), 0x0Fu8)))
    }
}

/// The glyph stored at offset `off` of a font's glyph block: width and
/// height bytes (1-80 and 1-50), then the body; trailing empty rows are
/// dropped.
pub open spec fn parsed_glyph(block: Seq<u8>, off: int, kind: u8) -> Option<GlyphView> {
    if off + 2 > block.len() {
        None
    } else {
        let width = block[off];
        let height = block[off + 1];
        if width == 0 || width > 80 || height == 0 || height > 50 {
            None
        } else {
            match glyph_cells(block, off + 2, kind, seq![], seq![]) {
                None => None,
                Some(rows) => Some(GlyphView { width: width as int, height: height as int, rows: trim_rows(rows) }),
            }
        }
    }
}

/// Every row of `rows`, and their number, stays within `n`.
pub open spec fn rows_within(rows: Seq<Seq<(char, u8)>>, n: int) -> bool {
    &&& rows.len() <= n
    &&& forall|k: int| 0 <= k < rows.len() ==> (#[trigger] rows[k]).len() <= n
}

proof fn lemma_trim_rows(rows: Seq<Seq<(char, u8)>>, n: int)
    requires
        rows_within(rows, n),
    ensures
        rows_within(trim_rows(rows), n),
    decreases rows.len(),
{
    if rows.len() > 0 && rows.last().len() == 0 {
        let d = rows.drop_last();
        assert forall|k: int| 0 <= k < d.len() implies (#[trigger] d[k]).len() <= n by {
            assert(d[k] == rows[k]);
        }
        lemma_trim_rows(d, n);
    }
}

fn trim_glyph_rows(rows: &mut Vec<Vec<(char, u8)>>)
    ensures
        final(rows)@.map_values(|r: Vec<(char, u8)>| r@) == trim_rows(old(rows)@.map_values(|r: Vec<(char, u8)>| r@)),
{
    loop
        invariant
            trim_rows(rows@.map_values(|r: Vec<(char, u8)>| r@)) == trim_rows(
                old(rows)@.map_values(|r: Vec<(char, u8)>| r@),
            ),
        ensures
            rows@.map_values(|r: Vec<(char, u8)>| r@) == trim_rows(old(rows)@.map_values(|r: Vec<(char, u8)>| r@)),
        decreases rows@.len(),
    {
        let n = rows.len();
        if n == 0 || rows[n - 1].len() != 0 {
            break;
        }
        let ghost before = rows@.map_values(|r: Vec<(char, u8)>| r@);
        rows.pop();
        assert(rows@.map_values(|r: Vec<(char, u8)>| r@) =~= before.drop_last());
    }
}

/// Read the glyph at offset `off` of a font's glyph block.
pub fn parse_glyph(block: &[u8], off: usize, kind: u8) -> (r: Option<Glyph>)
    ensures
        match r {
            Some(g) => parsed_glyph(block@, off as int, kind) == Some(g@) && rows_within(g@.rows, block@.len() as int),
            None => parsed_glyph(block@, off as int, kind) is None,
        },
{
    if off >= block.len() || block.len() - off < 2 {
        return None;
    }
    let width = block[off] as usize;
    let height = block[off + 1] as usize;
    if width == 0 || width > 80 || height == 0 || height > 50 {
        return None;
    }
    let mut done: Vec<Vec<(char, u8)>> = Vec::new();
    let mut cur: Vec<(char, u8)> = Vec::new();
    let mut i: usize = off + 2;
    assert(done@.map_values(|r: Vec<(char, u8)>| r@) =~= Seq::<Seq<(char, u8)>>::empty());
    assert(cur@ =~= Seq::<(char, u8)>::empty());
    loop
        invariant
            off + 2 <= i,
            block@.len() >= off + 2,
            parsed_glyph(block@, off as int, kind) == match glyph_cells(
                block@,
                i as int,
                kind,
                done@.map_values(|r: Vec<(char, u8)>| r@),
                cur@,
            ) {
                None => None,
                Some(rows) => Some(
                    GlyphView { width: width as int, height: height as int, rows: trim_rows(rows) },
                ),
            },
            1 <= width <= 80,
            1 <= height <= 50,
            done@.len() + 1 <= i,
            cur@.len() <= i,
            forall|k: int| 0 <= k < done@.len() ==> (#[trigger] done@[k])@.len() <= i,
        ensures
            i < block@.len(),
            block@[i as int] == 0,
            parsed_glyph(block@, off as int, kind) == Some(
                GlyphView {
                    width: width as int,
                    height: height as int,
                    rows: trim_rows(done@.map_values(|r: Vec<(char, u8)>| r@).push(cur@)),
                },
            ),
            done@.len() + 1 <= i,
            cur@.len() <= i,
            forall|k: int| 0 <= k < done@.len() ==> (#[trigger] done@[k])@.len() <= i,
        decreases block@.len() - i,
    {
        if i >= block.len() {
            return None;
        }
        let b = block[i];
        if b == 0 {
            break;
        } else if b == 0x0D {
            let ghost d0 = done@.map_values(|r: Vec<(char, u8)>| r@);
            let row = cur;
            done.push(row);
            cur = Vec::new();
            assert(done@.map_values(|r: Vec<(char, u8)>| r@) =~= d0.push(row@));
            i = i + 1;
        } else if kind == 2 {
            if i + 1 >= block.len() {
                return None;
            }
            let a = block[i + 1];
            cur.push((byte_to_char(b), a));
            i = i + 2;
        } else {
            cur.push((byte_to_char(b), 0x0F));
            i = i + 1;
        }
    }
    let ghost d0 = done@.map_values(|r: Vec<(char, u8)>| r@);
    let mut rows = done;
    rows.push(cur);
    assert(rows@.map_values(|r: Vec<(char, u8)>| r@) =~= d0.push(cur@));
    proof {
        let rs = d0.push(cur@);
        assert(rows_within(rs, block@.len() as int)) by {
            assert forall|k: int| 0 <= k < rs.len() implies (#[trigger] rs[k]).len() <= block@.len() by {
                if k < d0.len() {
                    assert(rs[k] == done@[k]@);
                }
            }
        }
        lemma_trim_rows(rs, block@.len() as int);
    }
    trim_glyph_rows(&mut rows);
    Some(Glyph { width, height, rows })
}

/// A glyph as loaded: its size in range and its rows within a glyph
/// block's 16-bit size.
pub open spec fn glyph_ok(g: GlyphView) -> bool {
    &&& 1 <= g.width <= 80
    &&& 1 <= g.height <= 50
    &&& rows_within(g.rows, 65535)
}

/// A font: its name, type (1 block, 2 color), letter spacing and the
/// glyphs of '!'..='~'.
pub struct TdfFont {
    pub name: String,
    pub kind: u8,
    pub spacing: usize,
    glyphs: Vec<Option<Glyph>>,
}

pub struct FontView {
    pub name: Seq<char>,
    pub kind: u8,
    pub spacing: int,
    pub glyphs: Seq<Option<GlyphView>>,
}

pub open spec fn glyph_view(g: Option<Glyph>) -> Option<GlyphView> {
    match g {
        Some(g) => Some(g@),
        None => None,
    }
}

impl View for TdfFont {
    type V = FontView;

    closed spec fn view(&self) -> FontView {
        FontView {
            name: self.name@,
            kind: self.kind,
            spacing: self.spacing as int,
            glyphs: self.glyphs@.map_values(|g: Option<Glyph>| glyph_view(g)),
        }
    }
}

/// 94 glyph slots ('!'..='~'), a spacing that came from one byte, and
/// every present glyph as loaded.
pub open spec fn font_ok(f: FontView) -> bool {
    &&& f.glyphs.len() == 94
    &&& 0 <= f.spacing <= 255
    &&& forall|k: int| 0 <= k < 94 ==> (#[trigger] f.glyphs[k] matches Some(g) ==> glyph_ok(g))
}

/// The glyph slot of `c`, if it has one.
pub open spec fn slot(f: FontView, c: char) -> Option<GlyphView> {
    let i = c as int - 33;
    if 0 <= i < f.glyphs.len() {
        f.glyphs[i]
    } else {
        None
    }
}

pub open spec fn ascii_upper(c: char) -> char {
    if 'a' <= c <= 'z' {
        ((c as int) - 32) as char
    } else {
        c
    }
}

pub open spec fn ascii_lower(c: char) -> char {
    if 'A' <= c <= 'Z' {
        ((c as int) + 32) as char
    } else {
        c
    }
}

/// The glyph drawn for `c`: its own, else its uppercase's, else its
/// lowercase's.
pub open spec fn glyph_for(f: FontView, c: char) -> Option<GlyphView> {
    if slot(f, c) is Some {
        slot(f, c)
    } else if slot(f, ascii_upper(c)) is Some {
        slot(f, ascii_upper(c))
    } else {
        slot(f, ascii_lower(c))
    }
}

fn to_upper(c: char) -> (r: char)
    ensures
        r == ascii_upper(c),
{
    if 'a' <= c && c <= 'z' {
        ((c as u8) - 32) as char
    } else {
        c
    }
}

pub(crate) fn to_lower(c: char) -> (r: char)
    ensures
        r == ascii_lower(c),
{
    if 'A' <= c && c <= 'Z' {
        ((c as u8) + 32) as char
    } else {
        c
    }
}

/// The sum of the widths of the present glyphs among the first `n`.
pub open spec fn width_sum(gs: Seq<Option<GlyphView>>, n: int) -> int
    decreases n,
{
    if n <= 0 {
        0
    } else {
        width_sum(gs, n - 1) + match gs[n - 1] {
            Some(g) => g.width,
            None => 0,
        }
    }
}

/// The number of present glyphs among the first `n`.
pub open spec fn glyph_count(gs: Seq<Option<GlyphView>>, n: int) -> int
    decreases n,
{
    if n <= 0 {
        0
    } else {
        glyph_count(gs, n - 1) + if gs[n - 1] is Some {
            1int
        } else {
            0
        }
    }
}

/// The width of a space: the average glyph width (rounded down, at least
/// 2), or 4 in a font without glyphs.
pub open spec fn space_of(f: FontView) -> int {
    let n = glyph_count(f.glyphs, f.glyphs.len() as int);
    if n == 0 {
        4
    } else {
        let avg = width_sum(f.glyphs, f.glyphs.len() as int) / n;
        if avg < 2 {
            2
        } else {
            avg
        }
    }
}

proof fn lemma_width_bounds(gs: Seq<Option<GlyphView>>, n: int, lo: int, hi: int)
    requires
        0 <= n <= gs.len(),
        forall|k: int| 0 <= k < gs.len() ==> (#[trigger] gs[k] matches Some(g) ==> lo <= g.width <= hi),
    ensures
        lo * glyph_count(gs, n) <= width_sum(gs, n) <= hi * glyph_count(gs, n),
        glyph_count(gs, n) >= 0,
        (exists|k: int| 0 <= k < n && (#[trigger] gs[k]) is Some) ==> glyph_count(gs, n) >= 1,
    decreases n,
{
    if n > 0 {
        lemma_width_bounds(gs, n - 1, lo, hi);
        let c = glyph_count(gs, n - 1);
        assert(lo * (c + 1) == lo * c + lo && hi * (c + 1) == hi * c + hi) by (nonlinear_arith);
        if exists|k: int| 0 <= k < n && (#[trigger] gs[k]) is Some {
            let k = choose|k: int| 0 <= k < n && (#[trigger] gs[k]) is Some;
            if k < n - 1 {
                assert(exists|k2: int| 0 <= k2 < n - 1 && (#[trigger] gs[k2]) is Some);
            }
        }
    }
}

/// The space width lies between the narrowest and the widest glyph the
/// font has (never below 2): it is their average, not an average over the
/// empty slots too. In particular a font whose glyphs are all `w >= 2`
/// cells wide has spaces `w` cells wide.
pub proof fn lemma_space_between(f: FontView, lo: int, hi: int)
    requires
        exists|k: int| 0 <= k < f.glyphs.len() && (#[trigger] f.glyphs[k]) is Some,
        forall|k: int| 0 <= k < f.glyphs.len() ==> (#[trigger] f.glyphs[k] matches Some(g) ==> lo <= g.width <= hi),
    ensures
        (if lo < 2 { 2 } else { lo }) <= space_of(f) <= (if hi < 2 { 2 } else { hi }),
        lo == hi && hi >= 2 ==> space_of(f) == hi,
{
    let n = f.glyphs.len() as int;
    lemma_width_bounds(f.glyphs, n, lo, hi);
    let c = glyph_count(f.glyphs, n);
    let sum = width_sum(f.glyphs, n);
    assert(lo <= sum / c <= hi) by (nonlinear_arith)
        requires
            c >= 1,
            lo * c <= sum <= hi * c,
    ;
}

/// A font without glyphs has spaces 4 cells wide.
pub proof fn lemma_space_empty(f: FontView)
    requires
        forall|k: int| 0 <= k < f.glyphs.len() ==> (#[trigger] f.glyphs[k]) is None,
    ensures
        space_of(f) == 4,
{
    lemma_width_bounds(f.glyphs, f.glyphs.len() as int, 0, 0);
    lemma_no_glyphs(f.glyphs, f.glyphs.len() as int);
}

proof fn lemma_no_glyphs(gs: Seq<Option<GlyphView>>, n: int)
    requires
        0 <= n <= gs.len(),
        forall|k: int| 0 <= k < gs.len() ==> (#[trigger] gs[k]) is None,
    ensures
        glyph_count(gs, n) == 0,
    decreases n,
{
    if n > 0 {
        lemma_no_glyphs(gs, n - 1);
        assert(gs[n - 1] is None);
    }
}

impl TdfFont {
    pub open spec fn wf(&self) -> bool {
        font_ok(self@)
    }

    fn slot_of(&self, c: char) -> (r: Option<&Glyph>)
        requires
            self.wf(),
        ensures
            match r {
                Some(g) => slot(self@, c) == Some(g@),
                None => slot(self@, c) is None,
            },
    {
        let code = c as u32;
        if code < 33 {
            return None;
        }
        let i = (code - 33) as usize;
        if i >= self.glyphs.len() {
            return None;
        }
        assert(self@.glyphs[i as int] == glyph_view(self.glyphs@[i as int]));
        self.glyphs[i].as_ref()
    }

    /// The glyph for `ch`, falling back to its uppercase, then lowercase.
    pub fn glyph(&self, ch: char) -> (r: Option<&Glyph>)
        requires
            self.wf(),
        ensures
            match r {
                Some(g) => glyph_for(self@, ch) == Some(g@),
                None => glyph_for(self@, ch) is None,
            },
    {
        match self.slot_of(ch) {
            Some(g) => Some(g),
            None => match self.slot_of(to_upper(ch)) {
                Some(g) => Some(g),
                None => self.slot_of(to_lower(ch)),
            },
        }
    }

    /// Average glyph width (used for the space character).
    pub fn space_width(&self) -> (r: usize)
        requires
            self.wf(),
        ensures
            r == space_of(self@),
            2 <= r <= 80,
    {
        let ghost gs = self@.glyphs;
        let mut sum: usize = 0;
        let mut n: usize = 0;
        let mut i: usize = 0;
        while i < self.glyphs.len()
            invariant
                self.wf(),
                gs == self@.glyphs,
                gs.len() == 94,
                i <= self.glyphs@.len() == 94,
                sum == width_sum(gs, i as int),
                n == glyph_count(gs, i as int),
                sum <= 80 * n,
                n <= i,
            decreases self.glyphs@.len() - i,
        {
            assert(gs[i as int] == glyph_view(self.glyphs@[i as int]));
            match &self.glyphs[i] {
                Some(g) => {
                    assert(gs[i as int] matches Some(h) ==> glyph_ok(h));
                    sum = sum + g.width;
                    n = n + 1;
                },
                None => {},
            }
            i = i + 1;
        }
        if n == 0 {
            4
        } else {
            let avg = sum / n;
            assert(avg <= 80) by (nonlinear_arith)
                requires
                    sum <= 80 * n,
                    n > 0,
                    avg == sum / n,
            ;
            if avg < 2 {
                2
            } else {
                avg
            }
        }
    }
}

/// The file signature: 0x13, "TheDraw FONTS file", 0x1A.
pub open spec fn file_magic() -> Seq<u8> {
    seq![
        0x13u8, 0x54, 0x68, 0x65, 0x44, 0x72, 0x61, 0x77, 0x20, 0x46, 0x4F, 0x4E, 0x54, 0x53, 0x20,
        0x66, 0x69, 0x6C, 0x65, 0x1A,
    ]
}

/// The signature that starts each font record.
pub open spec fn font_magic() -> Seq<u8> {
    seq![0x55u8, 0xAA, 0x00, 0xFF]
}

pub open spec fn le16_at(data: Seq<u8>, i: int) -> int {
    data[i] + 256 * data[i + 1]
}

/// The font whose header starts at `p` (just after its signature): a name
/// (length byte, at most 12 chars, a 12-byte field), 4 reserved bytes, the
/// type, the letter spacing, the glyph block size, 94 glyph offsets (0xFFFF
/// for none) into the glyph block that follows.
pub open spec fn font_at(data: Seq<u8>, p: int) -> FontView {
    let namelen = if data[p] < 12 {
        data[p] as int
    } else {
        12
    };
    let q = p + 17;
    let kind = data[q];
    let offsets_at = q + 4;
    let data_at = offsets_at + 188;
    let next = data_at + le16_at(data, q + 2);
    let end = if next < data.len() {
        next
    } else {
        data.len() as int
    };
    let block = data.subrange(data_at, end);
    FontView {
        name: data.subrange(p + 1, p + 1 + namelen).map_values(|b: u8| glyph(b)),
        kind,
        spacing: data[q + 1] as int,
        glyphs: Seq::new(
            94,
            |gi: int|
                {
                    let off = le16_at(data, offsets_at + 2 * gi);
                    if off == 0xFFFF {
                        None
                    } else {
                        parsed_glyph(block, off, kind)
                    }
                },
        ),
    }
}

/// The fonts of types 1 and 2 found from `pos` on: scanning byte by byte
/// for a font signature, stopping at a header that does not fit, and
/// going on after each font's glyph block.
pub open spec fn fonts_from(data: Seq<u8>, pos: int) -> Seq<FontView>
    decreases (if pos <= data.len() {
        data.len() - pos
    } else {
        0
    }),
{
    if pos < 0 || pos + 4 > data.len() {
        seq![]
    } else if data.subrange(pos, pos + 4) != font_magic() {
        fonts_from(data, pos + 1)
    } else if pos + 4 + 209 > data.len() {
        seq![]
    } else {
        let p = pos + 4;
        let next = p + 209 + le16_at(data, p + 19);
        let kind = data[p + 17];
        if kind == 1 || kind == 2 {
            seq![font_at(data, p)] + fonts_from(data, next)
        } else {
            fonts_from(data, next)
        }
    }
}

/// Every supported font in a .TDF file, or `None` for a file without the
/// TheDraw signature (or shorter than 24 bytes).
pub open spec fn parsed_fonts(data: Seq<u8>) -> Option<Seq<FontView>> {
    if data.len() < 24 || data.subrange(0, 20) != file_magic() {
        None
    } else {
        Some(fonts_from(data, 20))
    }
}

fn magic_at(data: &[u8], pos: usize, magic: &[u8]) -> (r: bool)
    requires
        pos + magic@.len() <= data.len(),
    ensures
        r == (data@.subrange(pos as int, pos + magic@.len()) == magic@),
{
    let mut i: usize = 0;
    while i < magic.len()
        invariant
            pos + magic@.len() <= data.len(),
            i <= magic@.len(),
            forall|k: int| 0 <= k < i ==> data@[pos + k] == magic@[k],
        decreases magic@.len() - i,
    {
        if data[pos + i] != magic[i] {
            assert(data@.subrange(pos as int, pos + magic@.len())[i as int] != magic@[i as int]);
            return false;
        }
        i = i + 1;
    }
    assert(data@.subrange(pos as int, pos + magic@.len()) =~= magic@);
    true
}

fn le16(data: &[u8], i: usize) -> (r: usize)
    requires
        i + 1 < data@.len(),
    ensures
        r == le16_at(data@, i as int),
        r <= 65535,
{
    data[i] as usize + 256 * data[i + 1] as usize
}

fn font_name(data: &[u8], p: usize) -> (s: String)
    requires
        p + 13 <= data.len(),
    ensures
        s@ == font_at(data@, p as int).name,
{
    let namelen = if data[p] < 12 {
        data[p] as usize
    } else {
        12
    };
    let ghost want = data@.subrange(p + 1, p + 1 + namelen).map_values(|b: u8| glyph(b));
    let mut s = String::new();
    let mut i: usize = 0;
    while i < namelen
        invariant
            p + 13 <= data.len(),
            namelen <= 12,
            i <= namelen,
            want == data@.subrange(p + 1, p + 1 + namelen).map_values(|b: u8| glyph(b)),
            s@ == want.take(i as int),
        decreases namelen - i,
    {
        string_push(&mut s, byte_to_char(data[p + 1 + i]));
        i = i + 1;
        assert(s@ =~= want.take(i as int));
    }
    assert(want.take(namelen as int) =~= want);
    s
}

fn read_font(data: &[u8], p: usize) -> (f: TdfFont)
    requires
        p + 209 <= data.len(),
    ensures
        f@ == font_at(data@, p as int),
        f.wf(),
{
    let q = p + 17;
    let kind = data[q];
    let spacing = data[q + 1] as usize;
    let blocksize = le16(data, q + 2);
    let offsets_at = q + 4;
    let data_at = offsets_at + 188;
    let end = if data.len() - data_at > blocksize {
        data_at + blocksize
    } else {
        data.len()
    };
    let block = &data[data_at..end];
    let ghost want = font_at(data@, p as int);
    let mut glyphs: Vec<Option<Glyph>> = Vec::new();
    let mut gi: usize = 0;
    while gi < 94
        invariant
            p + 209 <= data.len(),
            q == p + 17,
            offsets_at == q + 4,
            data_at == offsets_at + 188,
            kind == data@[q as int],
            data_at <= end <= data@.len(),
            end - data_at <= 65535,
            block@ == data@.subrange(data_at as int, end as int),
            want == font_at(data@, p as int),
            end == (if data_at + le16_at(data@, q + 2) < data@.len() {
                data_at + le16_at(data@, q + 2)
            } else {
                data@.len() as int
            }),
            gi <= 94,
            glyphs@.len() == gi,
            forall|k: int| 0 <= k < gi ==> glyph_view(#[trigger] glyphs@[k]) == want.glyphs[k],
            forall|k: int| 0 <= k < gi ==> (#[trigger] glyphs@[k] matches Some(g) ==> glyph_ok(g@)),
        decreases 94 - gi,
    {
        let o = offsets_at + gi * 2;
        let off = le16(data, o);
        let g = if off == 0xFFFF {
            None
        } else {
            let r = parse_glyph(block, off, kind);
            proof {
                if r is Some {
                    let gg = r->Some_0;
                    assert(parsed_glyph(block@, off as int, kind) matches Some(h) && 1 <= h.width <= 80
                        && 1 <= h.height <= 50);
                }
            }
            r
        };
        glyphs.push(g);
        gi = gi + 1;
    }
    let name = font_name(data, p);
    let f = TdfFont { name, kind, spacing, glyphs };
    assert(f@.glyphs =~= want.glyphs);
    f
}

/// Parse every supported font in the contents of a .TDF file; `None` when
/// it is not a TheDraw FONTS file.
pub fn load(data: &[u8]) -> (r: Option<Vec<TdfFont>>)
    ensures
        match r {
            None => parsed_fonts(data@) is None,
            Some(fs) => {
                &&& parsed_fonts(data@) == Some(fs@.map_values(|f: TdfFont| f@))
                &&& forall|k: int| 0 <= k < fs@.len() ==> (#[trigger] fs@[k]).wf()
            },
        },
{
    let magic: [u8; 20] = [
        0x13, 0x54, 0x68, 0x65, 0x44, 0x72, 0x61, 0x77, 0x20, 0x46, 0x4F, 0x4E, 0x54, 0x53, 0x20,
        0x66, 0x69, 0x6C, 0x65, 0x1A,
    ];
    assert(magic@ =~= file_magic());
    if data.len() < 24 || !magic_at(data, 0, &magic) {
        return None;
    }
    let font_sig: [u8; 4] = [0x55, 0xAA, 0x00, 0xFF];
    assert(font_sig@ =~= font_magic());
    let mut fonts: Vec<TdfFont> = Vec::new();
    let mut pos: usize = 20;
    while data.len() - pos >= 4
        invariant_except_break
            fonts@.map_values(|f: TdfFont| f@) + fonts_from(data@, pos as int) == fonts_from(data@, 20),
        invariant
            font_sig@ == font_magic(),
            20 <= pos <= data.len(),
            forall|k: int| 0 <= k < fonts@.len() ==> (#[trigger] fonts@[k]).wf(),
        ensures
            fonts@.map_values(|f: TdfFont| f@) == fonts_from(data@, 20),
            forall|k: int| 0 <= k < fonts@.len() ==> (#[trigger] fonts@[k]).wf(),
        decreases data@.len() - pos,
    {
        if !magic_at(data, pos, &font_sig) {
            pos = pos + 1;
            continue;
        }
        let p = pos + 4;
        if data.len() - p < 209 {
            assert(fonts_from(data@, pos as int) =~= Seq::<FontView>::empty());
            assert(fonts@.map_values(|f: TdfFont| f@) =~= fonts_from(data@, 20));
            break;
        }
        let bs = le16(data, p + 19);
        let kind = data[p + 17];
        let ghost next = p + 209 + bs;
        let ghost before = fonts@.map_values(|f: TdfFont| f@);
        if kind == 1 || kind == 2 {
            let f = read_font(data, p);
            fonts.push(f);
            assert(fonts@.map_values(|f: TdfFont| f@) =~= before.push(font_at(data@, p as int)));
        }
        if bs > data.len() - (p + 209) {
            assert(fonts_from(data@, next) =~= Seq::<FontView>::empty());
            assert(fonts@.map_values(|f: TdfFont| f@) =~= fonts_from(data@, 20));
            break;
        }
        pos = p + 209 + bs;
    }
    assert(fonts@.map_values(|f: TdfFont| f@) =~= fonts@.map_values(|f: TdfFont| f@) + Seq::<FontView>::empty());
    Some(fonts)
}

/// The cell a glyph char with a DOS attribute draws: foreground from the
/// low nibble, background from bits 4-6.
pub open spec fn cell_of(gc: char, attr: u8) -> Cell {
    Cell { ch: gc, fg: attr & 0x0Fu8, bg: (attr >> 4u8) & 0x07u8 }
}

/// Spaces on a black background are transparent, so banners layer over
/// art.
pub open spec fn transparent(gc: char, attr: u8) -> bool {
    gc == ' ' && (attr >> 4u8) & 0x07u8 == 0
}

/// The grid after drawing the first `n` chars of a glyph row at (cx, py).
pub open spec fn draw_row(v: Seq<Seq<Cell>>, row: Seq<(char, u8)>, cx: int, py: int, n: int) -> Seq<
    Seq<Cell>,
>
    decreases n,
{
    if n <= 0 {
        v
    } else {
        let w = draw_row(v, row, cx, py, n - 1);
        let gc = row[n - 1].0;
        let attr = row[n - 1].1;
        if transparent(gc, attr) {
            w
        } else {
            put(w, cx + n - 1, py, cell_of(gc, attr))
        }
    }
}

/// The grid after drawing the first `n` rows of a glyph at (cx, y).
pub open spec fn draw_rows(v: Seq<Seq<Cell>>, rows: Seq<Seq<(char, u8)>>, cx: int, y: int, n: int) -> Seq<
    Seq<Cell>,
>
    decreases n,
{
    if n <= 0 {
        v
    } else {
        let w = draw_rows(v, rows, cx, y, n - 1);
        draw_row(w, rows[n - 1], cx, y + n - 1, rows[n - 1].len() as int)
    }
}

/// The state after stamping the first `k` chars of `text` at (x, y): the
/// grid, the next column, the tallest glyph so far, and whether stamping
/// has stopped at the right edge. A space advances by the space width; a
/// char without a glyph is skipped; a glyph advances by its width plus the
/// font's spacing, and stamping stops once the column reaches `WIDTH`.
pub open spec fn stamp_upto(f: FontView, v: Seq<Seq<Cell>>, text: Seq<char>, k: int, x: int, y: int) -> (
    Seq<Seq<Cell>>,
    int,
    int,
    bool,
)
    decreases k,
{
    if k <= 0 {
        (v, x, 0, false)
    } else {
        let prev = stamp_upto(f, v, text, k - 1, x, y);
        if prev.3 {
            prev
        } else if text[k - 1] == ' ' {
            (prev.0, prev.1 + space_of(f), prev.2, false)
        } else {
            match glyph_for(f, text[k - 1]) {
                None => prev,
                Some(g) => {
                    let cx2 = prev.1 + g.width + f.spacing;
                    (
                        draw_rows(prev.0, g.rows, prev.1, y, g.rows.len() as int),
                        cx2,
                        if g.rows.len() > prev.2 {
                            g.rows.len() as int
                        } else {
                            prev.2
                        },
                        cx2 >= WIDTH,
                    )
                },
            }
        }
    }
}

proof fn lemma_stamp_bounds(f: FontView, v: Seq<Seq<Cell>>, text: Seq<char>, k: int, x: int, y: int)
    requires
        font_ok(f),
        0 <= k <= text.len(),
    ensures
        x <= stamp_upto(f, v, text, k, x, y).1 <= x + 335 * k,
        0 <= stamp_upto(f, v, text, k, x, y).2 <= 65535,
    decreases k,
{
    if k > 0 {
        lemma_stamp_bounds(f, v, text, k - 1, x, y);
        lemma_space_of(f);
        let c = text[k - 1];
        lemma_glyph_for_ok(f, c);
        let prev = stamp_upto(f, v, text, k - 1, x, y);
        let cur = stamp_upto(f, v, text, k, x, y);
        assert(335 * (k - 1) + 335 == 335 * k);
        if prev.3 {
            assert(cur == prev);
        } else if c == ' ' {
            assert(cur.1 == prev.1 + space_of(f));
        } else {
            match glyph_for(f, c) {
                Some(g) => {
                    assert(glyph_ok(g));
                    assert(cur.1 == prev.1 + g.width + f.spacing);
                    assert(g.rows.len() <= 65535);
                },
                None => {
                    assert(cur == prev);
                },
            }
        }
    }
}

proof fn lemma_glyph_for_ok(f: FontView, c: char)
    requires
        font_ok(f),
    ensures
        glyph_for(f, c) matches Some(g) ==> glyph_ok(g),
{
    let i = c as int - 33;
    let iu = ascii_upper(c) as int - 33;
    let il = ascii_lower(c) as int - 33;
    if 0 <= i < 94 {
        assert(f.glyphs[i] matches Some(g) ==> glyph_ok(g));
    }
    if 0 <= iu < 94 {
        assert(f.glyphs[iu] matches Some(g) ==> glyph_ok(g));
    }
    if 0 <= il < 94 {
        assert(f.glyphs[il] matches Some(g) ==> glyph_ok(g));
    }
}

proof fn lemma_space_of(f: FontView)
    requires
        font_ok(f),
    ensures
        2 <= space_of(f) <= 80,
{
    lemma_width_sum(f, 94);
    let n = glyph_count(f.glyphs, 94);
    let s = width_sum(f.glyphs, 94);
    if n > 0 {
        assert(s / n <= 80) by (nonlinear_arith)
            requires
                s <= 80 * n,
                n > 0,
                s >= 0,
        ;
    }
}

proof fn lemma_width_sum(f: FontView, n: int)
    requires
        font_ok(f),
        0 <= n <= 94,
    ensures
        0 <= width_sum(f.glyphs, n) <= 80 * glyph_count(f.glyphs, n),
        glyph_count(f.glyphs, n) >= 0,
    decreases n,
{
    if n > 0 {
        lemma_width_sum(f, n - 1);
        assert(f.glyphs[n - 1] matches Some(g) ==> glyph_ok(g));
    }
}

fn stamp_glyph(canvas: &mut Canvas, g: &Glyph, cx: usize, y: usize)
    requires
        old(canvas).wf(),
        glyph_ok(g@),
        cx + 65535 <= usize::MAX,
        y + 65535 <= usize::MAX,
    ensures
        final(canvas).wf(),
        final(canvas)@ == draw_rows(old(canvas)@, g@.rows, cx as int, y as int, g@.rows.len() as int),
{
    let ghost v = canvas@;
    let mut ry: usize = 0;
    while ry < g.rows.len()
        invariant
            canvas.wf(),
            glyph_ok(g@),
            cx + 65535 <= usize::MAX,
            y + 65535 <= usize::MAX,
            ry <= g.rows@.len(),
            canvas@ == draw_rows(v, g@.rows, cx as int, y as int, ry as int),
        decreases g.rows@.len() - ry,
    {
        let row = &g.rows[ry];
        assert(g@.rows[ry as int] == row@);
        let ghost w0 = canvas@;
        let mut rx: usize = 0;
        while rx < row.len()
            invariant
                canvas.wf(),
                glyph_ok(g@),
                cx + 65535 <= usize::MAX,
                y + 65535 <= usize::MAX,
                ry < g.rows@.len(),
                row@ == g@.rows[ry as int],
                rx <= row@.len(),
                canvas@ == draw_row(w0, row@, cx as int, y + ry, rx as int),
            decreases row@.len() - rx,
        {
            assert(row@.len() <= 65535);
            let (gc, attr) = row[rx];
            let px = cx + rx;
            let py = y + ry;
            let fg = attr & 0x0F;
            let bg = (attr >> 4) & 0x07;
            if !(gc == ' ' && bg == 0) && px < WIDTH && py < MAX_ROWS {
                canvas.set(px, py, Cell { ch: gc, fg, bg });
            }
            rx = rx + 1;
        }
        ry = ry + 1;
    }
}

/// Stamp `text` onto the canvas at cell (x, y). Space cells within glyphs
/// are transparent so banners layer over art. Returns (width, height) used.
pub fn stamp(canvas: &mut Canvas, font: &TdfFont, text: &str, x: usize, y: usize) -> (r: (usize, usize))
    requires
        old(canvas).wf(),
        font.wf(),
        x + 335 * text@.len() + 65535 <= usize::MAX,
        y + 65535 <= usize::MAX,
    ensures
        final(canvas).wf(),
        ({
            let s = stamp_upto(font@, old(canvas)@, text@, text@.len() as int, x as int, y as int);
            &&& final(canvas)@ == s.0
            &&& r.0 == s.1 - x
            &&& r.1 == s.2
        }),
{
    let ghost v = canvas@;
    let n = text.unicode_len();
    let mut cx: usize = x;
    let mut max_h: usize = 0;
    let mut k: usize = 0;
    while k < n
        invariant_except_break
            !stamp_upto(font@, v, text@, k as int, x as int, y as int).3,
        invariant
            canvas.wf(),
            font.wf(),
            n == text@.len(),
            x + 335 * text@.len() + 65535 <= usize::MAX,
            y + 65535 <= usize::MAX,
            k <= n,
            ({
                let s = stamp_upto(font@, v, text@, k as int, x as int, y as int);
                &&& canvas@ == s.0
                &&& cx == s.1
                &&& max_h == s.2
            }),
        ensures
            ({
                let s = stamp_upto(font@, v, text@, text@.len() as int, x as int, y as int);
                &&& canvas@ == s.0
                &&& cx == s.1
                &&& max_h == s.2
            }),
        decreases n - k,
    {
        proof {
            lemma_stamp_bounds(font@, v, text@, k as int, x as int, y as int);
            lemma_space_of(font@);
            lemma_glyph_for_ok(font@, text@[k as int]);
        }
        assert(335 * k + 335 <= 335 * text@.len()) by (nonlinear_arith)
            requires
                k < text@.len(),
        ;
        let ch = text.get_char(k);
        if ch == ' ' {
            cx = cx + font.space_width();
            k = k + 1;
            continue;
        }
        match font.glyph(ch) {
            None => {
                k = k + 1;
                continue;
            },
            Some(g) => {
                stamp_glyph(canvas, g, cx, y);
                if g.rows.len() > max_h {
                    max_h = g.rows.len();
                }
                cx = cx + g.width + font.spacing;
                k = k + 1;
                if cx >= WIDTH {
                    proof {
                        lemma_stamp_stopped(font@, v, text@, k as int, x as int, y as int);
                        lemma_stamp_bounds(font@, v, text@, k as int, x as int, y as int);
                    }
                    break;
                }
            },
        }
    }
    proof {
        lemma_stamp_bounds(font@, v, text@, text@.len() as int, x as int, y as int);
    }
    (cx - x, max_h)
}

proof fn lemma_stamp_stopped(f: FontView, v: Seq<Seq<Cell>>, text: Seq<char>, k: int, x: int, y: int)
    requires
        0 <= k <= text.len(),
        stamp_upto(f, v, text, k, x, y).3,
    ensures
        stamp_upto(f, v, text, text.len() as int, x, y) == stamp_upto(f, v, text, k, x, y),
    decreases text.len() - k,
{
    if k < text.len() {
        assert(stamp_upto(f, v, text, k + 1, x, y) == stamp_upto(f, v, text, k, x, y));
        lemma_stamp_stopped(f, v, text, k + 1, x, y);
    }
}

/// The width in cells that `text` takes: spaces at the space width, glyphs
/// at their width plus the spacing, chars without a glyph not at all.
pub open spec fn measure_of(f: FontView, text: Seq<char>) -> int
    decreases text.len(),
{
    if text.len() == 0 {
        0
    } else {
        let c = text.last();
        measure_of(f, text.drop_last()) + if c == ' ' {
            space_of(f)
        } else {
            match glyph_for(f, c) {
                Some(g) => g.width + f.spacing,
                None => 0,
            }
        }
    }
}

proof fn lemma_stamp_measure_upto(f: FontView, v: Seq<Seq<Cell>>, text: Seq<char>, k: int, x: int, y: int)
    requires
        0 <= k <= text.len(),
        !stamp_upto(f, v, text, k, x, y).3,
    ensures
        stamp_upto(f, v, text, k, x, y).1 == x + measure_of(f, text.take(k)),
    decreases k,
{
    if k > 0 {
        let prev = stamp_upto(f, v, text, k - 1, x, y);
        assert(!prev.3);
        lemma_stamp_measure_upto(f, v, text, k - 1, x, y);
        assert(text.take(k).drop_last() =~= text.take(k - 1));
        assert(text.take(k).last() == text[k - 1]);
    } else {
        assert(text.take(0).len() == 0);
    }
}

/// Stamping text that stays left of the right edge advances by exactly the
/// width `measure` gives, so centering by `measure` centers the stamp.
pub proof fn lemma_stamp_width_is_measure(f: FontView, v: Seq<Seq<Cell>>, text: Seq<char>, x: int, y: int)
    requires
        !stamp_upto(f, v, text, text.len() as int, x, y).3,
    ensures
        stamp_upto(f, v, text, text.len() as int, x, y).1 - x == measure_of(f, text),
{
    lemma_stamp_measure_upto(f, v, text, text.len() as int, x, y);
    assert(text.take(text.len() as int) =~= text);
}

/// No text measures less than nothing.
pub proof fn lemma_measure_nonneg(f: FontView, text: Seq<char>)
    requires
        font_ok(f),
    ensures
        measure_of(f, text) >= 0,
    decreases text.len(),
{
    if text.len() > 0 {
        lemma_measure_nonneg(f, text.drop_last());
        lemma_glyph_for_ok(f, text.last());
    }
}

/// The width of two texts one after the other is the sum of their widths.
pub proof fn lemma_measure_concat(f: FontView, a: Seq<char>, b: Seq<char>)
    ensures
        measure_of(f, a + b) == measure_of(f, a) + measure_of(f, b),
    decreases b.len(),
{
    if b.len() == 0 {
        assert(a + b =~= a);
    } else {
        assert((a + b).drop_last() =~= a + b.drop_last());
        assert((a + b).last() == b.last());
        lemma_measure_concat(f, a, b.drop_last());
    }
}

proof fn lemma_stamp_fits_upto(f: FontView, v: Seq<Seq<Cell>>, text: Seq<char>, k: int, x: int, y: int)
    requires
        font_ok(f),
        0 <= k <= text.len(),
        x + measure_of(f, text) < WIDTH,
    ensures
        !stamp_upto(f, v, text, k, x, y).3,
        stamp_upto(f, v, text, k, x, y).1 == x + measure_of(f, text.take(k)),
    decreases k,
{
    if k == 0 {
        assert(text.take(0).len() == 0);
    } else {
        lemma_stamp_fits_upto(f, v, text, k - 1, x, y);
        assert(text.take(k).drop_last() =~= text.take(k - 1));
        assert(text.take(k).last() == text[k - 1]);
        lemma_measure_concat(f, text.take(k), text.skip(k));
        assert(text.take(k) + text.skip(k) =~= text);
        lemma_measure_nonneg(f, text.skip(k));
    }
}

/// Text whose measured width, started at column `x`, stays left of the
/// right edge is stamped whole: stamping never stops early, and it
/// advances by exactly the measured width.
pub proof fn lemma_stamp_fits(f: FontView, v: Seq<Seq<Cell>>, text: Seq<char>, x: int, y: int)
    requires
        font_ok(f),
        x + measure_of(f, text) < WIDTH,
    ensures
        !stamp_upto(f, v, text, text.len() as int, x, y).3,
        stamp_upto(f, v, text, text.len() as int, x, y).1 - x == measure_of(f, text),
{
    lemma_stamp_fits_upto(f, v, text, text.len() as int, x, y);
    assert(text.take(text.len() as int) =~= text);
}

/// Width in cells that `text` would occupy, for centering.
pub fn measure(font: &TdfFont, text: &str) -> (w: usize)
    requires
        font.wf(),
        335 * text@.len() <= usize::MAX,
    ensures
        w == measure_of(font@, text@),
{
    let n = text.unicode_len();
    let mut w: usize = 0;
    let mut k: usize = 0;
    while k < n
        invariant
            font.wf(),
            n == text@.len(),
            335 * text@.len() <= usize::MAX,
            k <= n,
            w == measure_of(font@, text@.take(k as int)),
            w <= 335 * k,
        decreases n - k,
    {
        proof {
            lemma_space_of(font@);
            lemma_glyph_for_ok(font@, text@[k as int]);
        }
        assert(335 * k + 335 <= 335 * text@.len()) by (nonlinear_arith)
            requires
                k < text@.len(),
        ;
        let ch = text.get_char(k);
        assert(text@.take(k + 1).drop_last() =~= text@.take(k as int));
        if ch == ' ' {
            w = w + font.space_width();
        } else {
            match font.glyph(ch) {
                Some(g) => {
                    w = w + g.width + font.spacing;
                },
                None => {},
            }
        }
        k = k + 1;
    }
    assert(text@.take(n as int) =~= text@);
    w
}

} // verus!
