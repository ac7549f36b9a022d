//! SAUCE v00 records — "Standard Architecture for Universal Comment
//! Extensions" (Tasmaniac / ACiD, spec shipped with ACiDDraw as SAUCE.DOC).
//!
//! A SAUCE'd file ends with: EOF byte 0x1A, an optional COMNT block
//! ("COMNT" + n*64 bytes), and the 128-byte record itself.
use vstd::prelude::*;

use crate::cp437::{byte_to_char, char_to_byte, encoded, glyph};
use crate::date::{date_text, is_date_text};
use vstd::string::StrSliceExecFns;

verus! {

pub const REC_LEN: usize = 128;

/// The metadata of a SAUCE record.
#[derive(Clone, Debug, PartialEq)]
pub struct Sauce {
    /// at most 35 chars are stored
    pub title: String,
    /// at most 20 chars are stored
    pub author: String,
    /// at most 20 chars are stored
    pub group: String,
    /// CCYYMMDD as read from the file; regenerated on save.
    pub date: String,
    /// 64 chars each
    pub comments: Vec<String>,
    /// ANSiFlags bit 0: iCE colors.
    pub ice: bool,
}

/// The text content of a SAUCE record.
pub struct SauceText {
    pub title: Seq<char>,
    pub author: Seq<char>,
    pub group: Seq<char>,
    pub date: Seq<char>,
    pub comments: Seq<Seq<char>>,
    pub ice: bool,
}

impl View for Sauce {
    type V = SauceText;

    open spec fn view(&self) -> SauceText {
        SauceText {
            title: self.title@,
            author: self.author@,
            group: self.group@,
            date: self.date@,
            comments: self.comments@.map_values(|c: String| c@),
            ice: self.ice,
        }
    }
}

impl Default for Sauce {
    fn default() -> (s: Sauce)
        ensures
            s.title@ == Seq::<char>::empty(),
            s.author@ == Seq::<char>::empty(),
            s.group@ == Seq::<char>::empty(),
            s.date@ == Seq::<char>::empty(),
            s.comments@ == Seq::<String>::empty(),
            !s.ice,
    {
        Sauce {
            title: String::new(),
            author: String::new(),
            group: String::new(),
            date: String::new(),
            comments: Vec::new(),
            ice: false,
        }
    }
}

/// Append one char to a string (`String::push`).
#[verifier::external_body]
pub(crate) fn string_push(s: &mut String, c: char)
    ensures
        final(s)@ == old(s)@.push(c),
{
    s.push(c);
}

/// Unicode's White_Space property, which `str::trim_end` strips.
pub open spec fn is_white_space(c: char) -> bool {
    ||| '\u{9}' <= c <= '\u{d}'
    ||| c == ' '
    ||| c == '\u{85}'
    ||| c == '\u{a0}'
    ||| c == '\u{1680}'
    ||| '\u{2000}' <= c <= '\u{200a}'
    ||| c == '\u{2028}'
    ||| c == '\u{2029}'
    ||| c == '\u{202f}'
    ||| c == '\u{205f}'
    ||| c == '\u{3000}'
}

pub fn is_whitespace(c: char) -> (r: bool)
    ensures
        r == is_white_space(c),
{
    ('\u{9}' <= c && c <= '\u{d}') || c == ' ' || c == '\u{85}' || c == '\u{a0}' || c == '\u{1680}'
        || ('\u{2000}' <= c && c <= '\u{200a}') || c == '\u{2028}' || c == '\u{2029}' || c
        == '\u{202f}' || c == '\u{205f}' || c == '\u{3000}'
}

/// The text without its trailing white space.
pub open spec fn trim_end(cs: Seq<char>) -> Seq<char>
    decreases cs.len(),
{
    if cs.len() > 0 && is_white_space(cs.last()) {
        trim_end(cs.drop_last())
    } else {
        cs
    }
}

/// The text a stored field shows: its CP437 glyphs, trailing white space
/// trimmed.
pub open spec fn field_text(bytes: Seq<u8>) -> Seq<char> {
    trim_end(bytes.map_values(|b: u8| glyph(b)))
}

pub open spec fn sauce_magic() -> Seq<u8> {
    seq![0x53u8, 0x41, 0x55, 0x43, 0x45, 0x30, 0x30]
}

pub open spec fn comnt_magic() -> Seq<u8> {
    seq![0x43u8, 0x4F, 0x4D, 0x4E, 0x54]
}

/// The field of `len` bytes at `start`.
pub open spec fn field_at(data: Seq<u8>, start: int, len: int) -> Seq<char> {
    field_text(data.subrange(start, start + len))
}

/// The comment lines that the record announces, when the COMNT block
/// really precedes it.
pub open spec fn comments_at(data: Seq<u8>, r: int, n: int) -> Seq<Seq<char>> {
    let blk = 5 + 64 * n;
    if n > 0 && r >= blk && data.subrange(r - blk, r - blk + 5) == comnt_magic() {
        Seq::new(n as nat, |i: int| field_at(data, r - blk + 5 + i * 64, 64))
    } else {
        seq![]
    }
}

/// The SAUCE record at the end of `data`, if there is one.
pub open spec fn parsed_sauce(data: Seq<u8>) -> Option<SauceText> {
    if data.len() < REC_LEN {
        None
    } else {
        let r = data.len() - REC_LEN;
        if data.subrange(r, r + 7) != sauce_magic() {
            None
        } else {
            Some(
                SauceText {
                    title: field_at(data, r + 7, 35),
                    author: field_at(data, r + 42, 20),
                    group: field_at(data, r + 62, 20),
                    date: field_at(data, r + 82, 8),
                    comments: comments_at(data, r, data[r + 104] as int),
                    ice: data[r + 105] & 1u8 != 0,
                },
            )
        }
    }
}

/// The text of the `len` bytes at `start`, trailing white space removed.
fn field_to_string(data: &[u8], start: usize, len: usize) -> (s: String)
    requires
        start + len <= data.len(),
    ensures
        s@ == field_at(data@, start as int, len as int),
{
    let ghost cs = data@.subrange(start as int, start + len).map_values(|b: u8| glyph(b));
    assert(cs.take(len as int) =~= cs);
    let mut k = len;
    while k > 0 && is_whitespace(byte_to_char(data[start + k - 1]))
        invariant
            k <= len,
            start + len <= data.len(),
            cs == data@.subrange(start as int, start + len).map_values(|b: u8| glyph(b)),
            trim_end(cs.take(k as int)) == trim_end(cs),
        decreases k,
    {
        assert(cs.take(k as int).drop_last() =~= cs.take(k - 1));
        k = k - 1;
    }
    assert(trim_end(cs.take(k as int)) == cs.take(k as int));
    let mut s = String::new();
    let mut i: usize = 0;
    while i < k
        invariant
            i <= k <= len,
            start + len <= data.len(),
            cs == data@.subrange(start as int, start + len).map_values(|b: u8| glyph(b)),
            s@ == cs.take(i as int),
        decreases k - i,
    {
        let c = byte_to_char(data[start + i]);
        string_push(&mut s, c);
        i = i + 1;
        assert(s@ =~= cs.take(i as int));
    }
    s
}

fn matches_bytes(data: &[u8], start: usize, magic: &[u8]) -> (r: bool)
    requires
        start + magic@.len() <= data.len(),
    ensures
        r == (data@.subrange(start as int, start + magic@.len()) == magic@),
{
    let mut i: usize = 0;
    while i < magic.len()
        invariant
            i <= magic@.len(),
            start + magic@.len() <= data.len(),
            forall|t: int| 0 <= t < i ==> data@[start + t] == magic@[t],
        decreases magic@.len() - i,
    {
        if data[start + i] != magic[i] {
            assert(data@.subrange(start as int, start + magic@.len())[i as int] != magic@[i as int]);
            return false;
        }
        i = i + 1;
    }
    assert(data@.subrange(start as int, start + magic@.len()) =~= magic@);
    true
}

/// Extract the SAUCE record from raw file data, if present.
pub fn parse(data: &[u8]) -> (r: Option<Sauce>)
    ensures
        match r {
            Some(s) => parsed_sauce(data@) == Some(s@),
            None => parsed_sauce(data@) is None,
        },
{
    if data.len() < REC_LEN {
        return None;
    }
    let r = data.len() - REC_LEN;
    let magic: [u8; 7] = [0x53, 0x41, 0x55, 0x43, 0x45, 0x30, 0x30];
    assert(magic@ =~= sauce_magic());
    if !matches_bytes(data, r, &magic) {
        return None;
    }
    let n = data[r + 104] as usize;
    let mut comments: Vec<String> = Vec::new();
    let blk = 5 + 64 * n;
    let comnt: [u8; 5] = [0x43, 0x4F, 0x4D, 0x4E, 0x54];
    assert(comnt@ =~= comnt_magic());
    if n > 0 && r >= blk && matches_bytes(data, r - blk, &comnt) {
        let mut i: usize = 0;
        while i < n
            invariant
                i <= n,
                n == data@[r + 104],
                blk == 5 + 64 * n,
                r == data@.len() - REC_LEN,
                r >= blk,
                comments@.len() == i,
                forall|k: int|
                    0 <= k < i ==> (#[trigger] comments@[k])@ == field_at(
                        data@,
                        r - blk + 5 + k * 64,
                        64,
                    ),
            decreases n - i,
        {
            let s = r - blk + 5 + i * 64;
            comments.push(field_to_string(data, s, 64));
            i = i + 1;
        }
        assert(comments@.map_values(|c: String| c@) =~= comments_at(data@, r as int, n as int));
    } else {
        assert(comments@.map_values(|c: String| c@) =~= comments_at(data@, r as int, n as int));
    }
    Some(
        Sauce {
            title: field_to_string(data, r + 7, 35),
            author: field_to_string(data, r + 42, 20),
            group: field_to_string(data, r + 62, 20),
            date: field_to_string(data, r + 82, 8),
            comments,
            ice: data[r + 105] & 1 != 0,
        },
    )
}

/// A text field of `len` bytes: the CP437 bytes of its first `len` chars,
/// padded with spaces.
pub open spec fn field_bytes(cs: Seq<char>, len: int) -> Seq<u8> {
    let k = if cs.len() < len {
        cs.len() as int
    } else {
        len
    };
    cs.take(k).map_values(|c: char| encoded(c)) + Seq::new((len - k) as nat, |i: int| 0x20u8)
}

/// The COMNT lines, 64 bytes each.
pub open spec fn comment_bytes(cs: Seq<Seq<char>>) -> Seq<u8>
    decreases cs.len(),
{
    if cs.len() == 0 {
        seq![]
    } else {
        comment_bytes(cs.drop_last()) + field_bytes(cs.last(), 64)
    }
}

/// Little-endian bytes of a 16-bit value.
pub open spec fn le16(v: u16) -> Seq<u8> {
    seq![#[verifier::truncate] (v as u8), #[verifier::truncate] ((v >> 8u16) as u8)]
}

/// Little-endian bytes of a 32-bit value.
pub open spec fn le32(v: u32) -> Seq<u8> {
    seq![
        #[verifier::truncate] (v as u8),
        #[verifier::truncate] ((v >> 8u32) as u8),
        #[verifier::truncate] ((v >> 16u32) as u8),
        #[verifier::truncate] ((v >> 24u32) as u8),
    ]
}

/// The comments that get stored: the first 255.
pub open spec fn stored_comments(cs: Seq<Seq<char>>) -> Seq<Seq<char>> {
    if cs.len() <= 255 {
        cs
    } else {
        cs.take(255)
    }
}

/// The 128-byte record for an ANSI character file of `width` x `lines`
/// whose art is `filesize` bytes long, dated `date`, announcing `n`
/// comment lines.
pub open spec fn record_bytes(s: SauceText, filesize: u32, width: u16, lines: u16, date: Seq<char>, n: u8) -> Seq<u8> {
    sauce_magic() + field_bytes(s.title, 35) + field_bytes(s.author, 20) + field_bytes(s.group, 20)
        + field_bytes(date, 8) + record_numbers(filesize, width, lines, n, s.ice)
}

/// What `append` adds after the art: the EOF byte, the COMNT block when
/// there are comments, and the record.
pub open spec fn sauce_block(s: SauceText, filesize: u32, width: u16, lines: u16, date: Seq<char>) -> Seq<u8> {
    let cs = stored_comments(s.comments);
    seq![0x1Au8] + comments_block(cs) + record_bytes(s, filesize, width, lines, date, cs.len() as u8)
}

/// Write the first `len` chars of `s` as CP437 bytes, padded with spaces.
fn push_field(out: &mut Vec<u8>, s: &str, len: usize)
    ensures
        final(out)@ == old(out)@ + field_bytes(s@, len as int),
{
    let ghost start = out@;
    let n = s.unicode_len();
    let k = if n < len { n } else { len };
    let mut i: usize = 0;
    while i < k
        invariant
            k <= n == s@.len(),
            k <= len,
            i <= k,
            out@ == start + s@.take(i as int).map_values(|c: char| encoded(c)),
        decreases k - i,
    {
        out.push(char_to_byte(s.get_char(i)));
        i = i + 1;
        assert(out@ =~= start + s@.take(i as int).map_values(|c: char| encoded(c)));
    }
    let mut j: usize = k;
    while j < len
        invariant
            k <= j <= len,
            out@ == start + s@.take(k as int).map_values(|c: char| encoded(c)) + Seq::new(
                (j - k) as nat,
                |t: int| 0x20u8,
            ),
        decreases len - j,
    {
        out.push(0x20);
        j = j + 1;
        assert(out@ =~= start + s@.take(k as int).map_values(|c: char| encoded(c)) + Seq::new(
            (j - k) as nat,
            |t: int| 0x20u8,
        ));
    }
    assert(out@ =~= start + field_bytes(s@, len as int));
}

fn push_bytes(out: &mut Vec<u8>, bytes: &[u8])
    ensures
        final(out)@ == old(out)@ + bytes@,
{
    let ghost start = out@;
    let mut i: usize = 0;
    while i < bytes.len()
        invariant
            i <= bytes@.len(),
            out@ == start + bytes@.take(i as int),
        decreases bytes@.len() - i,
    {
        out.push(bytes[i]);
        i = i + 1;
        assert(out@ =~= start + bytes@.take(i as int));
    }
    assert(bytes@.take(bytes@.len() as int) =~= bytes@);
}

/// The comment part of the block: "COMNT" and the stored lines, if any.
pub open spec fn comments_block(cs: Seq<Seq<char>>) -> Seq<u8> {
    if cs.len() > 0 {
        comnt_magic() + comment_bytes(cs)
    } else {
        seq![]
    }
}

fn push_comments(out: &mut Vec<u8>, s: &Sauce) -> (n: usize)
    ensures
        n == stored_comments(s@.comments).len(),
        n <= 255,
        final(out)@ == old(out)@ + comments_block(stored_comments(s@.comments)),
{
    let ghost start = out@;
    let n = if s.comments.len() < 255 { s.comments.len() } else { 255 };
    let ghost cs = stored_comments(s@.comments);
    assert(cs.len() == n);
    if n > 0 {
        let comnt: [u8; 5] = [0x43, 0x4F, 0x4D, 0x4E, 0x54];
        assert(comnt@ =~= comnt_magic());
        push_bytes(out, &comnt);
        let mut i: usize = 0;
        while i < n
            invariant
                i <= n,
                n <= s.comments@.len(),
                n <= 255,
                cs == stored_comments(s@.comments),
                cs.len() == n,
                out@ == start + comnt_magic() + comment_bytes(cs.take(i as int)),
            decreases n - i,
        {
            assert(s@.comments[i as int] == s.comments@[i as int]@);
            assert(cs[i as int] == s@.comments[i as int]);
            push_field(out, s.comments[i].as_str(), 64);
            i = i + 1;
            assert(cs.take(i as int).drop_last() =~= cs.take(i - 1));
            assert(out@ =~= start + comnt_magic() + comment_bytes(cs.take(i as int)));
        }
        assert(cs.take(n as int) =~= cs);
    } else {
        assert(out@ =~= start + comments_block(cs));
    }
    n
}

/// The record's numeric tail after the date: file size, data and file
/// type, the dimensions, two unused words, comment count and flags.
pub open spec fn record_numbers(filesize: u32, width: u16, lines: u16, n: u8, ice: bool) -> Seq<u8> {
    le32(filesize) + seq![1u8, 1u8] + le16(width) + le16(lines) + seq![0u8, 0, 0, 0] + seq![
        n,
        if ice { 1u8 } else { 0u8 },
    ] + Seq::new(22, |i: int| 0u8)
}

fn push_numbers(out: &mut Vec<u8>, filesize: u32, width: u16, lines: u16, n: u8, ice: bool)
    ensures
        final(out)@ == old(out)@ + record_numbers(filesize, width, lines, n, ice),
{
    let ghost start = out@;
    out.push(#[verifier::truncate] (filesize as u8));
    out.push(#[verifier::truncate] ((filesize >> 8) as u8));
    out.push(#[verifier::truncate] ((filesize >> 16) as u8));
    out.push(#[verifier::truncate] ((filesize >> 24) as u8));
    out.push(1);
    out.push(1);
    out.push(#[verifier::truncate] (width as u8));
    out.push(#[verifier::truncate] ((width >> 8) as u8));
    out.push(#[verifier::truncate] (lines as u8));
    out.push(#[verifier::truncate] ((lines >> 8) as u8));
    out.push(0);
    out.push(0);
    out.push(0);
    out.push(0);
    out.push(n);
    out.push(if ice { 1 } else { 0 });
    let ghost before_zeros = out@;
    let mut z: usize = 0;
    while z < 22
        invariant
            z <= 22,
            out@ == before_zeros + Seq::new(z as nat, |t: int| 0u8),
        decreases 22 - z,
    {
        out.push(0);
        z = z + 1;
        assert(out@ =~= before_zeros + Seq::new(z as nat, |t: int| 0u8));
    }
    assert(out@ =~= start + record_numbers(filesize, width, lines, n, ice));
}

fn push_record(out: &mut Vec<u8>, s: &Sauce, filesize: u32, width: u16, lines: u16, date: &str, n: u8)
    ensures
        final(out)@ == old(out)@ + record_bytes(s@, filesize, width, lines, date@, n),
{
    let ghost start = out@;
    let magic: [u8; 7] = [0x53, 0x41, 0x55, 0x43, 0x45, 0x30, 0x30];
    assert(magic@ =~= sauce_magic());
    push_bytes(out, &magic);
    let ghost p1 = sauce_magic();
    push_field(out, s.title.as_str(), 35);
    let ghost p2 = p1 + field_bytes(s@.title, 35);
    assert(out@ =~= start + p2);
    push_field(out, s.author.as_str(), 20);
    let ghost p3 = p2 + field_bytes(s@.author, 20);
    assert(out@ =~= start + p3);
    push_field(out, s.group.as_str(), 20);
    let ghost p4 = p3 + field_bytes(s@.group, 20);
    assert(out@ =~= start + p4);
    push_field(out, date, 8);
    let ghost p5 = p4 + field_bytes(date@, 8);
    assert(out@ =~= start + p5);
    push_numbers(out, filesize, width, lines, n, s.ice);
    let ghost p6 = p5 + record_numbers(filesize, width, lines, n, s@.ice);
    assert(out@ =~= start + p6);
}

/// Append the EOF byte, the comment block and a SAUCE record dated `date`
/// to a serialized image. `width`/`lines` are the character dimensions
/// (TInfo1/TInfo2).
pub fn append_dated(out: &mut Vec<u8>, s: &Sauce, width: u16, lines: u16, date: &str)
    ensures
        final(out)@ == old(out)@ + sauce_block(
            s@,
            #[verifier::truncate] (old(out)@.len() as u32),
            width,
            lines,
            date@,
        ),
{
    let ghost start = out@;
    let filesize = #[verifier::truncate] (out.len() as u32);
    out.push(0x1A);
    let n = push_comments(out, s);
    let ghost cs = stored_comments(s@.comments);
    assert(out@ =~= start + (seq![0x1Au8] + comments_block(cs)));
    push_record(out, s, filesize, width, lines, date, n as u8);
    assert(out@ =~= start + sauce_block(s@, filesize, width, lines, date@));
}

/// Seconds since 1970-01-01 00:00 UTC by the system clock
/// (`SystemTime::elapsed` on `UNIX_EPOCH`), or 0 when the clock reads
/// earlier than that. Nothing is promised of the value: it is the time.
#[verifier::external_body]
fn unix_time_secs() -> u64 {
    match std::time::UNIX_EPOCH.elapsed() {
        Ok(d) => d.as_secs(),
        Err(_) => 0,
    }
}

/// Current UTC date as CCYYMMDD.
pub fn today_yyyymmdd() -> (r: String)
    ensures
        is_date_text(r@),
{
    date_text(unix_time_secs())
}

/// Append the EOF byte, the comment block and a SAUCE record dated today
/// to a serialized image. `width`/`lines` are the character dimensions
/// (TInfo1/TInfo2).
pub fn append(out: &mut Vec<u8>, s: &Sauce, width: u16, lines: u16)
    ensures
        exists|date: Seq<char>|
            is_date_text(date) && final(out)@ == old(out)@ + #[trigger] sauce_block(
                s@,
                #[verifier::truncate] (old(out)@.len() as u32),
                width,
                lines,
                date,
            ),
{
    let date = today_yyyymmdd();
    append_dated(out, s, width, lines, date.as_str());
}

/// The text a field reads back as: at most `len` chars, each through the
/// CP437 round trip (unencodable chars become `?`), trailing white space
/// trimmed.
pub open spec fn stored_text(cs: Seq<char>, len: int) -> Seq<char> {
    let k = if cs.len() < len {
        cs.len() as int
    } else {
        len
    };
    trim_end(cs.take(k).map_values(|c: char| glyph(encoded(c))))
}

/// The record that `parse` finds after `append`.
pub open spec fn stored_sauce(s: SauceText, date: Seq<char>) -> SauceText {
    SauceText {
        title: stored_text(s.title, 35),
        author: stored_text(s.author, 20),
        group: stored_text(s.group, 20),
        date: stored_text(date, 8),
        comments: stored_comments(s.comments).map_values(|c: Seq<char>| stored_text(c, 64)),
        ice: s.ice,
    }
}

proof fn lemma_trim_end_spaces(a: Seq<char>, n: nat)
    ensures
        trim_end(a + Seq::new(n, |i: int| ' ')) == trim_end(a),
    decreases n,
{
    if n > 0 {
        let w = a + Seq::new(n, |i: int| ' ');
        assert(w.drop_last() =~= a + Seq::new((n - 1) as nat, |i: int| ' '));
        lemma_trim_end_spaces(a, (n - 1) as nat);
    } else {
        assert(a + Seq::new(n, |i: int| ' ') =~= a);
    }
}

proof fn lemma_field_roundtrip(cs: Seq<char>, len: int)
    requires
        len >= 0,
    ensures
        field_bytes(cs, len).len() == len,
        field_text(field_bytes(cs, len)) == stored_text(cs, len),
{
    let k = if cs.len() < len {
        cs.len() as int
    } else {
        len
    };
    let bytes = field_bytes(cs, len);
    let g = bytes.map_values(|b: u8| glyph(b));
    let a = cs.take(k).map_values(|c: char| glyph(encoded(c)));
    assert(glyph(0x20) == ' ');
    assert(g =~= a + Seq::new((len - k) as nat, |i: int| ' '));
    lemma_trim_end_spaces(a, (len - k) as nat);
}

proof fn lemma_comment_bytes(cs: Seq<Seq<char>>, i: int)
    requires
        0 <= i < cs.len(),
    ensures
        comment_bytes(cs).len() == 64 * cs.len(),
        comment_bytes(cs).subrange(64 * i, 64 * i + 64) == field_bytes(cs[i], 64),
    decreases cs.len(),
{
    lemma_field_roundtrip(cs.last(), 64);
    if i < cs.len() - 1 {
        lemma_comment_bytes(cs.drop_last(), i);
        let a = comment_bytes(cs.drop_last());
        assert(comment_bytes(cs).subrange(64 * i, 64 * i + 64) =~= a.subrange(64 * i, 64 * i + 64));
    } else {
        if cs.len() > 1 {
            lemma_comment_bytes(cs.drop_last(), 0);
        } else {
            assert(cs.drop_last().len() == 0);
            assert(comment_bytes(cs.drop_last()).len() == 0);
        }
        let a = comment_bytes(cs.drop_last());
        assert(comment_bytes(cs).subrange(64 * i, 64 * i + 64) =~= field_bytes(cs[i], 64));
    }
}

proof fn lemma_comment_bytes_len(cs: Seq<Seq<char>>)
    ensures
        comment_bytes(cs).len() == 64 * cs.len(),
    decreases cs.len(),
{
    if cs.len() > 0 {
        lemma_comment_bytes_len(cs.drop_last());
        lemma_field_roundtrip(cs.last(), 64);
    }
}

/// The block `append` adds is the EOF byte, a COMNT block of 5 + 64 bytes
/// per stored comment when there are comments (at most 255), and the
/// 128-byte record.
pub proof fn lemma_sauce_block_len(s: SauceText, filesize: u32, width: u16, lines: u16, date: Seq<char>)
    ensures
        sauce_block(s, filesize, width, lines, date).len() == 1 + (if s.comments.len() == 0 {
            0
        } else {
            5 + 64 * stored_comments(s.comments).len()
        }) + REC_LEN,
        stored_comments(s.comments).len() == if s.comments.len() <= 255 {
            s.comments.len() as int
        } else {
            255
        },
{
    let cs = stored_comments(s.comments);
    lemma_comment_bytes_len(cs);
    lemma_field_roundtrip(s.title, 35);
    lemma_field_roundtrip(s.author, 20);
    lemma_field_roundtrip(s.group, 20);
    lemma_field_roundtrip(date, 8);
}

/// The SAUCE v00 record layout as `parse` reads it: the 128-byte record
/// at the end of the data starts with "SAUCE00", and its title is record
/// bytes 7..42, its author 42..62, its group 62..82 and its date 82..90,
/// each read through CP437 with trailing white space trimmed.
pub proof fn lemma_parse_layout(data: Seq<u8>)
    ensures
        parsed_sauce(data) matches Some(t) ==> {
            let r = data.len() - 128;
            &&& data.len() >= 128
            &&& data.subrange(r, r + 7) == seq![0x53u8, 0x41, 0x55, 0x43, 0x45, 0x30, 0x30]
            &&& t.title == field_text(data.subrange(r + 7, r + 42))
            &&& t.author == field_text(data.subrange(r + 42, r + 62))
            &&& t.group == field_text(data.subrange(r + 62, r + 82))
            &&& t.date == field_text(data.subrange(r + 82, r + 90))
        },
{
}

/// The SAUCE v00 record layout as `append` writes it: the block ends with
/// the 128-byte record, which starts with "SAUCE00" and holds the title
/// at record bytes 7..42, the author at 42..62, the group at 62..82 and
/// the date at 82..90, each in CP437 padded with spaces.
pub proof fn lemma_block_layout(s: SauceText, filesize: u32, width: u16, lines: u16, date: Seq<char>)
    ensures
        ({
            let b = sauce_block(s, filesize, width, lines, date);
            let r = b.len() - 128;
            &&& b.len() >= 129
            &&& b[0] == 0x1A
            &&& b.subrange(r, r + 7) == seq![0x53u8, 0x41, 0x55, 0x43, 0x45, 0x30, 0x30]
            &&& b.subrange(r + 7, r + 42) == field_bytes(s.title, 35)
            &&& b.subrange(r + 42, r + 62) == field_bytes(s.author, 20)
            &&& b.subrange(r + 62, r + 82) == field_bytes(s.group, 20)
            &&& b.subrange(r + 82, r + 90) == field_bytes(date, 8)
        }),
{
    let cs = stored_comments(s.comments);
    let n = cs.len() as int;
    let cb = comments_block(cs);
    let rec = record_bytes(s, filesize, width, lines, date, n as u8);
    let b = sauce_block(s, filesize, width, lines, date);
    lemma_field_roundtrip(s.title, 35);
    lemma_field_roundtrip(s.author, 20);
    lemma_field_roundtrip(s.group, 20);
    lemma_field_roundtrip(date, 8);
    assert(rec.len() == 128);
    assert(b =~= (seq![0x1Au8] + cb) + rec);
    let r = b.len() - 128;
    assert(b.subrange(r, r + 128) =~= rec);
    assert(b.subrange(r, r + 7) =~= seq![0x53u8, 0x41, 0x55, 0x43, 0x45, 0x30, 0x30]);
    assert(b.subrange(r + 7, r + 42) =~= field_bytes(s.title, 35));
    assert(b.subrange(r + 42, r + 62) =~= field_bytes(s.author, 20));
    assert(b.subrange(r + 62, r + 82) =~= field_bytes(s.group, 20));
    assert(b.subrange(r + 82, r + 90) =~= field_bytes(date, 8));
}

/// Parsing data that ends with an appended SAUCE block finds the record
/// again: each text field as stored (cut to its size, through CP437,
/// trailing white space trimmed), the first 255 comments, the iCE flag.
pub proof fn lemma_parse_appended(
    art: Seq<u8>,
    s: SauceText,
    filesize: u32,
    width: u16,
    lines: u16,
    date: Seq<char>,
)
    ensures
        parsed_sauce(art + sauce_block(s, filesize, width, lines, date)) == Some(
            stored_sauce(s, date),
        ),
{
    let cs = stored_comments(s.comments);
    let n = cs.len() as int;
    let cb = comments_block(cs);
    let rec = record_bytes(s, filesize, width, lines, date, n as u8);
    let data = art + sauce_block(s, filesize, width, lines, date);
    lemma_field_roundtrip(s.title, 35);
    lemma_field_roundtrip(s.author, 20);
    lemma_field_roundtrip(s.group, 20);
    lemma_field_roundtrip(date, 8);
    assert(rec.len() == 128);
    assert(data =~= (art + seq![0x1Au8] + cb) + rec);
    let r = data.len() - 128;
    assert(r == art.len() + 1 + cb.len());
    assert(data.subrange(r, r + 128) =~= rec);
    assert(data.subrange(r, r + 7) =~= sauce_magic());
    assert(data.subrange(r + 7, r + 42) =~= field_bytes(s.title, 35));
    assert(data.subrange(r + 42, r + 62) =~= field_bytes(s.author, 20));
    assert(data.subrange(r + 62, r + 82) =~= field_bytes(s.group, 20));
    assert(data.subrange(r + 82, r + 90) =~= field_bytes(date, 8));
    assert(data[r + 104] == n as u8);
    assert(data[r + 105] == if s.ice { 1u8 } else { 0u8 });
    assert((1u8 & 1u8) != 0u8) by (bit_vector);
    assert((0u8 & 1u8) == 0u8) by (bit_vector);
    let p = parsed_sauce(data).unwrap();
    let want = stored_sauce(s, date);
    if n > 0 {
        lemma_comment_bytes(cs, 0);
        let blk = 5 + 64 * n;
        assert(cb.len() == blk);
        assert(r - blk == art.len() + 1);
        assert(data.subrange(r - blk, r - blk + 5) =~= comnt_magic());
        assert forall|i: int| 0 <= i < n implies #[trigger] field_at(data, r - blk + 5 + i * 64, 64)
            == stored_text(cs[i], 64) by {
            lemma_comment_bytes(cs, i);
            lemma_field_roundtrip(cs[i], 64);
            assert(data.subrange(r - blk + 5 + i * 64, r - blk + 5 + i * 64 + 64) =~= comment_bytes(
                cs,
            ).subrange(64 * i, 64 * i + 64));
        }
        assert(p.comments =~= want.comments);
    } else {
        assert(p.comments =~= want.comments);
    }
}

} // verus!
