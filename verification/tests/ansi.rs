use ansidraw::ansi::{load, save, save_with};
use ansidraw::canvas::{Canvas, Cell};
use ansidraw::cp437::{byte_to_char, char_to_byte};
use ansidraw::sauce::{parse, Sauce};

fn contains(hay: &[u8], needle: &[u8]) -> bool {
    hay.windows(needle.len()).any(|w| w == needle)
}

#[test]
fn ansi_roundtrip() {
    let mut c = Canvas::new(5);
    c.set(0, 0, Cell { ch: '░', fg: 9, bg: 1 });
    c.set(1, 0, Cell { ch: '█', fg: 14, bg: 4 });
    c.set(5, 2, Cell { ch: 'A', fg: 7, bg: 0 });
    c.set(79, 3, Cell { ch: '▓', fg: 3, bg: 2 });
    let bytes = save(&c, None);
    let l = load(&bytes);
    for (x, y) in [(0, 0), (1, 0), (5, 2), (79, 3), (10, 1)] {
        assert_eq!(c.get(x, y), l.get(x, y), "cell {x},{y}");
    }
}

#[test]
fn parses_classic_sequences() {
    // colored text, cursor-forward, positioning, and a SAUCE-style EOF
    let data = b"\x1b[0;1;31;44mAB\x1b[3CX\r\n\x1b[0mplain\x1b[2;1Hover\x1a\x00junk";
    let c = load(data);
    assert_eq!(c.get(0, 0), Cell { ch: 'A', fg: 9, bg: 4 });
    assert_eq!(c.get(1, 0), Cell { ch: 'B', fg: 9, bg: 4 });
    // 3 cells skipped by ESC[3C stay blank
    assert!(c.get(2, 0).is_blank());
    assert_eq!(c.get(5, 0).ch, 'X');
    // ESC[2;1H moved over the start of line 2 before "over" was written
    assert_eq!(c.get(0, 1), Cell { ch: 'o', fg: 7, bg: 0 });
    assert_eq!(c.get(4, 1).ch, 'n'); // "over" overwrote "plai", 'n' remains
    // nothing after the SUB byte is read
    assert!(c.get(0, 2).is_blank());
}

#[test]
fn sauce_attached_and_ignored_by_loader() {
    let mut c = Canvas::new(3);
    c.set(0, 0, Cell { ch: '█', fg: 12, bg: 0 });
    c.set(0, 2, Cell { ch: 'x', fg: 7, bg: 0 });
    let meta = Sauce {
        title: "With Sauce".into(),
        author: "Jeff".into(),
        group: "grp".into(),
        ..Default::default()
    };
    let bytes = save(&c, Some(&meta));
    // loader stops at the EOF byte: canvas identical to a sauceless save
    let l = load(&bytes);
    assert_eq!(l.get(0, 0), c.get(0, 0));
    assert_eq!(l.last_used_row(), 2);
    // and the record reads back
    let s = parse(&bytes).expect("sauce present");
    assert_eq!(s.title, "With Sauce");
    assert_eq!(s.author, "Jeff");
}

#[test]
fn roundtrip_256_colors() {
    let mut c = Canvas::new(2);
    c.set(0, 0, Cell { ch: '▀', fg: 208, bg: 52 }); // orange over dark red
    c.set(1, 0, Cell { ch: '█', fg: 231, bg: 0 }); // cube white
    c.set(2, 0, Cell { ch: 'x', fg: 12, bg: 4 }); // classic stays classic
    let bytes = save(&c, None);
    let s = String::from_utf8_lossy(&bytes);
    assert!(s.contains("38;5;208"), "256-color SGR emitted");
    assert!(s.contains("[0;1;34;44m"), "classic cells keep classic SGR");
    let l = load(&bytes);
    assert_eq!(l.get(0, 0), c.get(0, 0));
    assert_eq!(l.get(1, 0), c.get(1, 0));
    assert_eq!(l.get(2, 0), c.get(2, 0));
}

#[test]
fn cp437_roundtrip_all_bytes() {
    for b in 1..=255u8 {
        let ch = byte_to_char(b);
        assert_eq!(char_to_byte(ch), b, "byte {b:#04x}");
    }
}

#[test]
fn save_exact_bytes_of_small_canvas() {
    let mut c = Canvas::new(2);
    c.set(0, 0, Cell { ch: 'A', fg: 7, bg: 0 });
    c.set(1, 0, Cell { ch: '█', fg: 12, bg: 1 });
    let bytes = save(&c, None);
    // SGR colors are written as 30 + index and 40 + index, bright as bold
    let mut want: Vec<u8> = b"\x1b[0m\x1b[0;37;40mA\x1b[0;1;34;41m".to_vec();
    want.push(0xDB);
    want.extend(b"\x1b[0m\r\n");
    assert_eq!(bytes, want);
}

#[test]
fn blank_canvas_saves_one_empty_line() {
    let c = Canvas::new(25);
    assert_eq!(save(&c, None), b"\x1b[0m\x1b[0m\r\n".to_vec());
}

#[test]
fn utf8_save_writes_glyphs_as_utf8() {
    let mut c = Canvas::new(1);
    c.set(0, 0, Cell { ch: '░', fg: 7, bg: 0 });
    let bytes = save_with(&c, None, true);
    assert!(contains(&bytes, "░".as_bytes()));
    let cp = save_with(&c, None, false);
    assert!(contains(&cp, &[0xB0]));
    assert!(!contains(&cp, "░".as_bytes()));
}

#[test]
fn cursor_save_and_restore() {
    let c = load(b"ab\x1b[sX\x1b[5CY\x1b[uZ");
    assert_eq!(c.get(0, 0).ch, 'a');
    assert_eq!(c.get(2, 0).ch, 'Z');
    assert_eq!(c.get(8, 0).ch, 'Y');
}

#[test]
fn unencodable_char_saves_as_question_mark() {
    let mut c = Canvas::new(1);
    c.set(0, 0, Cell { ch: '€', fg: 7, bg: 0 });
    let l = load(&save(&c, None));
    assert_eq!(l.get(0, 0).ch, '?');
}

#[test]
fn bytes_after_sub_are_ignored_without_a_final_line_feed() {
    let art: &[u8] = b"\x1b[1;31mAB\x1b[2CX";
    let mut with_tail = art.to_vec();
    with_tail.extend(b"\x1aSAUCE00 anything at all\x1b[");
    let a = load(art);
    let b = load(&with_tail);
    assert_eq!(a.height(), b.height());
    for y in 0..a.height() {
        for x in 0..80 {
            assert_eq!(a.get(x, y), b.get(x, y));
        }
    }
    assert_eq!(b.get(4, 0).ch, 'X');
}
