use ansidraw::canvas::{Canvas, Cell};
use ansidraw::tdf::{load, measure, parse_glyph, stamp};

/// A TheDraw file with one color font "Demo" (spacing 1): 'A' is 3 wide,
/// two rows (red "AA", a transparent space, then a blue-on-red '#'), 'b' is
/// 2 wide and one row; every other slot is empty. A block font and an
/// outline font follow; the outline one is skipped.
fn tdf_file() -> Vec<u8> {
    let mut d = vec![0x13];
    d.extend(b"TheDraw FONTS file");
    d.push(0x1A);
    // color font
    let glyph_a: Vec<u8> = vec![3, 2, b'A', 0x0C, b'A', 0x0C, b' ', 0x00, 0x0D, b'#', 0x41, 0x00];
    let glyph_b: Vec<u8> = vec![2, 1, b'b', 0x0E, b'b', 0x0E, 0x00];
    let mut block = glyph_a.clone();
    let off_b = block.len() as u16;
    block.extend(&glyph_b);
    d.extend([0x55, 0xAA, 0x00, 0xFF]);
    d.push(4);
    let mut name = b"Demo".to_vec();
    name.resize(12, 0);
    d.extend(name);
    d.extend([0, 0, 0, 0]);
    d.push(2); // color font
    d.push(1); // spacing
    d.extend((block.len() as u16).to_le_bytes());
    for i in 0..94u16 {
        let off: u16 = if i == b'A' as u16 - 33 {
            0
        } else if i == b'b' as u16 - 33 {
            off_b
        } else {
            0xFFFF
        };
        d.extend(off.to_le_bytes());
    }
    d.extend(&block);
    // a few junk bytes to resync over
    d.extend([1, 2, 3]);
    // block font: 'Z' only
    let glyph_z: Vec<u8> = vec![1, 1, 0xDB, 0x00];
    d.extend([0x55, 0xAA, 0x00, 0xFF]);
    d.push(5);
    let mut name = b"Block".to_vec();
    name.resize(12, 0);
    d.extend(name);
    d.extend([0, 0, 0, 0]);
    d.push(1);
    d.push(0);
    d.extend((glyph_z.len() as u16).to_le_bytes());
    for i in 0..94u16 {
        let off: u16 = if i == b'Z' as u16 - 33 { 0 } else { 0xFFFF };
        d.extend(off.to_le_bytes());
    }
    d.extend(&glyph_z);
    // outline font: skipped
    d.extend([0x55, 0xAA, 0x00, 0xFF]);
    d.push(1);
    d.extend([b'O'; 12]);
    d.extend([0, 0, 0, 0]);
    d.push(0);
    d.push(0);
    d.extend(0u16.to_le_bytes());
    d.extend([0xFF; 188]);
    d
}

#[test]
fn parses_a_font_file() {
    let fonts = load(&tdf_file()).expect("a TheDraw file");
    assert_eq!(fonts.len(), 2);
    let f = &fonts[0];
    assert_eq!(f.name, "Demo");
    assert_eq!((f.kind, f.spacing), (2, 1));
    let g = f.glyph('A').expect("glyph A");
    assert_eq!((g.width, g.height), (3, 2));
    assert_eq!(g.rows, vec![vec![('A', 0x0C), ('A', 0x0C), (' ', 0x00)], vec![('#', 0x41)]]);
    // lowercase falls back to uppercase and the other way round
    assert_eq!(f.glyph('a').unwrap().width, 3);
    assert_eq!(f.glyph('B').unwrap().width, 2);
    assert!(f.glyph('Q').is_none());
    assert!(f.glyph('€').is_none());
    // average of widths 3 and 2, at least 2
    assert_eq!(f.space_width(), 2);
    let z = fonts[1].glyph('z').unwrap();
    assert_eq!(z.rows, vec![vec![('█', 0x0F)]]);
}

#[test]
fn not_a_font_file() {
    assert!(load(b"hello").is_none());
    let mut d = tdf_file();
    d[1] = b't';
    assert!(load(&d).is_none());
}

#[test]
fn stamps_text_with_transparency() {
    let fonts = load(&tdf_file()).unwrap();
    let f = &fonts[0];
    let mut c = Canvas::new(5);
    c.set(4, 1, Cell { ch: '%', fg: 3, bg: 0 });
    let (w, h) = stamp(&mut c, f, "A b", 2, 1);
    // 'A' (3 + 1), a space (2), 'b' (2 + 1)
    assert_eq!((w, h), (9, 2));
    assert_eq!(c.get(2, 1), Cell { ch: 'A', fg: 12, bg: 0 });
    assert_eq!(c.get(3, 1), Cell { ch: 'A', fg: 12, bg: 0 });
    // the space with a black background lets the art through
    assert_eq!(c.get(4, 1), Cell { ch: '%', fg: 3, bg: 0 });
    assert_eq!(c.get(2, 2), Cell { ch: '#', fg: 1, bg: 4 });
    assert_eq!(c.get(8, 1), Cell { ch: 'b', fg: 14, bg: 0 });
    assert_eq!(measure(f, "A b"), 9);
    assert_eq!(measure(f, "Q"), 0);
}

#[test]
fn stamp_stops_at_the_right_edge() {
    let fonts = load(&tdf_file()).unwrap();
    let f = &fonts[0];
    let mut c = Canvas::new(2);
    let (w, _) = stamp(&mut c, f, "AAAA", 74, 0);
    // 74 -> 78 -> 82: stamping stops after the second glyph
    assert_eq!(w, 8);
    assert_eq!(c.get(78, 0).ch, 'A');
    assert_eq!(c.get(79, 0).ch, 'A');
}

#[test]
fn glyph_parsing_edge_cases() {
    // too wide
    assert!(parse_glyph(&[81, 1, b'x', 0], 0, 1).is_none());
    // runs off the block
    assert!(parse_glyph(&[1, 1, b'x'], 0, 1).is_none());
    // color font char without its attribute byte
    assert!(parse_glyph(&[1, 1, b'x'], 0, 2).is_none());
    // trailing empty rows are dropped
    let g = parse_glyph(&[2, 3, b'x', 0x0D, 0x0D, 0], 0, 1).unwrap();
    assert_eq!(g.rows, vec![vec![('x', 0x0F)]]);
}

#[test]
fn measure_adds_up_and_fitting_text_stamps_whole() {
    let fonts = load(&tdf_file()).unwrap();
    let f = &fonts[0];
    assert_eq!(measure(f, "A b"), measure(f, "A") + measure(f, " b"));
    assert_eq!(measure(f, ""), 0);
    assert_eq!(measure(f, " "), f.space_width());
    // 70 + 9 < 80: the whole text is stamped and it advances by its measure
    let mut c = Canvas::new(3);
    let (w, _) = stamp(&mut c, f, "A b", 70, 0);
    assert_eq!(w, measure(f, "A b"));
    assert_eq!(c.get(76, 0).ch, 'b');
}
