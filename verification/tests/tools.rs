use ansidraw::canvas::{Canvas, Cell};
use ansidraw::tools::{
    b64, banner_column, box_style, canvas_rows, color_of_lowercase, draw_box, fill_cells,
    font_choice, parse_color, put_text, render, BoxStyle, ColorArg, ColorError,
};

#[test]
fn put_text_writes_lines() {
    let mut c = Canvas::new(2);
    let (cells, rows) = put_text(&mut c, 78, 0, "abc\nde", 4, 1);
    assert_eq!((cells, rows), (4, 2));
    assert_eq!(c.get(78, 0), Cell { ch: 'a', fg: 4, bg: 1 });
    assert_eq!(c.get(79, 0).ch, 'b');
    assert_eq!(c.get(79, 1).ch, 'e');
    assert!(c.get(0, 1).is_blank());
    // a trailing newline still counts its (empty) row
    let (cells, rows) = put_text(&mut c, 0, 0, "x\n", 7, 0);
    assert_eq!((cells, rows), (1, 2));
    // nothing is written at or past the last row
    let (cells, rows) = put_text(&mut c, 0, 998, "a\nb\nc", 7, 0);
    assert_eq!((cells, rows), (2, 2));
}

#[test]
fn fill_cells_clips() {
    let mut c = Canvas::new(1);
    let cell = Cell { ch: '░', fg: 2, bg: 1 };
    fill_cells(&mut c, 78, 1, 5, 2, cell);
    assert_eq!(c.get(78, 1), cell);
    assert_eq!(c.get(79, 2), cell);
    assert!(c.get(77, 1).is_blank());
    assert_eq!(c.height(), 3);
}

#[test]
fn boxes_in_three_styles() {
    let mut c = Canvas::new(5);
    draw_box(&mut c, 0, 0, 3, 3, box_style("single"), 7, 0);
    assert_eq!(c.get(0, 0).ch, '┌');
    assert_eq!(c.get(1, 0).ch, '─');
    assert_eq!(c.get(2, 0).ch, '┐');
    assert_eq!(c.get(0, 1).ch, '│');
    assert!(c.get(1, 1).is_blank());
    assert_eq!(c.get(2, 2).ch, '┘');
    draw_box(&mut c, 10, 0, 1, 1, box_style("double"), 9, 1);
    assert_eq!(c.get(10, 0), Cell { ch: '╔', fg: 9, bg: 1 });
    assert_eq!(c.get(11, 1).ch, '╝');
    draw_box(&mut c, 20, 0, 4, 3, BoxStyle::Block, 7, 0);
    assert_eq!(c.get(20, 0).ch, '▄');
    assert_eq!(c.get(23, 2).ch, '▀');
    assert_eq!(c.get(20, 1).ch, '█');
    assert!(matches!(box_style("anything"), BoxStyle::Single));
}

#[test]
fn render_lists_rows_and_colors() {
    let mut c = Canvas::new(3);
    put_text(&mut c, 1, 0, "hi", 12, 0);
    put_text(&mut c, 0, 1, "x ", 7, 0);
    let plain = render(&c, false);
    assert_eq!(plain, " hi\nx\n-- 80x2 used --\n");
    let colored = render(&c, true);
    assert_eq!(
        colored,
        " hi\nx\n-- 80x2 used --\ncolor runs (row: x0-x1 fg/bg …):\n0: 1-2 12/0\n"
    );
}

#[test]
fn base64_encoding() {
    assert_eq!(b64(b""), "");
    assert_eq!(b64(b"f"), "Zg==");
    assert_eq!(b64(b"fo"), "Zm8=");
    assert_eq!(b64(b"foo"), "Zm9v");
    assert_eq!(b64(b"foobar"), "Zm9vYmFy");
    assert_eq!(b64(&[0xFF, 0xFE, 0x7F]), "//5/");
}

#[test]
fn colors_by_number_and_name() {
    assert!(matches!(parse_color(&ColorArg::Missing, 16), Ok(None)));
    assert!(matches!(parse_color(&ColorArg::Number(12), 16), Ok(Some(12))));
    assert!(matches!(parse_color(&ColorArg::Name("Light-Red".into()), 16), Ok(Some(12))));
    assert!(matches!(parse_color(&ColorArg::Name("dark gray".into()), 16), Ok(Some(8))));
    assert!(matches!(parse_color(&ColorArg::Name("PINK".into()), 16), Ok(Some(13))));
    assert!(matches!(parse_color(&ColorArg::Number(9), 8), Err(ColorError::OutOfRange(9, 7))));
    // numbers are taken modulo 256
    assert!(matches!(parse_color(&ColorArg::Number(257), 16), Ok(Some(1))));
    match parse_color(&ColorArg::Name("Mauve_ish".into()), 16) {
        Err(ColorError::Unknown(t)) => assert_eq!(t, "mauveish"),
        _ => panic!("unknown color expected"),
    }
    assert!(matches!(parse_color(&ColorArg::Other, 16), Err(ColorError::NotAColor)));
}

#[test]
fn lowercase_color_names() {
    assert_eq!(color_of_lowercase("light-gray"), Some(7));
    assert_eq!(color_of_lowercase("bright_white"), Some(15));
    assert_eq!(color_of_lowercase("Red"), None);
    assert_eq!(color_of_lowercase("mauve"), None);
}

#[test]
fn banner_placement_and_requests() {
    assert_eq!(banner_column(true, 5, 20), 30);
    assert_eq!(banner_column(true, 5, 95), 0);
    assert_eq!(banner_column(false, 5, 20), 5);
    assert_eq!(canvas_rows(0), 1);
    assert_eq!(canvas_rows(5000), 1000);
    assert_eq!(canvas_rows(40), 40);
    assert_eq!(font_choice(7, 3), 2);
    assert_eq!(font_choice(1, 3), 1);
}
