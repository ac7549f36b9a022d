use ansidraw::canvas::{Canvas, Cell};
use ansidraw::halfblock;
use ansidraw::halfblock::{cell_pixels, dither_rect, fill_rect, nearest_dark, pixels_to_cell, set_pixel};

#[test]
fn pixel_roundtrip_preserves_other_half() {
    let mut c = Canvas::new(2);
    set_pixel(&mut c, 3, 0, 14); // top: yellow
    set_pixel(&mut c, 3, 1, 4); // bottom: dark red
    let cell = c.get(3, 0);
    assert_eq!(cell_pixels(cell), (14, 4));
    assert_eq!(cell, Cell { ch: '▀', fg: 14, bg: 4 });
    // overwrite just the top; bottom must survive
    set_pixel(&mut c, 3, 0, 15);
    assert_eq!(cell_pixels(c.get(3, 0)), (15, 4));
}

#[test]
fn same_color_pair_is_full_block() {
    assert_eq!(pixels_to_cell(9, 9), Cell { ch: '█', fg: 9, bg: 0 });
    assert!(pixels_to_cell(0, 0).is_blank());
}

#[test]
fn bright_bottom_degrades_to_dark() {
    let cell = pixels_to_cell(15, 12); // white over light red
    assert_eq!(cell.ch, '▀');
    assert_eq!(cell.fg, 15);
    assert!(cell.bg < 8, "bg must be dark, got {}", cell.bg);
}

#[test]
fn dither_mixes_both_colors() {
    let mut c = Canvas::new(4);
    // a mix of 0.5: the Bayer values 0-7 (thresholds below 0.5) take color2
    dither_rect(&mut c, 0, 0, 8, 8, 1, 3, 8);
    let mut seen = [false; 16];
    for y in 0..4 {
        for x in 0..8 {
            let (t, b) = cell_pixels(c.get(x, y));
            seen[t as usize] = true;
            seen[b as usize] = true;
        }
    }
    assert!(seen[1] && seen[3], "both colors should appear at mix 0.5");
}

#[test]
fn shapes_stay_in_bounds() {
    let mut c = Canvas::new(4);
    halfblock::line(&mut c, -5, -5, 100, 20, 10);
    fill_rect(&mut c, 70, 0, 40, 40, 9); // clips at 80
    assert!(c.get(79, 0).fg == 9 || c.get(79, 0).ch == '█');
}

#[test]
fn nearest_dark_of_bright_colors() {
    assert_eq!(nearest_dark(12), 6); // light red -> brown
    assert_eq!(nearest_dark(8), 6); // dark gray -> brown
    assert_eq!(nearest_dark(15), 7); // white -> light gray
    assert_eq!(nearest_dark(9), 1); // light blue -> blue
    assert_eq!(nearest_dark(3), 3); // dark colors map to themselves
}

#[test]
fn pixels_to_cell_layouts() {
    assert_eq!(pixels_to_cell(3, 12), Cell { ch: '▄', fg: 12, bg: 3 });
    assert_eq!(pixels_to_cell(12, 3), Cell { ch: '▀', fg: 12, bg: 3 });
    assert_eq!(pixels_to_cell(15, 12), Cell { ch: '▀', fg: 15, bg: 6 });
    // only the low nibble counts
    assert_eq!(pixels_to_cell(0x19, 0x19), Cell { ch: '█', fg: 9, bg: 0 });
}

#[test]
fn set_pixel_outside_is_ignored() {
    let mut c = Canvas::new(1);
    set_pixel(&mut c, 80, 0, 4);
    set_pixel(&mut c, 0, 2000, 4);
    assert_eq!(c.height(), 1);
    assert!(c.get(0, 0).is_blank());
}

#[test]
fn line_covers_both_endpoints() {
    let mut c = Canvas::new(10);
    halfblock::line(&mut c, 2, 3, 9, 7, 14);
    assert_eq!(cell_pixels(c.get(2, 1)).1, 14); // pixel (2, 3) is a bottom half
    assert_eq!(cell_pixels(c.get(9, 3)).1, 14); // pixel (9, 7)
    // a horizontal line fills every pixel between
    let mut d = Canvas::new(2);
    halfblock::line(&mut d, 0, 0, 5, 0, 2);
    for x in 0..=5 {
        assert_eq!(cell_pixels(d.get(x, 0)).0, 2);
    }
    assert!(d.get(6, 0).is_blank());
}

#[test]
fn fill_rect_keeps_other_half() {
    let mut c = Canvas::new(2);
    set_pixel(&mut c, 0, 0, 4);
    fill_rect(&mut c, 0, 1, 1, 1, 2);
    assert_eq!(cell_pixels(c.get(0, 0)), (4, 2));
}

#[test]
fn dither_levels_are_extremes() {
    let mut c = Canvas::new(2);
    dither_rect(&mut c, 0, 0, 4, 4, 1, 3, 0);
    let mut d = Canvas::new(2);
    dither_rect(&mut d, 0, 0, 4, 4, 1, 3, 16);
    for x in 0..4 {
        for y in 0..2 {
            assert_eq!(cell_pixels(c.get(x, y)), (1, 1));
            assert_eq!(cell_pixels(d.get(x, y)), (3, 3));
        }
    }
}
