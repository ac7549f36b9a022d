use ansidraw::canvas::{Canvas, Cell, WIDTH};
use ansidraw::render_png::{palette256, png_bytes, render_rgb, PALETTE};

/// An 8x16 font where the full block (CP437 0xDB) is solid and every other
/// glyph is empty, as in the VGA font for the glyphs the tests draw.
fn test_font() -> [u8; 4096] {
    let mut f = [0u8; 4096];
    for row in 0..16 {
        f[0xDB * 16 + row] = 0xFF;
    }
    // an 'x'-like pattern for 'x' (0x78): left half lit on every row
    for row in 0..16 {
        f[0x78 * 16 + row] = 0xF0;
    }
    f
}

#[test]
fn renders_expected_pixels() {
    let font = test_font();
    let mut c = Canvas::new(1);
    c.set(0, 0, Cell { ch: '█', fg: 4, bg: 0 }); // full block, red on black
    c.set(1, 0, Cell { ch: ' ', fg: 7, bg: 1 }); // space on blue
    let (w, h, img) = render_rgb(&c, &font, 1);
    assert_eq!((w, h), (WIDTH * 8, 16));
    // top-left pixel of the full block is pure VGA red
    assert_eq!(&img[0..3], &[0xAA, 0x00, 0x00]);
    // first pixel of cell 1 is VGA blue background
    let o = 8 * 3;
    assert_eq!(&img[o..o + 3], &[0x00, 0x00, 0xAA]);
}

#[test]
fn png_magic_and_scale() {
    let font = test_font();
    let c = Canvas::new(2);
    let bytes = png_bytes(&c, &font, 3).unwrap();
    assert_eq!(&bytes[0..8], &[0x89, b'P', b'N', b'G', 0x0D, 0x0A, 0x1A, 0x0A]);
}

#[test]
fn palette_256_entries() {
    assert_eq!(palette256(0), [0, 0, 0]);
    assert_eq!(palette256(9), PALETTE[9]);
    assert_eq!(palette256(16), [0, 0, 0]);
    assert_eq!(palette256(21), [0, 0, 255]);
    assert_eq!(palette256(208), [255, 135, 0]);
    assert_eq!(palette256(231), [255, 255, 255]);
    assert_eq!(palette256(232), [8, 8, 8]);
    assert_eq!(palette256(255), [238, 238, 238]);
}

#[test]
fn scale_repeats_pixels() {
    let font = test_font();
    let mut c = Canvas::new(3);
    c.set(0, 2, Cell { ch: 'x', fg: 10, bg: 1 });
    let (w, h, img) = render_rgb(&c, &font, 2);
    assert_eq!((w, h), (1280, 3 * 16 * 2));
    assert_eq!(img.len(), w * h * 3);
    let px = |x: usize, y: usize| [img[(y * w + x) * 3], img[(y * w + x) * 3 + 1], img[(y * w + x) * 3 + 2]];
    // row 2 starts at pixel row 64; the left half of 'x' is lit, doubled
    assert_eq!(px(0, 64), PALETTE[10]);
    assert_eq!(px(7, 65), PALETTE[10]);
    assert_eq!(px(8, 64), PALETTE[1]);
    assert_eq!(px(15, 95), PALETTE[1]);
    // cells past the art show their blank black background
    assert_eq!(px(16, 64), [0, 0, 0]);
}

#[test]
fn png_of_clamped_scale_decodes() {
    let font = test_font();
    let mut c = Canvas::new(1);
    c.set(0, 0, Cell { ch: '█', fg: 14, bg: 0 });
    let bytes = png_bytes(&c, &font, 0).unwrap();
    let dec = png::Decoder::new(bytes.as_slice());
    let mut reader = dec.read_info().unwrap();
    let mut buf = vec![0u8; reader.output_buffer_size()];
    let info = reader.next_frame(&mut buf).unwrap();
    assert_eq!((info.width, info.height), (640, 16));
    assert_eq!(&buf[0..3], &[0xFF, 0xFF, 0x55]);
}
