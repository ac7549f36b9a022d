use ansidraw::canvas::Canvas;
use ansidraw::import_image::{
    crop_window, decode_image, dist, import_pixels, nearest, pair_to_cell, pair_to_cell_256,
    ImportError,
};
use ansidraw::render_png::palette256;

fn png_rgb(w: usize, h: usize, img: &[u8]) -> Vec<u8> {
    let mut buf = Vec::new();
    {
        let mut enc = png::Encoder::new(&mut buf, w as u32, h as u32);
        enc.set_color(png::ColorType::Rgb);
        enc.set_depth(png::BitDepth::Eight);
        enc.write_header().unwrap().write_image_data(img).unwrap();
    }
    buf
}

/// The import steps as the program runs them, the pixel height from the
/// window's aspect ratio.
fn import(
    file: &[u8],
    cols: usize,
    dither: bool,
    ink: bool,
    crop: Option<(usize, usize, usize, usize)>,
    colors256: bool,
) -> Canvas {
    let img = decode_image(file).ok().unwrap();
    let cols = cols.clamp(1, 80);
    let win = crop_window(img.width, img.height, crop);
    let ph = ((win.3 as f64 / win.2 as f64) * cols as f64).round().clamp(2.0, 2000.0) as usize;
    import_pixels(&img, win, cols, ph, dither, ink, colors256)
}

/// 32x32 white PNG with a 2px black vertical line: box-averaged at width
/// 8 the line washes to gray, but ink mode must keep it black.
#[test]
fn ink_mode_preserves_thin_outlines() {
    let (sw, sh) = (32usize, 32usize);
    let mut img = vec![255u8; sw * sh * 3];
    for y in 0..sh {
        for x in 14..16 {
            let o = (y * sw + x) * 3;
            img[o..o + 3].copy_from_slice(&[0, 0, 0]);
        }
    }
    let file = png_rgb(sw, sh, &img);
    let plain = import(&file, 8, false, false, None, false);
    let inked = import(&file, 8, false, true, None, false);
    // the line lands in pixel column 3 (14/32 * 8); cell column 3
    let p = plain.get(3, 1);
    let i = inked.get(3, 1);
    assert!(!p.is_blank() && p.fg != 0, "plain import averages the line to gray");
    // pure black encodes as the blank cell (black background)
    assert!(i.is_blank(), "ink import must snap the line to black");
}

#[test]
fn pair_quantization() {
    // both VGA yellow -> full block yellow
    let c = pair_to_cell([255, 255, 85], [255, 255, 85]);
    assert_eq!((c.ch, c.fg), ('█', 14));
    // bright top over dark bottom -> upper half, bright fg allowed
    let c = pair_to_cell([255, 255, 255], [0, 0, 170]);
    assert_eq!((c.ch, c.fg, c.bg), ('▀', 15, 1));
    // bright bottom over dark top -> lower half so the bright color survives
    let c = pair_to_cell([0, 0, 0], [85, 255, 85]);
    assert_eq!((c.ch, c.fg, c.bg), ('▄', 10, 0));
    // pure black -> blank
    assert!(pair_to_cell([0, 0, 0], [0, 0, 0]).is_blank());
}

#[test]
fn distance_and_nearest() {
    assert_eq!(dist([0, 0, 0], [255, 255, 255]), 3 * 255 * 255);
    assert_eq!(dist([10, 20, 30], [13, 16, 30]), 25);
    assert_eq!(nearest([250, 250, 80], 16), 14);
    assert_eq!(nearest([250, 250, 80], 8), 7);
    assert_eq!(nearest([0, 0, 0], 0), 0);
}

#[test]
fn pairs_in_256_colors() {
    let pal: [[u8; 3]; 256] = std::array::from_fn(|i| palette256(i as u8));
    let c = pair_to_cell_256([255, 135, 0], [95, 0, 0], &pal);
    assert_eq!((c.ch, c.fg, c.bg), ('▀', 208, 52));
    let c = pair_to_cell_256([255, 135, 0], [255, 135, 0], &pal);
    assert_eq!((c.ch, c.fg, c.bg), ('█', 208, 0));
    assert!(pair_to_cell_256([0, 0, 0], [0, 0, 0], &pal).is_blank());
}

#[test]
fn crop_windows() {
    assert_eq!(crop_window(100, 50, None), (0, 0, 100, 50));
    assert_eq!(crop_window(100, 50, Some((10, 5, 20, 10))), (10, 5, 20, 10));
    // the corner moves inside and the size is clamped to what fits
    assert_eq!(crop_window(100, 50, Some((500, 60, 0, usize::MAX))), (99, 49, 1, 1));
    assert_eq!(crop_window(100, 50, Some((90, 0, usize::MAX, usize::MAX))), (90, 0, 10, 50));
}

#[test]
fn decode_refuses_garbage() {
    assert!(matches!(decode_image(b"not a png"), Err(ImportError::Decoding(_))));
}

#[test]
fn decodes_alpha_over_black() {
    let mut buf = Vec::new();
    {
        let mut enc = png::Encoder::new(&mut buf, 2, 1);
        enc.set_color(png::ColorType::Rgba);
        enc.set_depth(png::BitDepth::Eight);
        enc.write_header().unwrap().write_image_data(&[255, 0, 0, 255, 200, 100, 50, 0]).unwrap();
    }
    let img = decode_image(&buf).ok().unwrap();
    assert_eq!((img.width, img.height), (2, 1));
    assert_eq!(img.pixels, vec![[255, 0, 0], [0, 0, 0]]);
}

#[test]
fn solid_image_imports_as_full_blocks() {
    let img = vec![255u8, 255, 85].repeat(16 * 16);
    let file = png_rgb(16, 16, &img);
    let c = import(&file, 4, false, false, None, false);
    assert_eq!(c.height(), 2);
    for x in 0..4 {
        for y in 0..2 {
            let cell = c.get(x, y);
            assert_eq!((cell.ch, cell.fg), ('█', 14));
        }
    }
    assert!(c.get(4, 0).is_blank());
}

#[test]
fn dither_spreads_a_gray() {
    let img = vec![128u8; 16 * 16 * 3];
    let file = png_rgb(16, 16, &img);
    let flat = import(&file, 8, false, false, None, false);
    let dithered = import(&file, 8, true, false, None, false);
    let mut kinds_flat = std::collections::BTreeSet::new();
    let mut kinds_dith = std::collections::BTreeSet::new();
    for x in 0..8 {
        for y in 0..4 {
            let a = flat.get(x, y);
            let b = dithered.get(x, y);
            kinds_flat.insert((a.ch, a.fg, a.bg));
            kinds_dith.insert((b.ch, b.fg, b.bg));
        }
    }
    assert_eq!(kinds_flat.len(), 1);
    assert!(kinds_dith.len() > 1);
}
