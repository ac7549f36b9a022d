use ansidraw::animate::{gif_bytes, gif_palette, gif_plan, render_indexed, reveal_frames};
use ansidraw::canvas::{Canvas, Cell};
use ansidraw::render_png::palette256;

fn block_font() -> [u8; 4096] {
    let mut f = [0u8; 4096];
    for row in 0..16 {
        f[0xDB * 16 + row] = 0xFF;
    }
    f
}

#[test]
fn reveal_builds_progressive_frames() {
    let mut c = Canvas::new(2);
    for x in 0..10 {
        c.set(x, 0, Cell { ch: 'x', fg: 10, bg: 0 });
        c.set(x, 1, Cell { ch: 'x', fg: 10, bg: 0 });
    }
    let frames = reveal_frames(&c, 80);
    assert_eq!(frames.len(), 2, "80 cells/frame over 2 rows");
    // first frame shows only row 0 content plus cursor
    assert_eq!(frames[0].get(0, 0).ch, 'x');
    assert!(frames[0].get(0, 1).ch == '█');
    assert_eq!(frames[1].get(9, 0).ch, 'x');
}

#[test]
fn reveal_cursor_follows_the_write_position() {
    let mut c = Canvas::new(1);
    c.set(0, 0, Cell { ch: 'a', fg: 7, bg: 0 });
    let frames = reveal_frames(&c, 30);
    assert_eq!(frames.len(), 3);
    assert_eq!(frames[0].get(0, 0).ch, 'a');
    assert_eq!(frames[0].get(30, 0), Cell { ch: '█', fg: 7, bg: 0 });
    assert!(frames[0].get(31, 0).is_blank());
    assert_eq!(frames[1].get(60, 0).ch, '█');
    assert!(frames[2].get(79, 0).is_blank());
    // zero cells per frame still shows one cell at a time
    assert_eq!(reveal_frames(&c, 0).len(), 80);
}

#[test]
fn indexed_render_uses_palette_indices() {
    let font = block_font();
    let mut c = Canvas::new(1);
    c.set(0, 0, Cell { ch: '█', fg: 208, bg: 0 });
    c.set(1, 0, Cell { ch: ' ', fg: 7, bg: 52 });
    let img = render_indexed(&c, &font, 1, 2);
    assert_eq!(img.len(), 640 * 32);
    assert_eq!(img[0], 208);
    assert_eq!(img[8], 52);
    assert_eq!(img[640 * 16], 0); // second text row is blank
}

#[test]
fn gif_roundtrip() {
    let font = block_font();
    let mut a = Canvas::new(2);
    a.set(0, 0, Cell { ch: '█', fg: 12, bg: 0 });
    a.set(0, 1, Cell { ch: '▒', fg: 7, bg: 0 });
    let mut b = Canvas::new(2);
    b.set(1, 1, Cell { ch: '█', fg: 208, bg: 0 });
    let plan = gif_plan(&[a, b], &font, 1, 10, 100).unwrap();
    assert_eq!((plan.width, plan.height, plan.frames.len()), (640, 32, 2));
    let data = gif_bytes(&plan).unwrap();
    assert_eq!(&data[0..6], b"GIF89a");
    let mut opts = gif::DecodeOptions::new();
    opts.set_color_output(gif::ColorOutput::Indexed);
    let mut dec = opts.read_info(std::io::Cursor::new(&data)).unwrap();
    let mut count = 0;
    let mut last_delay = 0;
    while let Some(f) = dec.read_next_frame().unwrap() {
        count += 1;
        last_delay = f.delay;
    }
    assert_eq!(count, 2);
    assert_eq!(last_delay, 100, "final frame holds");
}

#[test]
fn gif_plan_without_frames_is_none() {
    assert!(gif_plan(&[], &block_font(), 1, 10, 100).is_none());
}

#[test]
fn gif_palette_is_xterm_256() {
    let pal = gif_palette();
    assert_eq!(pal.len(), 768);
    for i in 0..=255u8 {
        let c = palette256(i);
        assert_eq!(&pal[i as usize * 3..i as usize * 3 + 3], &c);
    }
}

#[test]
fn gif_plan_scales_and_holds() {
    let mut a = Canvas::new(1);
    a.set(0, 4, Cell { ch: 'q', fg: 1, bg: 2 });
    let b = Canvas::new(1);
    let plan = gif_plan(&[b, a], &block_font(), 9, 20, 5).unwrap();
    // scale clamps to 4, rows come from the tallest frame
    assert_eq!((plan.width, plan.height), (2560, 5 * 16 * 4));
    assert_eq!(plan.frames[0].delay, 20);
    assert_eq!(plan.frames[1].delay, 5); // the last frame holds for the hold time
    assert_eq!(plan.frames[1].pixels.len(), 2560 * 320);
}
