use ansidraw::canvas::{Canvas, Cell, MAX_ROWS, WIDTH};

#[test]
fn new_canvas_is_blank() {
    let c = Canvas::new(3);
    assert_eq!(c.height(), 3);
    assert!(c.get(0, 0).is_blank());
    assert_eq!(c.last_used_row(), 0);
    assert_eq!(c.line_bounds(0), None);
    assert_eq!(Canvas::new(0).height(), 1);
}

#[test]
fn set_grows_and_reads_back() {
    let mut c = Canvas::new(1);
    c.set(3, 7, Cell { ch: 'q', fg: 1, bg: 2 });
    assert_eq!(c.height(), 8);
    assert_eq!(c.get(3, 7), Cell { ch: 'q', fg: 1, bg: 2 });
    assert_eq!(c.last_used_row(), 7);
    assert_eq!(c.line_bounds(7), Some((3, 3)));
    // out of bounds writes are ignored
    c.set(WIDTH, 0, Cell { ch: 'z', fg: 1, bg: 1 });
    c.set(0, MAX_ROWS, Cell { ch: 'z', fg: 1, bg: 1 });
    assert_eq!(c.height(), 8);
    assert!(c.get(WIDTH, 0).is_blank());
}

#[test]
fn insert_and_delete_line() {
    let mut c = Canvas::new(3);
    c.set(0, 1, Cell { ch: 'x', fg: 7, bg: 0 });
    c.insert_line(1);
    assert_eq!(c.get(0, 2).ch, 'x');
    assert!(c.get(0, 1).is_blank());
    c.delete_line(1);
    assert_eq!(c.get(0, 1).ch, 'x');
    assert_eq!(c.height(), 3);
}

#[test]
fn shift_left_and_right() {
    let mut c = Canvas::new(1);
    c.set(2, 0, Cell { ch: 'a', fg: 7, bg: 0 });
    c.set(3, 0, Cell { ch: 'b', fg: 7, bg: 0 });
    c.shift_left(2, 0);
    assert_eq!(c.get(2, 0).ch, 'b');
    assert!(c.get(79, 0).is_blank());
    c.shift_right(0, 0);
    assert_eq!(c.get(3, 0).ch, 'b');
    assert!(c.get(0, 0).is_blank());
}

#[test]
fn blank_ignores_foreground() {
    assert!(Cell { ch: ' ', fg: 3, bg: 0 }.is_blank());
    assert!(!Cell { ch: ' ', fg: 7, bg: 1 }.is_blank());
    assert_eq!(Cell::default(), Cell { ch: ' ', fg: 7, bg: 0 });
}

#[test]
fn ensure_row_caps_at_max_rows() {
    let mut c = Canvas::new(1);
    c.ensure_row(5000);
    assert_eq!(c.height(), MAX_ROWS);
}
