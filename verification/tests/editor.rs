use ansidraw::canvas::{Canvas, Cell, MAX_ROWS, WIDTH};
use ansidraw::editor::{
    key_binding, Cmd, Editor, Key, KeyPress, Mode, MouseKind, Note, Outcome, SbHit, UNDO_CAP,
};

fn key(k: Key) -> KeyPress {
    KeyPress { key: k, ctrl: false, alt: false }
}

fn ctrl(k: Key) -> KeyPress {
    KeyPress { key: k, ctrl: true, alt: false }
}

fn alt(k: Key) -> KeyPress {
    KeyPress { key: k, ctrl: false, alt: true }
}

fn editor() -> Editor {
    Editor::new(Canvas::new(25), 15)
}

fn type_text(e: &mut Editor, s: &str) {
    for c in s.chars() {
        assert_eq!(e.handle_key(key(Key::Char(c))), Outcome::Done);
    }
}

#[test]
fn typing_writes_in_current_colors_and_advances() {
    let mut e = editor();
    e.fg = 12;
    e.bg = 1;
    type_text(&mut e, "Hi");
    assert_eq!(e.canvas.get(0, 0), Cell { ch: 'H', fg: 12, bg: 1 });
    assert_eq!(e.canvas.get(1, 0), Cell { ch: 'i', fg: 12, bg: 1 });
    assert_eq!(e.cur_x, 2);
    assert!(e.dirty);
    assert_eq!(e.undo.len(), 2);
    // the cursor stops at the last column
    e.cur_x = WIDTH - 1;
    type_text(&mut e, "ab");
    assert_eq!(e.cur_x, WIDTH - 1);
    assert_eq!(e.canvas.get(WIDTH - 1, 0).ch, 'b');
}

#[test]
fn undo_and_redo_restore_states() {
    let mut e = editor();
    type_text(&mut e, "ab");
    e.handle_key(ctrl(Key::Char('z')));
    assert_eq!(e.note, Some(Note::Undone));
    assert_eq!(e.canvas.get(1, 0).ch, ' ');
    assert_eq!(e.canvas.get(0, 0).ch, 'a');
    assert_eq!(e.cur_x, 1);
    e.handle_key(alt(Key::Char('r')));
    assert_eq!(e.canvas.get(0, 0).ch, ' ');
    assert_eq!(e.cur_x, 0);
    e.handle_key(ctrl(Key::Char('z')));
    assert_eq!(e.note, Some(Note::NothingToUndo));
    e.handle_key(ctrl(Key::Char('r')));
    assert_eq!(e.note, Some(Note::Redone));
    assert_eq!(e.canvas.get(0, 0).ch, 'a');
    e.handle_key(ctrl(Key::Char('r')));
    assert_eq!(e.canvas.get(1, 0).ch, 'b');
    assert_eq!(e.cur_x, 2);
    e.handle_key(ctrl(Key::Char('r')));
    assert_eq!(e.note, Some(Note::NothingToRedo));
    // a new edit drops the redo history
    e.handle_key(ctrl(Key::Char('z')));
    type_text(&mut e, "c");
    assert!(e.redo.is_empty());
}

#[test]
fn undo_history_is_capped() {
    let mut e = editor();
    for _ in 0..UNDO_CAP + 5 {
        e.handle_key(key(Key::Char('x')));
        e.cur_x = 0;
    }
    assert_eq!(e.undo.len(), UNDO_CAP);
}

#[test]
fn movement_keys() {
    let mut e = editor();
    e.handle_key(key(Key::Up));
    assert_eq!(e.cur_y, 0);
    e.handle_key(key(Key::Down));
    assert_eq!(e.cur_y, 1);
    e.handle_key(key(Key::Tab));
    assert_eq!(e.cur_x, 8);
    e.handle_key(key(Key::Tab));
    assert_eq!(e.cur_x, 16);
    e.handle_key(key(Key::BackTab));
    assert_eq!(e.cur_x, 8);
    e.cur_x = 78;
    e.handle_key(key(Key::Tab));
    assert_eq!(e.cur_x, WIDTH - 1);
    e.handle_key(key(Key::Home));
    assert_eq!(e.cur_x, 0);
    e.view_h = 10;
    e.handle_key(key(Key::PageDown));
    assert_eq!(e.cur_y, 11);
    e.top = 5;
    e.handle_key(key(Key::PageUp));
    assert_eq!((e.cur_y, e.top), (1, 0));
    e.cur_y = MAX_ROWS - 1;
    e.handle_key(key(Key::Down));
    assert_eq!(e.cur_y, MAX_ROWS - 1);
    // Enter goes to the start of the next row and makes it exist
    let mut e = editor();
    e.cur_y = 24;
    e.cur_x = 5;
    e.handle_key(key(Key::Enter));
    assert_eq!((e.cur_x, e.cur_y), (0, 25));
    assert_eq!(e.canvas.height(), 26);
}

#[test]
fn home_and_end_follow_the_line() {
    let mut e = editor();
    e.cur_x = 4;
    type_text(&mut e, "abc");
    e.handle_key(key(Key::End));
    assert_eq!(e.cur_x, 7);
    e.handle_key(ctrl(Key::End));
    assert_eq!(e.cur_x, 6);
    e.handle_key(ctrl(Key::Home));
    assert_eq!(e.cur_x, 4);
    e.handle_key(key(Key::Home));
    assert_eq!(e.cur_x, 0);
    // an empty row sends both to column 0
    e.cur_y = 3;
    e.cur_x = 9;
    e.handle_key(key(Key::End));
    assert_eq!(e.cur_x, 0);
}

#[test]
fn colors_cycle_with_ctrl_arrows() {
    let mut e = editor();
    e.handle_key(ctrl(Key::Up));
    assert_eq!(e.fg, 8);
    e.fg = 15;
    e.handle_key(ctrl(Key::Up));
    assert_eq!(e.fg, 0);
    e.handle_key(ctrl(Key::Down));
    assert_eq!(e.fg, 15);
    e.handle_key(ctrl(Key::Left));
    assert_eq!(e.bg, 7);
    e.handle_key(ctrl(Key::Right));
    assert_eq!(e.bg, 0);
}

#[test]
fn editing_keys() {
    let mut e = editor();
    type_text(&mut e, "abc");
    e.handle_key(key(Key::Backspace));
    assert_eq!(e.cur_x, 2);
    assert_eq!(e.canvas.get(2, 0).ch, ' ');
    e.cur_x = 0;
    e.handle_key(key(Key::Insert));
    assert_eq!(e.canvas.get(1, 0).ch, 'a');
    assert_eq!(e.canvas.get(0, 0).ch, ' ');
    e.handle_key(key(Key::Delete));
    assert_eq!(e.canvas.get(0, 0).ch, 'a');
    assert_eq!(e.canvas.get(1, 0).ch, 'b');
    // Backspace at the first column does nothing
    let before = e.undo.len();
    e.handle_key(key(Key::Backspace));
    assert_eq!(e.undo.len(), before);
    // chars with Ctrl or Alt that are not bound do nothing
    e.handle_key(ctrl(Key::Char('j')));
    assert_eq!(e.canvas.get(0, 0).ch, 'a');
}

#[test]
fn bindings_and_dialog_commands() {
    assert_eq!(key_binding(ctrl(Key::Char('q'))), Some(Cmd::Exit));
    assert_eq!(key_binding(alt(Key::Char('x'))), Some(Cmd::Exit));
    assert_eq!(key_binding(ctrl(Key::Char('s'))), Some(Cmd::Save));
    assert_eq!(key_binding(alt(Key::Char('s'))), Some(Cmd::Save));
    assert_eq!(key_binding(key(Key::Esc)), Some(Cmd::QuickPalette));
    assert_eq!(key_binding(alt(Key::F(3))), Some(Cmd::SetCharset(2)));
    assert_eq!(key_binding(ctrl(Key::F(2))), Some(Cmd::SetCharset(11)));
    assert_eq!(key_binding(ctrl(Key::F(7))), None);
    assert_eq!(key_binding(key(Key::Char('s'))), None);
    let mut e = editor();
    assert_eq!(e.handle_key(ctrl(Key::Char('k'))), Outcome::Run(Cmd::CommandPalette));
    assert_eq!(e.handle_key(key(Key::F(4))), Outcome::Glyph(3));
    assert_eq!(e.handle_key(ctrl(Key::F(7))), Outcome::Glyph(6));
    assert_eq!(e.handle_key(alt(Key::F(3))), Outcome::Done);
    assert_eq!(e.set_idx, 2);
}

#[test]
fn character_sets_wrap() {
    let mut e = editor();
    e.handle_key(ctrl(Key::Char('p')));
    assert_eq!(e.set_idx, 14);
    e.handle_key(ctrl(Key::Char('n')));
    assert_eq!(e.set_idx, 0);
    assert!(e.exec_local(Cmd::SetCharset(17)));
    assert_eq!(e.set_idx, 2);
    assert!(!e.exec_local(Cmd::Save));
}

#[test]
fn lines_and_pickup() {
    let mut e = editor();
    type_text(&mut e, "x");
    e.handle_key(ctrl(Key::Char('t')));
    assert_eq!(e.note, Some(Note::LineInserted));
    assert_eq!(e.canvas.get(0, 1).ch, 'x');
    assert_eq!(e.canvas.height(), 26);
    e.handle_key(ctrl(Key::Char('y')));
    assert_eq!(e.canvas.get(0, 0).ch, 'x');
    e.canvas.set(3, 0, Cell { ch: '#', fg: 9, bg: 4 });
    e.cur_x = 3;
    e.handle_key(alt(Key::Char('u')));
    assert_eq!((e.fg, e.bg), (9, 4));
    assert_eq!(e.note, Some(Note::PickedUpColor));
    e.handle_key(ctrl(Key::Char('w')));
    assert!(!e.sidebar);
}

fn select(e: &mut Editor, x0: usize, y0: usize, x1: usize, y1: usize) {
    e.cur_x = x0;
    e.cur_y = y0;
    e.handle_key(ctrl(Key::Char('b')));
    e.cur_x = x1;
    e.cur_y = y1;
}

#[test]
fn block_copy_and_stamp() {
    let mut e = editor();
    type_text(&mut e, "ab");
    e.cur_x = 0;
    e.cur_y = 1;
    type_text(&mut e, "cd");
    select(&mut e, 1, 1, 0, 0);
    assert!(matches!(e.mode, Mode::Select { ax: 1, ay: 1 }));
    e.handle_key(key(Key::Char('C')));
    assert_eq!(e.note, Some(Note::StampHint));
    assert_eq!((e.cur_x, e.cur_y), (0, 0));
    e.cur_x = 10;
    e.cur_y = 5;
    e.handle_key(key(Key::Enter));
    assert_eq!(e.note, Some(Note::Stamped));
    assert_eq!(e.canvas.get(10, 5).ch, 'a');
    assert_eq!(e.canvas.get(11, 5).ch, 'b');
    assert_eq!(e.canvas.get(10, 6).ch, 'c');
    assert_eq!(e.canvas.get(11, 6).ch, 'd');
    // the source stays, and stamping past the right edge clips
    assert_eq!(e.canvas.get(0, 0).ch, 'a');
    e.cur_x = WIDTH - 1;
    e.handle_key(key(Key::Enter));
    assert_eq!(e.canvas.get(WIDTH - 1, 5).ch, 'a');
    e.handle_key(key(Key::Esc));
    assert!(matches!(e.mode, Mode::Edit));
}

#[test]
fn block_move_erase_fill_flip() {
    let mut e = editor();
    type_text(&mut e, "abc");
    select(&mut e, 0, 0, 2, 0);
    e.handle_key(key(Key::Char('x')));
    assert_eq!(e.note, Some(Note::FlippedHorizontally));
    assert_eq!(e.canvas.get(0, 0).ch, 'c');
    assert_eq!(e.canvas.get(2, 0).ch, 'a');
    e.handle_key(key(Key::Char('x')));
    assert_eq!(e.canvas.get(0, 0).ch, 'a');
    assert!(matches!(e.mode, Mode::Select { .. }));
    e.fg = 3;
    e.bg = 5;
    e.handle_key(key(Key::Char('f')));
    assert_eq!(e.canvas.get(1, 0), Cell { ch: 'b', fg: 3, bg: 5 });
    assert!(matches!(e.mode, Mode::Edit));
    e.cur_x = 0;
    e.cur_y = 1;
    type_text(&mut e, "z");
    select(&mut e, 0, 0, 0, 1);
    e.handle_key(key(Key::Char('y')));
    assert_eq!(e.canvas.get(0, 0).ch, 'z');
    assert_eq!(e.canvas.get(0, 1).ch, 'a');
    e.handle_key(key(Key::Char('m')));
    assert!(e.canvas.get(0, 0).is_blank());
    assert!(e.canvas.get(0, 1).is_blank());
    assert!(matches!(e.mode, Mode::Stamp { .. }));
    e.handle_key(key(Key::Esc));
    select(&mut e, 1, 0, 2, 0);
    e.handle_key(key(Key::Char('e')));
    assert!(e.canvas.get(1, 0).is_blank());
    assert!(e.canvas.get(2, 0).is_blank());
    // undo brings the erased cells back
    e.handle_key(ctrl(Key::Char('z')));
    assert_eq!(e.canvas.get(1, 0).ch, 'b');
}

#[test]
fn mouse_clicks_drags_and_sidebar() {
    let mut e = editor();
    e.scroll_into_view(25);
    assert_eq!(e.view_h, 24);
    e.handle_mouse(MouseKind::LeftDown, 5, 3, None);
    assert_eq!((e.cur_x, e.cur_y), (5, 2));
    assert_eq!(e.drag_from, Some((5, 2)));
    e.handle_mouse(MouseKind::LeftDrag, 9, 4, None);
    assert!(matches!(e.mode, Mode::Select { ax: 5, ay: 2 }));
    assert_eq!((e.cur_x, e.cur_y), (9, 3));
    e.handle_mouse(MouseKind::LeftUp, 9, 4, None);
    assert_eq!(e.drag_from, None);
    e.handle_mouse(MouseKind::ScrollDown, 0, 0, None);
    assert_eq!(e.cur_y, 6);
    e.handle_mouse(MouseKind::ScrollUp, 0, 0, None);
    e.handle_mouse(MouseKind::ScrollUp, 0, 0, None);
    e.handle_mouse(MouseKind::ScrollUp, 0, 0, None);
    assert_eq!(e.cur_y, 0);
    // sidebar
    let mut e = editor();
    e.handle_mouse(MouseKind::LeftDown, 82 + 9, 5, Some(SbHit::FgStrip));
    assert_eq!(e.fg, 9);
    e.handle_mouse(MouseKind::LeftDown, 82 + 9, 8, Some(SbHit::BgStrip));
    assert_eq!(e.bg, 0);
    e.handle_mouse(MouseKind::LeftDown, 82 + 3, 8, Some(SbHit::BgStrip));
    assert_eq!(e.bg, 3);
    assert_eq!(e.handle_mouse(MouseKind::LeftDown, 83, 12, Some(SbHit::GlyphRow(2))), Outcome::Glyph(2));
    assert_eq!(e.handle_mouse(MouseKind::LeftDown, 92, 12, Some(SbHit::GlyphRow(2))), Outcome::Glyph(7));
    assert_eq!(e.handle_mouse(MouseKind::LeftDown, 83, 1, Some(SbHit::SetName)), Outcome::Done);
    assert_eq!(e.set_idx, 1);
    assert_eq!(
        e.handle_mouse(MouseKind::LeftDown, 83, 20, Some(SbHit::Run(Cmd::Save))),
        Outcome::Run(Cmd::Save)
    );
}

#[test]
fn click_stamps_a_carried_block() {
    let mut e = editor();
    type_text(&mut e, "q");
    select(&mut e, 0, 0, 0, 0);
    e.handle_key(key(Key::Char('c')));
    e.handle_mouse(MouseKind::LeftDown, 30, 4, None);
    assert_eq!(e.canvas.get(30, 3).ch, 'q');
    assert_eq!(e.note, Some(Note::Stamped));
}

#[test]
fn view_follows_cursor() {
    let mut e = editor();
    e.cur_y = 40;
    e.scroll_into_view(11);
    assert_eq!(e.view_h, 10);
    assert_eq!(e.top, 31);
    e.cur_y = 3;
    e.scroll_into_view(11);
    assert_eq!(e.top, 3);
    e.scroll_into_view(0);
    assert_eq!(e.view_h, 1);
}

#[test]
fn clear_and_open() {
    let mut e = editor();
    type_text(&mut e, "abc");
    e.clear_page();
    assert!(e.canvas.get(0, 0).is_blank());
    assert_eq!(e.canvas.height(), 25);
    assert_eq!(e.note, Some(Note::PageCleared));
    e.handle_key(ctrl(Key::Char('z')));
    assert_eq!(e.canvas.get(0, 0).ch, 'a');
    e.open_canvas(Canvas::new(3));
    assert_eq!(e.canvas.height(), 3);
    assert!(!e.dirty);
    assert!(e.undo.is_empty());
    assert_eq!(e.note, Some(Note::Loaded));
}

#[test]
fn stamping_a_copy_in_place_changes_nothing() {
    let mut e = editor();
    type_text(&mut e, "xyz");
    e.cur_x = 1;
    e.cur_y = 1;
    type_text(&mut e, "w");
    let before: Vec<Cell> = (0..3).flat_map(|y| (0..WIDTH).map(move |x| (x, y))).map(|(x, y)| e.canvas.get(x, y)).collect();
    select(&mut e, 0, 0, 2, 1);
    e.handle_key(key(Key::Char('c')));
    e.handle_key(key(Key::Enter));
    let after: Vec<Cell> = (0..3).flat_map(|y| (0..WIDTH).map(move |x| (x, y))).map(|(x, y)| e.canvas.get(x, y)).collect();
    assert_eq!(before, after);
    assert_eq!(e.canvas.height(), 25);
}
