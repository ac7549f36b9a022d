use ansidraw::dialogs::{
    chars_of, colors_click_step, colors_key_step, command_table, exit_key, filter_commands,
    picker_click_step, picker_key_step, prompt_key_step, text_of, trim_chars, yes_no_key,
    ExitChoice, FormStep, Palette, PaletteStep, PickStep, SauceForm, PICKER_START,
};
use ansidraw::editor::{Cmd, Key, KeyPress, MouseKind};
use ansidraw::sauce::Sauce;

fn key(k: Key) -> KeyPress {
    KeyPress { key: k, ctrl: false, alt: false }
}

#[test]
fn trims_both_ends() {
    assert_eq!(trim_chars(&chars_of("  Title \t")), "Title");
    assert_eq!(trim_chars(&chars_of("   ")), "");
    assert_eq!(trim_chars(&chars_of("a b")), "a b");
    assert_eq!(text_of(&vec!['x', 'y']), "xy");
}

#[test]
fn sauce_form_edits_and_applies() {
    let mut meta = Sauce::default();
    meta.title = "Old".to_string();
    let mut f = SauceForm::new(&meta, false);
    assert!(!f.attach);
    assert_eq!(f.title, vec!['O', 'l', 'd']);
    f.key(key(Key::Backspace));
    f.key(key(Key::Char('!')));
    assert_eq!(f.title, vec!['O', 'l', '!']);
    f.key(key(Key::Down));
    for c in " Jeff ".chars() {
        f.key(key(Key::Char(c)));
    }
    f.key(key(Key::Up));
    f.key(key(Key::Up));
    assert_eq!(f.sel, 3);
    f.key(key(Key::Char(' ')));
    assert!(f.attach);
    f.key(key(Key::Left));
    assert!(!f.attach);
    assert_eq!(f.key(key(Key::Enter)), FormStep::Accept);
    assert!(!f.apply(&mut meta));
    assert_eq!(meta.title, "Ol!");
    assert_eq!(meta.author, "Jeff");
    // an empty record starts with the switch on; fields stop at their size
    let mut f = SauceForm::new(&Sauce::default(), false);
    assert!(f.attach);
    f.sel = 1;
    for _ in 0..30 {
        f.key(key(Key::Char('a')));
    }
    assert_eq!(f.author.len(), 20);
    assert_eq!(f.key(key(Key::Esc)), FormStep::Cancel);
}

#[test]
fn sauce_form_clicks() {
    let mut f = SauceForm::new(&Sauce::default(), true);
    assert_eq!(f.click(20, 4), FormStep::Stay);
    assert_eq!(f.sel, 1);
    f.click(20, 6);
    assert_eq!(f.sel, 3);
    assert!(f.attach);
    f.click(20, 6);
    assert!(!f.attach);
    assert_eq!(f.click(20, 7), FormStep::Stay);
    assert_eq!(f.click(0, 20), FormStep::Cancel);
}

fn sets() -> Vec<(String, String)> {
    vec![("Lines".to_string(), "─│".to_string()), ("Blocks".to_string(), "░▒▓".to_string())]
}

#[test]
fn command_table_lists_fixed_and_set_commands() {
    let t = command_table(&sets());
    assert_eq!(t.len(), 20);
    assert_eq!(t[0].label, "Save file");
    assert_eq!(t[0].keys, "^S");
    assert_eq!(t[17].cmd, Cmd::Exit);
    assert_eq!(t[18].label, "Charset 1: Lines ─│");
    assert_eq!(t[19].label, "Charset 2: Blocks ░▒▓");
    assert_eq!(t[19].cmd, Cmd::SetCharset(1));
}

#[test]
fn palette_filter_puts_prefix_matches_first() {
    let t = command_table(&sets());
    let r = filter_commands(&t, "li");
    let labels: Vec<&str> = r.iter().map(|&i| t[i].label.as_str()).collect();
    assert_eq!(labels, vec!["Insert line", "Delete line", "Charset 1: Lines ─│"]);
    let r = filter_commands(&t, "CHAR");
    let labels: Vec<&str> = r.iter().map(|&i| t[i].label.as_str()).collect();
    assert_eq!(
        labels,
        vec![
            "Character picker",
            "Charset 1: Lines ─│",
            "Charset 2: Blocks ░▒▓",
            "Next character set",
            "Previous character set"
        ]
    );
    assert_eq!(filter_commands(&t, "").len(), 20);
    assert!(filter_commands(&t, "zzz").is_empty());
}

#[test]
fn palette_keys_and_clicks() {
    let mut p = Palette::new();
    assert_eq!(p.key(20, key(Key::Down)), PaletteStep::Stay);
    assert_eq!(p.sel, 1);
    assert_eq!(p.key(20, key(Key::Enter)), PaletteStep::Pick(1));
    p.key(20, key(Key::Char('u')));
    assert_eq!(p.query_text(), "u");
    assert_eq!(p.sel, 0);
    for _ in 0..20 {
        p.key(3, key(Key::Down));
    }
    assert_eq!(p.sel, 2);
    p.key(1, key(Key::Up));
    assert_eq!(p.sel, 0);
    p.key(0, key(Key::Backspace));
    assert!(p.query.is_empty());
    assert_eq!(p.key(0, key(Key::Enter)), PaletteStep::Close);
    assert_eq!(p.key(5, KeyPress { key: Key::Char('k'), ctrl: true, alt: false }), PaletteStep::Close);
    assert_eq!(p.mouse(5, MouseKind::LeftDown, 20, 6), PaletteStep::Pick(2));
    assert_eq!(p.mouse(2, MouseKind::LeftDown, 20, 6), PaletteStep::Stay);
    assert_eq!(p.mouse(5, MouseKind::LeftDown, 0, 0), PaletteStep::Close);
    p.mouse(5, MouseKind::ScrollDown, 0, 0);
    assert_eq!(p.sel, 1);
}

#[test]
fn picker_moves_and_inserts() {
    assert_eq!(picker_key_step(PICKER_START, key(Key::Right)), (0xB1, PickStep::Stay));
    assert_eq!(picker_key_step(0, key(Key::Left)), (255, PickStep::Stay));
    assert_eq!(picker_key_step(10, key(Key::Up)), (234, PickStep::Stay));
    assert_eq!(picker_key_step(0xB0, key(Key::Enter)), (0xB0, PickStep::Insert('░')));
    assert_eq!(picker_click_step(0, 8, 3), (1, PickStep::Stay));
    assert_eq!(picker_click_step(33, 8, 4), (33, PickStep::Insert('!')));
    assert_eq!(picker_click_step(0, 0, 0), (0, PickStep::Close));
}

#[test]
fn quick_palette_steps() {
    assert_eq!(colors_key_step(15, 0, key(Key::Up)), (0, 0, false));
    assert_eq!(colors_key_step(0, 0, key(Key::Left)), (0, 7, false));
    assert_eq!(colors_key_step(3, 4, key(Key::Enter)), (3, 4, true));
    assert_eq!(colors_click_step(3, 4, 10, 2), (3, 4, false));
    assert_eq!(colors_click_step(3, 4, 11, 3), (3, 3, false));
    assert_eq!(colors_click_step(3, 4, 11, 9), (3, 4, true));
}

#[test]
fn prompt_and_questions() {
    let mut t = chars_of("art");
    assert_eq!(prompt_key_step(&mut t, key(Key::Char('x'))), None);
    assert_eq!(prompt_key_step(&mut t, key(Key::Backspace)), None);
    assert_eq!(prompt_key_step(&mut t, key(Key::Char(' '))), None);
    assert_eq!(prompt_key_step(&mut t, key(Key::Enter)), Some(Some("art".to_string())));
    let mut blank = chars_of("  ");
    assert_eq!(prompt_key_step(&mut blank, key(Key::Enter)), Some(None));
    assert_eq!(prompt_key_step(&mut t, key(Key::Esc)), Some(None));
    assert_eq!(yes_no_key(key(Key::Char('Y'))), Some(true));
    assert_eq!(yes_no_key(key(Key::Esc)), Some(false));
    assert_eq!(yes_no_key(key(Key::Char('q'))), None);
    assert_eq!(exit_key(key(Key::Char('y'))), Some(ExitChoice::Save));
    assert_eq!(exit_key(key(Key::Char('N'))), Some(ExitChoice::Discard));
    assert_eq!(exit_key(key(Key::Esc)), Some(ExitChoice::Stay));
}
