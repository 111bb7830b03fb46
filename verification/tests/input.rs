use pixel_agents_tui::keymap::{parse_chord, Action, BindingValue, Keymap};
use pixel_agents_tui::keys::{
    KeyCode, KeyMods, MouseButton, MouseEvent, MouseEventKind, MOD_ALT, MOD_CONTROL, MOD_SHIFT,
};
use pixel_agents_tui::pty::{encode_key, encode_mouse, encode_mouse_sgr, encode_mouse_x10, MouseModes};

fn ctrl_alt() -> KeyMods {
    KeyMods::control().union(KeyMods::alt())
}

// ── Key bindings ────────────────────────────────────────────────────────────

#[test]
fn defaults_include_quit() {
    let km = Keymap::defaults();
    assert_eq!(km.matches(ctrl_alt(), KeyCode::Char('q')), Some(Action::Quit));
}

#[test]
fn defaults_include_toggle_layout() {
    let km = Keymap::defaults();
    assert_eq!(km.matches(ctrl_alt(), KeyCode::Char('l')), Some(Action::ToggleLayout));
}

#[test]
fn defaults_include_focus_office() {
    let km = Keymap::defaults();
    assert_eq!(km.matches(ctrl_alt(), KeyCode::Char('o')), Some(Action::FocusOffice));
}

#[test]
fn unknown_key_returns_none() {
    let km = Keymap::defaults();
    assert_eq!(km.matches(KeyMods::none(), KeyCode::Char('z')), None);
}

#[test]
fn parse_chord_ctrl_alt_q() {
    let (mods, code) = parse_chord("ctrl+alt+q").unwrap();
    assert_eq!(mods, ctrl_alt());
    assert_eq!(code, KeyCode::Char('q'));
}

#[test]
fn parse_chord_tab() {
    let (mods, code) = parse_chord("tab").unwrap();
    assert_eq!(mods, KeyMods::none());
    assert_eq!(code, KeyCode::Tab);
}

#[test]
fn parse_chord_unknown_modifier() {
    assert!(parse_chord("super+q").is_none());
}

#[test]
fn parse_chord_unknown_key() {
    assert!(parse_chord("ctrl+f13").is_none());
}

#[test]
fn parse_chord_any_case_and_aliases() {
    assert_eq!(parse_chord("Control+Shift+PageUp"), Some((KeyMods { bits: MOD_CONTROL | MOD_SHIFT }, KeyCode::PageUp)));
    assert_eq!(parse_chord("ALT+Return"), Some((KeyMods::alt(), KeyCode::Enter)));
    assert_eq!(parse_chord("del"), Some((KeyMods::none(), KeyCode::Delete)));
    assert_eq!(parse_chord("Q"), Some((KeyMods::none(), KeyCode::Char('q'))));
}

#[test]
fn parse_chord_rejects_empty_parts_and_non_ascii_keys() {
    assert!(parse_chord("").is_none());
    assert!(parse_chord("ctrl+").is_none());
    assert!(parse_chord("+q").is_none());
    assert!(parse_chord("ctrl+é").is_none());
    assert_eq!(parse_chord("ctrl++"), None);
}

#[test]
fn toml_override_replaces_quit() {
    let mut km = Keymap::defaults();
    km.apply_toml("[bindings]\nquit = [\"ctrl+q\"]");
    assert_eq!(km.matches(KeyMods::control(), KeyCode::Char('q')), Some(Action::Quit));
    assert_eq!(km.matches(ctrl_alt(), KeyCode::Char('q')), None);
}

#[test]
fn toml_bad_parse_ignored() {
    let mut km = Keymap::defaults();
    km.apply_toml("!!! not valid toml !!!");
    assert_eq!(km.matches(ctrl_alt(), KeyCode::Char('q')), Some(Action::Quit));
}

#[test]
fn toml_unknown_action_skipped() {
    let mut km = Keymap::defaults();
    km.apply_toml("[bindings]\nunknown_action = [\"ctrl+x\"]");
    assert_eq!(km.matches(KeyMods::control(), KeyCode::Char('x')), None);
}

#[test]
fn toml_single_string_and_bad_chords() {
    let mut km = Keymap::defaults();
    km.apply_toml("[bindings]\ntoggle_layout = \"ctrl+t\"\nfocus_office = [\"hyper+o\", 3, \"alt+o\"]");
    assert_eq!(km.matches(KeyMods::control(), KeyCode::Char('t')), Some(Action::ToggleLayout));
    assert_eq!(km.matches(ctrl_alt(), KeyCode::Char('l')), None);
    assert_eq!(km.matches(KeyMods::alt(), KeyCode::Char('o')), Some(Action::FocusOffice));
    assert_eq!(km.matches(ctrl_alt(), KeyCode::Char('o')), None);
    assert_eq!(km.matches(ctrl_alt(), KeyCode::Char('q')), Some(Action::Quit));
}

#[test]
fn toml_value_of_other_type_keeps_bindings() {
    let mut km = Keymap::defaults();
    km.apply_toml("[bindings]\nquit = 5");
    assert_eq!(km.matches(ctrl_alt(), KeyCode::Char('q')), Some(Action::Quit));
}

#[test]
fn bindings_later_entry_takes_chord() {
    let mut km = Keymap::defaults();
    km.apply_bindings(&[
        ("quit".to_string(), BindingValue::One("ctrl+x".to_string())),
        ("focus_office".to_string(), BindingValue::Many(vec![Some("ctrl+x".to_string()), None])),
    ]);
    assert_eq!(km.matches(KeyMods::control(), KeyCode::Char('x')), Some(Action::FocusOffice));
    assert_eq!(km.matches(ctrl_alt(), KeyCode::Char('q')), None);
    assert_eq!(km.matches(ctrl_alt(), KeyCode::Char('l')), Some(Action::ToggleLayout));
}

// ── Key and mouse encoding ──────────────────────────────────────────────────

#[test]
fn encode_plain_char() {
    assert_eq!(encode_key(KeyCode::Char('a'), KeyMods::none()), Some(b"a".to_vec()));
}

#[test]
fn encode_ctrl_c_is_etx() {
    assert_eq!(encode_key(KeyCode::Char('c'), KeyMods::control()), Some(vec![0x03]));
}

#[test]
fn encode_enter_is_carriage_return() {
    assert_eq!(encode_key(KeyCode::Enter, KeyMods::none()), Some(b"\r".to_vec()));
}

#[test]
fn encode_backspace_is_del() {
    assert_eq!(encode_key(KeyCode::Backspace, KeyMods::none()), Some(vec![0x7f]));
}

#[test]
fn encode_arrow_up_is_csi() {
    assert_eq!(encode_key(KeyCode::Up, KeyMods::none()), Some(b"\x1b[A".to_vec()));
}

#[test]
fn encode_alt_char_prefixes_escape() {
    assert_eq!(encode_key(KeyCode::Char('x'), KeyMods::alt()), Some(b"\x1bx".to_vec()));
}

#[test]
fn encode_unmapped_key_is_none() {
    assert_eq!(encode_key(KeyCode::F(5), KeyMods::none()), None);
}

#[test]
fn encode_control_codes_and_utf8() {
    assert_eq!(encode_key(KeyCode::Char('Z'), KeyMods::control()), Some(vec![0x1a]));
    assert_eq!(encode_key(KeyCode::Char('['), KeyMods::control()), Some(vec![0x1b]));
    assert_eq!(encode_key(KeyCode::Char(' '), KeyMods::control()), Some(vec![0x00]));
    assert_eq!(encode_key(KeyCode::Char('/'), KeyMods::control()), Some(vec![0x1f]));
    assert_eq!(encode_key(KeyCode::Char('a'), ctrl_alt()), Some(vec![0x1b, 0x01]));
    assert_eq!(encode_key(KeyCode::Char('1'), KeyMods::control()), None);
    assert_eq!(encode_key(KeyCode::Char('é'), KeyMods::none()), Some("é".as_bytes().to_vec()));
    assert_eq!(encode_key(KeyCode::Char('€'), KeyMods::alt()), Some(b"\x1b\xe2\x82\xac".to_vec()));
    assert_eq!(encode_key(KeyCode::Char('😀'), KeyMods::none()), Some("😀".as_bytes().to_vec()));
    assert_eq!(encode_key(KeyCode::PageDown, KeyMods::none()), Some(b"\x1b[6~".to_vec()));
    assert_eq!(encode_key(KeyCode::BackTab, KeyMods::shift()), Some(b"\x1b[Z".to_vec()));
    assert_eq!(encode_key(KeyCode::Other, KeyMods::none()), None);
}

#[test]
fn mouse_sgr_encodes_left_down_with_mods_who_what_when_where_why() {
    let ev = MouseEvent {
        kind: MouseEventKind::Down(MouseButton::Left),
        column: 4,
        row: 9,
        modifiers: KeyMods { bits: MOD_SHIFT | MOD_CONTROL },
    };
    assert_eq!(encode_mouse_sgr(&ev), b"\x1b[<20;5;10M".to_vec());
}

#[test]
fn mouse_sgr_release_uses_lowercase_m_who_what_when_where_why() {
    let ev = MouseEvent {
        kind: MouseEventKind::Up(MouseButton::Right),
        column: 0,
        row: 0,
        modifiers: KeyMods::none(),
    };
    assert_eq!(encode_mouse_sgr(&ev), b"\x1b[<2;1;1m".to_vec());
}

#[test]
fn mouse_x10_encodes_basic_press_and_forces_release_code_3_who_what_when_where_why() {
    let down = MouseEvent {
        kind: MouseEventKind::Down(MouseButton::Middle),
        column: 10,
        row: 5,
        modifiers: KeyMods { bits: MOD_ALT },
    };
    assert_eq!(encode_mouse_x10(&down), b"\x1b[M\x29\x2b\x26".to_vec());
    let up = MouseEvent {
        kind: MouseEventKind::Up(MouseButton::Left),
        column: 0,
        row: 0,
        modifiers: KeyMods::none(),
    };
    let b = encode_mouse_x10(&up);
    assert_eq!(b[3], 32 + 3, "X10 release conventionally uses button 3");
}

#[test]
fn mouse_dispatcher_chooses_sgr_vs_x10_per_flag_who_what_when_where_why() {
    let ev = MouseEvent {
        kind: MouseEventKind::Down(MouseButton::Left),
        column: 0,
        row: 0,
        modifiers: KeyMods::none(),
    };
    let sgr = encode_mouse(&ev, true);
    let x10 = encode_mouse(&ev, false);
    assert!(sgr.starts_with(b"\x1b[<"), "SGR has <");
    assert!(x10.starts_with(b"\x1b[M"), "X10 has M after CSI");
}

#[test]
fn mouse_x10_clamps_far_cells_and_reports_wheel() {
    let ev = MouseEvent {
        kind: MouseEventKind::ScrollDown,
        column: 300,
        row: 2,
        modifiers: KeyMods { bits: MOD_CONTROL },
    };
    assert_eq!(encode_mouse_x10(&ev), vec![0x1b, b'[', b'M', 32 + 65 + 16, 255, 35]);
    let far = MouseEvent { kind: MouseEventKind::Moved, column: 65535, row: 40000, modifiers: KeyMods::none() };
    assert_eq!(encode_mouse_x10(&far), vec![0x1b, b'[', b'M', 32 + 35, 32, 32]);
}

#[test]
fn mouse_sgr_large_and_wrapped_coordinates() {
    let ev = MouseEvent {
        kind: MouseEventKind::Drag(MouseButton::Right),
        column: 1200,
        row: 65535,
        modifiers: KeyMods { bits: MOD_ALT },
    };
    assert_eq!(encode_mouse_sgr(&ev), b"\x1b[<10;1201;0M".to_vec());
    let ev2 = MouseEvent { kind: MouseEventKind::Moved, column: 65534, row: 0, modifiers: KeyMods::none() };
    assert_eq!(encode_mouse_sgr(&ev2), b"\x1b[<35;-1;1M".to_vec());
}

#[test]
fn mouse_modes_follow_decset_sequences() {
    let mut m = MouseModes::new();
    assert!(!m.tracking());
    m.update(b"\x1b[?1002h");
    assert!(m.tracking());
    m.update(b"\x1b[?1002l");
    assert!(!m.tracking());
    m.update(b"some noise\x1b[?1006hmore");
    assert!(m.sgr_enabled());
    m.update(b"\x1b[?1006l");
    assert!(!m.sgr_enabled());
    m.update(b"\x1b[?1000h\x1b[?1006h\x1b[?1005h");
    assert!(m.tracking() && m.mouse_tracking);
    assert!(!m.sgr_enabled(), "UTF-8 coordinates turn SGR off");
    m.update(b"\x1b[?1000l\x1b[?1000h");
    assert!(m.mouse_tracking, "a set in the chunk wins over a reset");
    m.update(b"\x1b[?100");
    m.update(b"3h");
    assert!(!m.any_event_mouse, "a split sequence is not seen");
}
