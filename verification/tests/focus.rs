use pixel_agents_tui::focus::{tab_press, FocusMode, TabOutcome};

#[test]
fn office_label() {
    assert_eq!(FocusMode::Office.label(), "OFFICE");
}

#[test]
fn pty_agent_label() {
    assert_eq!(FocusMode::PtyAgent(3).label(), "AGENT");
}

#[test]
fn tab_office_no_agents_noop() {
    assert_eq!(tab_press(&FocusMode::Office, &[]), TabOutcome::NoOp);
}

#[test]
fn tab_office_with_agents_focuses_first() {
    let result = tab_press(&FocusMode::Office, &[7]);
    assert_eq!(result, TabOutcome::Focus(FocusMode::PtyAgent(7)));
}

#[test]
fn tab_office_skips_subagents() {
    let result = tab_press(&FocusMode::Office, &[-1, -2, 5]);
    assert_eq!(result, TabOutcome::Focus(FocusMode::PtyAgent(5)));
}

#[test]
fn tab_in_pty_mode_passthrough() {
    assert_eq!(tab_press(&FocusMode::PtyAgent(3), &[3]), TabOutcome::PassThroughToPty);
}

#[test]
fn tab_in_editor_noop() {
    assert_eq!(tab_press(&FocusMode::Editor, &[1, 2]), TabOutcome::NoOp);
}

#[test]
fn normalize_subagent_to_parent() {
    let f = FocusMode::PtyAgent(-1);
    let normalized = f.normalize(|id| if id == -1 { Some(5) } else { None });
    assert_eq!(normalized, FocusMode::PtyAgent(5));
}

#[test]
fn normalize_unknown_subagent_falls_back_to_office() {
    let f = FocusMode::PtyAgent(-99);
    let normalized = f.normalize(|_| None);
    assert_eq!(normalized, FocusMode::Office);
}

#[test]
fn normalize_real_agent_unchanged() {
    let f = FocusMode::PtyAgent(3);
    let normalized = f.clone().normalize(|_| None);
    assert_eq!(normalized, f);
}

#[test]
fn normalize_is_idempotent_on_example() {
    let parent = |id: i32| if id == -4 { Some(8) } else { None };
    let once = FocusMode::PtyAgent(-4).normalize(parent);
    assert_eq!(once.normalize(parent), once);
}

#[test]
fn editor_label_and_kind() {
    assert_eq!(FocusMode::Editor.label(), "EDITOR");
    assert!(FocusMode::PtyAgent(2).is_pty_agent());
    assert!(!FocusMode::Office.is_pty_agent());
}
