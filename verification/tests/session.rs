use std::time::Duration;

use pixel_agents_tui::agents::{AgentSnapshot, AgentState, AgentStatus};
use pixel_agents_tui::chrome::ChromeAction;
use pixel_agents_tui::focus::FocusMode;
use pixel_agents_tui::keymap::Keymap;
use pixel_agents_tui::keys::{KeyCode, KeyMods};
use pixel_agents_tui::reconnect::ReconnectState;
use pixel_agents_tui::session::{AgentEvent, AppAction, OfficeCommand, PendingKind, Session};

fn make_state() -> Session {
    Session::new(Keymap::defaults())
}

fn snapshot(id: i32, palette: u8) -> AgentSnapshot {
    AgentSnapshot { id, session_id: "s".into(), palette, hue_shift: 0, seat_id: None }
}

fn created_evt(id: i32, palette: u8) -> AgentEvent {
    AgentEvent::Created(snapshot(id, palette))
}

fn status_evt(id: i32, status: &str, tool: &str) -> AgentEvent {
    AgentEvent::StatusChanged { id, status: status.into(), tool: tool.into() }
}

fn remaining_ms(rs: &ReconnectState) -> u64 {
    let elapsed = rs.since.elapsed().as_millis() as u64;
    rs.next_try_ms.saturating_sub(elapsed)
}

// ── Session ─────────────────────────────────────────────────────────────────

#[test]
fn zoom_clamps_at_10() {
    let mut s = make_state();
    s.zoom = 10;
    s.zoom_in();
    assert_eq!(s.zoom, 10);
}

#[test]
fn zoom_clamps_at_1() {
    let mut s = make_state();
    s.zoom = 1;
    s.zoom_out();
    assert_eq!(s.zoom, 1);
}

#[test]
fn zoom_increments() {
    let mut s = make_state();
    s.zoom = 3;
    s.zoom_in();
    assert_eq!(s.zoom, 4);
}

#[test]
fn req_ids_are_unique_and_monotonic() {
    let mut s = make_state();
    let a = s.next_req_id();
    let b = s.next_req_id();
    let c = s.next_req_id();
    assert!(a < b && b < c);
}

#[test]
fn pending_map_roundtrip() {
    let mut s = make_state();
    let id = s.next_req_id();
    s.pending.insert(id, PendingKind::AgentList);
    assert_eq!(s.pending.remove(&id), Some(PendingKind::AgentList));
    assert!(s.pending.is_empty());
}

#[test]
fn tracked_request_is_routed_once() {
    let mut s = make_state();
    let id = s.track_request(PendingKind::AgentSpawn);
    assert_eq!(id, 1);
    assert_eq!(s.take_pending(id), Some(PendingKind::AgentSpawn));
    assert_eq!(s.take_pending(id), None);
}

#[test]
fn handle_agent_created_event_adds_agent() {
    let mut s = make_state();
    let evt = AgentEvent::Created(AgentSnapshot {
        id: 2,
        session_id: "new-session".into(),
        palette: 1,
        hue_shift: 0,
        seat_id: None,
    });
    s.apply_agent_event(evt);
    assert_eq!(s.agents.len(), 1);
    assert_eq!(s.agents[0].id(), 2);
}

#[test]
fn handle_agent_created_deduplicates() {
    let mut s = make_state();
    s.agents = vec![AgentState::new(snapshot(3, 0))];
    let cmds = s.apply_agent_event(created_evt(3, 0));
    assert_eq!(s.agents.len(), 1);
    assert!(cmds.is_empty());
}

#[test]
fn handle_agent_exited_marks_exited() {
    let mut s = make_state();
    s.agents = vec![AgentState::new(snapshot(4, 0))];
    s.apply_agent_event(AgentEvent::Exited(4));
    assert_eq!(s.agents[0].status, AgentStatus::Exited);
}

#[test]
fn handle_status_changed_active() {
    let mut s = make_state();
    s.agents = vec![AgentState::new(snapshot(5, 0))];
    s.apply_agent_event(status_evt(5, "active", "Bash"));
    assert_eq!(s.agents[0].status, AgentStatus::Active("Bash".into()));
}

#[test]
fn status_change_updates_first_matching_agent_only() {
    let mut s = make_state();
    s.agents = vec![AgentState::new(snapshot(1, 0)), AgentState::new(snapshot(5, 0)), AgentState::new(snapshot(5, 1))];
    s.apply_agent_event(status_evt(5, "waiting", ""));
    assert_eq!(s.agents[0].status, AgentStatus::Idle);
    assert_eq!(s.agents[1].status, AgentStatus::Waiting);
    assert_eq!(s.agents[2].status, AgentStatus::Idle);
    s.apply_agent_event(status_evt(5, "bogus", ""));
    assert_eq!(s.agents[1].status, AgentStatus::Idle);
    s.apply_agent_event(status_evt(5, "exited", ""));
    assert_eq!(s.agents[1].status, AgentStatus::Exited);
}

#[test]
fn bridge_created_spawns_office_character() {
    let mut s = make_state();
    let cmds = s.apply_agent_event(created_evt(7, 2));
    assert_eq!(cmds.len(), 1);
    match &cmds[0] {
        OfficeCommand::AddAgent { id, palette, hue_shift, seat_id } => {
            assert_eq!((*id, *palette, *hue_shift), (7, 2, 0));
            assert!(seat_id.is_none());
        }
        other => panic!("unexpected command {other:?}"),
    }
}

#[test]
fn bridge_exited_triggers_despawn_effect() {
    let mut s = make_state();
    s.apply_agent_event(created_evt(7, 0));
    let cmds = s.apply_agent_event(AgentEvent::Exited(7));
    assert!(matches!(cmds[0], OfficeCommand::RemoveAgent(7)));
    assert!(matches!(cmds[1], OfficeCommand::DropTerminal(7)));
    assert_eq!(cmds.len(), 2);
}

#[test]
fn bridge_status_active_sets_tool_and_active() {
    let mut s = make_state();
    s.apply_agent_event(created_evt(7, 0));
    let cmds = s.apply_agent_event(status_evt(7, "active", "Read"));
    assert!(matches!(cmds[0], OfficeCommand::SetActive(7, true)));
    match &cmds[1] {
        OfficeCommand::SetTool(7, Some(t)) => assert_eq!(t, "Read"),
        other => panic!("unexpected command {other:?}"),
    }
    let cmds = s.apply_agent_event(status_evt(7, "active", ""));
    assert!(matches!(cmds[1], OfficeCommand::SetTool(7, None)));
}

#[test]
fn bridge_status_waiting_shows_bubble_and_deactivates() {
    let mut s = make_state();
    s.apply_agent_event(created_evt(7, 0));
    let cmds = s.apply_agent_event(status_evt(7, "waiting", ""));
    assert!(matches!(cmds[0], OfficeCommand::SetActive(7, false)));
    assert!(matches!(cmds[1], OfficeCommand::ShowWaitingBubble(7)));
    assert_eq!(cmds.len(), 2);
}

#[test]
fn on_disconnected_clears_pending_and_sets_reconnect() {
    let mut s = make_state();
    s.pending.insert(1, PendingKind::AgentList);
    s.on_disconnected();
    assert!(s.pending.is_empty());
    assert!(s.reconnect.is_some());
}

#[test]
fn on_connected_clears_reconnect() {
    let mut s = make_state();
    s.reconnect = Some(ReconnectState::new());
    s.on_connected("boot-1".into());
    assert!(s.reconnect.is_none());
    assert_eq!(s.connected_boot_id.as_deref(), Some("boot-1"));
}

#[test]
fn on_connected_new_boot_id_clears_agents() {
    let mut s = make_state();
    s.agents = vec![AgentState::new(snapshot(1, 0))];
    s.on_connected("boot-1".into());
    assert_eq!(s.agents.len(), 1);
    s.on_connected("boot-2".into());
    assert!(s.agents.is_empty());
}

#[test]
fn on_connected_same_boot_id_keeps_agents() {
    let mut s = make_state();
    s.agents = vec![AgentState::new(snapshot(1, 0))];
    s.on_connected("boot-1".into());
    s.on_connected("boot-1".into());
    assert_eq!(s.agents.len(), 1);
}

#[test]
fn on_connected_boot_id_change_resets_pty_focus() {
    let mut s = make_state();
    s.focus = FocusMode::PtyAgent(3);
    s.on_connected("boot-1".into());
    s.on_connected("boot-2".into());
    assert_eq!(s.focus, FocusMode::Office);
}

#[test]
fn keys_quit_toggle_and_tab() {
    let mut s = make_state();
    let ca = KeyMods::control().union(KeyMods::alt());
    assert_eq!(s.on_key(ca, KeyCode::Char('l')), AppAction::Continue);
    assert_eq!(s.focus, FocusMode::Editor);
    assert_eq!(s.on_key(ca, KeyCode::Char('l')), AppAction::Continue);
    assert_eq!(s.focus, FocusMode::Office);
    s.agents = vec![AgentState::new(snapshot(-2, 0)), AgentState::new(snapshot(4, 0))];
    assert_eq!(s.on_key(KeyMods::none(), KeyCode::Tab), AppAction::Continue);
    assert_eq!(s.focus, FocusMode::PtyAgent(4));
    assert_eq!(s.on_key(KeyMods::none(), KeyCode::Char('q')), AppAction::Continue, "q goes to the PTY");
    assert_eq!(s.on_key(ca, KeyCode::Char('o')), AppAction::Continue);
    assert_eq!(s.focus, FocusMode::Office);
    assert_eq!(s.on_key(KeyMods::shift(), KeyCode::Char('q')), AppAction::Continue);
    assert_eq!(s.on_key(KeyMods::none(), KeyCode::Char('q')), AppAction::Quit);
    assert_eq!(s.on_key(KeyMods::control(), KeyCode::Char('c')), AppAction::Quit);
    assert_eq!(s.on_key(ca, KeyCode::Char('q')), AppAction::Quit);
}

#[test]
fn toolbar_actions() {
    let mut s = make_state();
    assert!(s.on_chrome_action(ChromeAction::SpawnAgent));
    assert!(!s.on_chrome_action(ChromeAction::ZoomIn));
    assert_eq!(s.zoom, 3);
    assert!(!s.on_chrome_action(ChromeAction::ZoomOut));
    assert!(!s.on_chrome_action(ChromeAction::ZoomOut));
    assert!(!s.on_chrome_action(ChromeAction::ZoomOut));
    assert_eq!(s.zoom, 1);
    s.on_chrome_action(ChromeAction::ToggleLayout);
    assert_eq!(s.focus, FocusMode::Editor);
    s.on_chrome_action(ChromeAction::OpenSettings);
    assert_eq!(s.focus, FocusMode::Modal);
    s.on_chrome_action(ChromeAction::ToggleLayout);
    assert_eq!(s.focus, FocusMode::Editor);
}

// ── Reconnect back-off ──────────────────────────────────────────────────────

#[test]
fn new_immediate_is_due() {
    assert!(ReconnectState::new_immediate().is_due());
}

#[test]
fn new_has_250ms_delay() {
    let rs = ReconnectState::new();
    assert!(!rs.is_due());
    assert_eq!(rs.attempt, 0);
}

#[test]
fn on_failure_advances_attempt() {
    let mut rs = ReconnectState::new();
    rs.on_failure();
    assert_eq!(rs.attempt, 1);
}

#[test]
fn second_probe_delay_is_750ms() {
    let mut rs = ReconnectState::new();
    rs.on_failure();
    let remaining = Duration::from_millis(remaining_ms(&rs));
    assert!(remaining >= Duration::from_millis(600), "too short: {remaining:?}");
    assert!(remaining <= Duration::from_millis(800), "too long: {remaining:?}");
}

#[test]
fn subsequent_probes_3s_delay() {
    let mut rs = ReconnectState::new();
    rs.on_failure();
    rs.on_failure();
    let remaining = Duration::from_millis(remaining_ms(&rs));
    assert!(remaining >= Duration::from_millis(2800), "too short: {remaining:?}");
    assert!(remaining <= Duration::from_millis(3100), "too long: {remaining:?}");
}

#[test]
fn fork_fires_on_attempt_1() {
    let mut rs = ReconnectState::new();
    rs.on_failure();
    assert!(rs.should_fork());
}

#[test]
fn fork_not_on_attempt_0() {
    assert!(!ReconnectState::new().should_fork());
}

#[test]
fn fork_not_after_fork_attempted() {
    let mut rs = ReconnectState::new();
    rs.on_failure();
    rs.fork_attempted = true;
    assert!(!rs.should_fork());
}

#[test]
fn fork_not_on_attempt_2_plus() {
    let mut rs = ReconnectState::new();
    rs.on_failure();
    rs.fork_attempted = true;
    rs.on_failure();
    assert!(!rs.should_fork());
}

#[test]
fn elapsed_secs_near_zero() {
    let rs = ReconnectState::new();
    assert!(rs.elapsed_secs() <= 1);
}

#[test]
fn failed_attempts_fork_once() {
    let mut rs = ReconnectState::new_immediate();
    assert!(!rs.on_attempt_failed());
    assert!(rs.on_attempt_failed());
    assert!(rs.fork_attempted);
    assert!(!rs.on_attempt_failed());
    assert_eq!(rs.attempt, 3);
}

#[test]
fn backoff_at_given_times() {
    let mut rs = ReconnectState::new();
    assert!(!rs.is_due_at(249));
    assert!(rs.is_due_at(250));
    rs.on_failure_at(250);
    assert_eq!(rs.next_try_ms, 1000);
    rs.on_failure_at(1000);
    assert_eq!(rs.next_try_ms, 4000);
    rs.on_failure_at(u64::MAX - 1);
    assert_eq!(rs.next_try_ms, u64::MAX);
    assert_eq!(rs.elapsed_secs_at(4999), 4);
}
