use pixel_agents_tui::agents::{activity_label, AgentSnapshot, AgentState, AgentStatus};
use pixel_agents_tui::caps::cache::{cache_expired, now_secs, CACHE_TTL_SECS};
use pixel_agents_tui::caps::probe::{
    cell_size_reports, cell_size_reports_in, csi_reply, osc_reply_is_iterm2, parse_replies, probe_from_events,
    scan_kitty_ok, ProbeResult, ReplyEvent,
};
use pixel_agents_tui::caps::{build_caps, cap_at_most_sixel, is_cell_tier, parse_tier_override};
use pixel_agents_tui::chrome::{hit_test, office_caption, CellRect, ChromeAction, HitRect};
use pixel_agents_tui::reconnect::connect_banner;
use pixel_agents_tui::daemon::{CellPx, RenderingCap};
use pixel_agents_tui::input_queue::InputQueue;
use pixel_agents_tui::office::characters::{direction_between, is_reading_tool};
use pixel_agents_tui::office::types::Direction;
use pixel_agents_tui::pty::encode_paste;
use pixel_agents_tui::text::find_subslice;

#[test]
fn default_status_is_idle() {
    let snap = AgentSnapshot { id: 5, session_id: "x".into(), palette: 1, hue_shift: 0, seat_id: None };
    assert_eq!(AgentState::new(snap).status, AgentStatus::Idle);
}

#[test]
fn status_labels() {
    assert_eq!(AgentStatus::Idle.label(), "idle");
    assert_eq!(AgentStatus::Active("Read".into()).label(), "active");
    assert_eq!(AgentStatus::Waiting.label(), "waiting");
    assert_eq!(AgentStatus::Exited.label(), "exited");
}

#[test]
fn is_cell_tier_classifies_tiers() {
    assert!(is_cell_tier(&RenderingCap::Truecolor));
    assert!(is_cell_tier(&RenderingCap::C256));
    assert!(is_cell_tier(&RenderingCap::Braille));
    assert!(!is_cell_tier(&RenderingCap::KittyK));
    assert!(!is_cell_tier(&RenderingCap::Iterm2));
    assert!(!is_cell_tier(&RenderingCap::Sixel));
}

#[test]
fn ttl_epoch_is_expired() {
    assert!(now_secs().saturating_sub(0) > CACHE_TTL_SECS);
    assert!(cache_expired(now_secs(), 0));
}

#[test]
fn ttl_now_is_fresh() {
    assert!(now_secs().saturating_sub(now_secs()) <= CACHE_TTL_SECS);
    let now = now_secs();
    assert!(!cache_expired(now, now));
}

#[test]
fn ttl_boundary_is_inclusive() {
    assert!(!cache_expired(CACHE_TTL_SECS + 10, 10));
    assert!(cache_expired(CACHE_TTL_SECS + 11, 10));
    assert!(!cache_expired(5, 100));
}

#[test]
fn tier_override_names_and_numbers() {
    assert_eq!(parse_tier_override("T1-K").unwrap(), RenderingCap::KittyK);
    assert_eq!(parse_tier_override("sixel").unwrap(), RenderingCap::Sixel);
    assert_eq!(parse_tier_override("256").unwrap(), RenderingCap::C256);
    assert_eq!(parse_tier_override("Braille").unwrap(), RenderingCap::Braille);
    assert_eq!(parse_tier_override("Bogus").unwrap_err().value, "bogus");
}

#[test]
fn multiplexer_caps_pixel_tiers_at_sixel() {
    assert_eq!(cap_at_most_sixel(RenderingCap::KittyK), RenderingCap::Sixel);
    assert_eq!(cap_at_most_sixel(RenderingCap::Iterm2), RenderingCap::Sixel);
    assert_eq!(cap_at_most_sixel(RenderingCap::C16), RenderingCap::C16);
}

#[test]
fn caps_default_cell_size() {
    let c = build_caps(80, 24, RenderingCap::Truecolor, None);
    assert_eq!((c.cell_px.w, c.cell_px.h), (8, 16));
    let c2 = build_caps(80, 24, RenderingCap::Sixel, Some(CellPx { w: 10, h: 20 }));
    assert_eq!((c2.cell_px.w, c2.cell_px.h), (10, 20));
    assert!(c2.bracketed_paste && c2.mouse);
}

/// The (width, height) read from each cell size report among the replies,
/// rounded as the client does.
fn read_cells(bytes: &[u8]) -> Vec<Option<(u16, u16)>> {
    cell_size_reports(bytes)
        .iter()
        .map(|r| {
            r.as_ref().and_then(|(h, w)| {
                let h: f32 = std::str::from_utf8(h).unwrap_or("").parse().ok()?;
                let w: f32 = std::str::from_utf8(w).unwrap_or("").parse().ok()?;
                Some((w.round() as u16, h.round() as u16))
            })
        })
        .collect()
}

#[test]
fn da1_sixel_detected() {
    let reply = b"\x1b[?64;1;4;6;9;15;22;28;32;42c";
    let r = parse_replies(reply, &[]);
    assert!(r.has_sixel);
}

#[test]
fn da1_no_sixel() {
    let reply = b"\x1b[?64;1;6;9;15c";
    let r = parse_replies(reply, &[]);
    assert!(!r.has_sixel);
}

#[test]
fn kitty_ok() {
    let reply = b"\x1b_Gi=99;OK\x1b\\";
    let r = parse_replies(reply, &[]);
    assert!(r.has_kitty);
}

#[test]
fn kitty_error_not_ok() {
    let reply = b"\x1b_Gi=99;EINVAL:unsupported pixel format\x1b\\";
    let r = parse_replies(reply, &[]);
    assert!(!r.has_kitty);
}

#[test]
fn csi14t_cell_size() {
    let reply = b"\x1b[4;20;10t";
    let r = parse_replies(reply, &[]);
    assert_eq!(r.cell_px, Some((10, 20)));
}

#[test]
fn iterm2_cell_size() {
    let reply = b"\x1b]1337;CellSize=20.0x10.0\x07";
    let cells = read_cells(reply);
    assert_eq!(cells, vec![Some((10, 20))]);
    let r = parse_replies(reply, &cells);
    assert!(r.has_iterm2);
    assert_eq!(r.cell_px, Some((10, 20)));
}

#[test]
fn mixed_replies_all_detected() {
    let mut data = Vec::new();
    data.extend_from_slice(b"\x1b[?4c");
    data.extend_from_slice(b"\x1b_Gi=99;OK\x1b\\");
    data.extend_from_slice(b"\x1b[4;24;12t");
    let r = parse_replies(&data, &read_cells(&data));
    assert!(r.has_sixel);
    assert!(r.has_kitty);
    assert_eq!(r.cell_px, Some((12, 24)));
}

#[test]
fn scan_kitty_ok_reads_raw_bytes() {
    assert!(scan_kitty_ok(b"\x1b_Gi=99;OK\x1b\\"));
    assert!(!scan_kitty_ok(b"\x1b_Gi=99;ENOENT:unsupported\x1b\\"));
}

#[test]
fn kitty_ok_after_other_apc_and_unterminated() {
    assert!(scan_kitty_ok(b"xx\x1b_Xfoo\x1b\\\x1b_GOK\x1b\\"));
    assert!(!scan_kitty_ok(b"\x1b_GOK"));
    assert!(!scan_kitty_ok(b"\x1b_OK\x1b\\"));
}

#[test]
fn csi_reply_reads_da1_and_pixel_size() {
    let mut r = ProbeResult::default();
    csi_reply(&mut r, &vec![vec![62], vec![4], vec![22]], b"?", 'c');
    assert!(r.has_sixel);
    let mut n = ProbeResult::default();
    csi_reply(&mut n, &vec![vec![62], vec![22]], b"?", 'c');
    assert!(!n.has_sixel);
    let mut s = ProbeResult::default();
    csi_reply(&mut s, &vec![vec![4], vec![600], vec![800]], b"", 't');
    assert_eq!(s.cell_px, Some((800, 600)));
    let mut z = ProbeResult::default();
    csi_reply(&mut z, &vec![vec![4], vec![0], vec![800]], b"", 't');
    assert_eq!(z.cell_px, None);
}

#[test]
fn events_fold_in_order_with_read_cells() {
    let events = vec![
        ReplyEvent::Csi { params: vec![vec![4], vec![24], vec![12]], intermediates: vec![], action: 't' },
        ReplyEvent::Osc { params: vec![b"1337".to_vec(), b"CellSize=17.5x8".to_vec()] },
        ReplyEvent::Csi { params: vec![vec![62], vec![4]], intermediates: b"?".to_vec(), action: 'c' },
    ];
    let r = probe_from_events(&events, &[None, Some((8, 18))], b"");
    assert!(r.has_sixel && r.has_iterm2 && !r.has_kitty);
    assert_eq!(r.cell_px, Some((8, 18)));
    // A zero size from the report leaves the earlier size.
    let z = probe_from_events(&events, &[None, Some((0, 18))], b"\x1b_GOK\x1b\\");
    assert_eq!(z.cell_px, Some((12, 24)));
    assert!(z.has_kitty);
    // Without a read size the report only identifies iTerm2.
    let n = probe_from_events(&events, &[], b"");
    assert!(n.has_iterm2);
    assert_eq!(n.cell_px, Some((12, 24)));
}

#[test]
fn cell_size_report_texts() {
    let events = vec![
        ReplyEvent::Osc { params: vec![b"1337".to_vec(), b"CellSize=17.5x8".to_vec()] },
        ReplyEvent::Osc { params: vec![b"1337".to_vec(), b"CellSize=17".to_vec()] },
        ReplyEvent::Osc { params: vec![b"52".to_vec(), b"CellSize=1x1".to_vec()] },
        ReplyEvent::Csi { params: vec![], intermediates: vec![], action: 'c' },
    ];
    let r = cell_size_reports_in(&events);
    assert_eq!(r, vec![Some((b"17.5".to_vec(), b"8".to_vec())), None, None, None]);
    let raw = cell_size_reports(b"\x1b[?4c\x1b]1337;CellSize=20.0x10.0\x07");
    assert_eq!(raw, vec![None, Some((b"20.0".to_vec(), b"10.0".to_vec()))]);
}

#[test]
fn iterm2_osc_detected() {
    assert!(osc_reply_is_iterm2(&vec![b"1337".to_vec(), b"CellSize=17.5x8".to_vec()]));
    assert!(osc_reply_is_iterm2(&vec![b"1337".to_vec(), b"ReportVariable=iTerm2x".to_vec()]));
    assert!(!osc_reply_is_iterm2(&vec![b"1337".to_vec(), b"Other".to_vec()]));
    assert!(!osc_reply_is_iterm2(&vec![b"52".to_vec(), b"CellSize=1x1".to_vec()]));
}

#[test]
fn hit_test_inside_rect() {
    let hits = vec![HitRect { rect: CellRect { x: 0, y: 10, width: 9, height: 1 }, action: ChromeAction::SpawnAgent }];
    assert_eq!(hit_test(&hits, 4, 10), Some(ChromeAction::SpawnAgent));
}

#[test]
fn hit_test_outside_rect() {
    let hits = vec![HitRect { rect: CellRect { x: 0, y: 10, width: 9, height: 1 }, action: ChromeAction::SpawnAgent }];
    assert_eq!(hit_test(&hits, 4, 9), None);
    assert_eq!(hit_test(&hits, 9, 10), None);
}

#[test]
fn hit_test_first_match_wins() {
    let hits = vec![
        HitRect { rect: CellRect { x: 0, y: 0, width: 10, height: 1 }, action: ChromeAction::SpawnAgent },
        HitRect { rect: CellRect { x: 0, y: 0, width: 10, height: 1 }, action: ChromeAction::ZoomIn },
    ];
    assert_eq!(hit_test(&hits, 5, 0), Some(ChromeAction::SpawnAgent));
}

#[test]
fn hit_test_empty_list() {
    assert_eq!(hit_test(&[], 0, 0), None);
}

#[test]
fn empty_on_new() {
    let mut q = InputQueue::new();
    assert!(q.is_empty());
    assert_eq!(q.drain().len(), 0);
}

#[test]
fn push_and_drain() {
    let mut q = InputQueue::new();
    q.push(b"hello");
    q.push(b" world");
    assert!(!q.is_empty());
    let out = q.drain();
    assert_eq!(&out[..], b"hello world");
    assert!(q.is_empty());
}

#[test]
fn drain_clears() {
    let mut q = InputQueue::new();
    q.push(b"abc");
    let _ = q.drain();
    q.push(b"def");
    assert_eq!(&q.drain()[..], b"def");
}

#[test]
fn paste_unbracketed_is_verbatim() {
    assert_eq!(encode_paste("hello", false), b"hello".to_vec());
}

#[test]
fn paste_bracketed_wraps_in_markers() {
    assert_eq!(encode_paste("hi", true), b"\x1b[200~hi\x1b[201~".to_vec());
}

#[test]
fn paste_bracketed_strips_embedded_end_marker() {
    let got = encode_paste("a\x1b[201~rm -rf\rb", true);
    assert_eq!(got, b"\x1b[200~arm -rf\rb\x1b[201~".to_vec());
    assert_eq!(find_subslice(&got, b"\x1b[200~"), Some(0));
    assert_eq!(got.windows(6).filter(|w| *w == b"\x1b[201~").count(), 1);
}

#[test]
fn paste_strips_every_end_marker() {
    let got = encode_paste("\x1b[201~x\x1b[201~\x1b[201~y", true);
    assert_eq!(got, b"\x1b[200~xy\x1b[201~".to_vec());
}

#[test]
fn find_subslice_first_occurrence() {
    assert_eq!(find_subslice(b"abcabc", b"bc"), Some(1));
    assert_eq!(find_subslice(b"abc", b""), None);
    assert_eq!(find_subslice(b"ab", b"abc"), None);
}

#[test]
fn reading_tools() {
    assert!(is_reading_tool("Read"));
    assert!(is_reading_tool("WebSearch"));
    assert!(!is_reading_tool("Edit"));
}

// ── Tier decisions from the environment and the probe ──────────────────────

use pixel_agents_tui::caps::cache::{cached_entry, env_key_from};
use pixel_agents_tui::caps::{colorterm_fallback, is_native_kitty, tier_from_probe};

#[test]
fn colorterm_fallback_reads_truecolor_and_24bit() {
    assert_eq!(colorterm_fallback(Some("truecolor")), RenderingCap::Truecolor);
    assert_eq!(colorterm_fallback(Some("24bit")), RenderingCap::Truecolor);
    assert_eq!(colorterm_fallback(Some("TrueColor")), RenderingCap::C256);
    assert_eq!(colorterm_fallback(None), RenderingCap::C256);
}

#[test]
fn native_kitty_from_environment() {
    assert!(is_native_kitty(true, None, None));
    assert!(is_native_kitty(false, Some("ghostty"), None));
    assert!(is_native_kitty(false, None, Some("xterm-kitty")));
    assert!(!is_native_kitty(false, Some("iTerm.app"), Some("xterm-256color")));
}

#[test]
fn tier_from_probe_prefers_kitty_then_iterm2_then_sixel() {
    let mut p = ProbeResult::default();
    assert_eq!(tier_from_probe(&p, false, false, Some("24bit")), RenderingCap::Truecolor);
    p.has_sixel = true;
    assert_eq!(tier_from_probe(&p, false, false, None), RenderingCap::Sixel);
    p.has_iterm2 = true;
    assert_eq!(tier_from_probe(&p, false, false, None), RenderingCap::Iterm2);
    assert_eq!(tier_from_probe(&p, false, true, None), RenderingCap::Sixel, "multiplexers stop at Sixel");
    p.has_kitty = true;
    assert_eq!(tier_from_probe(&p, true, false, None), RenderingCap::KittyK);
    assert_eq!(tier_from_probe(&p, false, false, None), RenderingCap::KittyO);
    assert_eq!(tier_from_probe(&p, true, true, None), RenderingCap::Sixel);
}

#[test]
fn cached_entry_needs_same_environment_and_fresh_save() {
    let hit = cached_entry("a|b", "a|b", 100, 100 + CACHE_TTL_SECS, RenderingCap::Sixel, Some(10), Some(20)).unwrap();
    assert_eq!(hit.cap, RenderingCap::Sixel);
    assert_eq!(hit.cell_px, Some((10, 20)));
    let half = cached_entry("k", "k", 5, 5, RenderingCap::C16, Some(10), None).unwrap();
    assert_eq!(half.cell_px, None);
    assert!(cached_entry("a|b", "a|c", 100, 100, RenderingCap::Sixel, None, None).is_none());
    assert!(cached_entry("k", "k", 100, 101 + CACHE_TTL_SECS, RenderingCap::Sixel, None, None).is_none());
}

#[test]
fn env_key_joins_values_with_bars() {
    let vals = vec!["xterm".to_string(), String::new(), "truecolor".to_string()];
    assert_eq!(env_key_from(&vals), "xterm||truecolor");
    assert_eq!(env_key_from(&[]), "");
    assert_eq!(env_key_from(&["solo".to_string()]), "solo");
}

#[test]
fn discovery_boot_id_must_match() {
    let d = pixel_agents_tui::daemon::discovery::DaemonDiscovery {
        socket_path: "/tmp/pixel-agents.sock".to_string(),
        token: "tok".to_string(),
        boot_id: "boot-1".to_string(),
        pid: 42,
        version: "0.1.0".to_string(),
        hook_port: None,
    };
    assert!(d.boot_matches("boot-1"));
    assert!(!d.boot_matches("boot-2"));
    assert!(!d.boot_matches("boot-"));
}

#[test]
fn activity_labels_follow_status() {
    assert_eq!(activity_label(&AgentStatus::Active("Bash".to_string())), "Bash");
    assert_eq!(activity_label(&AgentStatus::Active(String::new())), "Working");
    assert_eq!(activity_label(&AgentStatus::Waiting), "Needs approval");
    assert_eq!(activity_label(&AgentStatus::Exited), "Exited");
    assert_eq!(activity_label(&AgentStatus::Idle), "Idle");
}

#[test]
fn step_directions() {
    assert_eq!(direction_between(2, 2, 3, 2), Direction::Right);
    assert_eq!(direction_between(2, 2, 1, 2), Direction::Left);
    assert_eq!(direction_between(2, 2, 2, 3), Direction::Down);
    assert_eq!(direction_between(2, 2, 2, 1), Direction::Up);
    // A diagonal step faces sideways.
    assert_eq!(direction_between(2, 2, 3, 3), Direction::Right);
}

#[test]
fn paste_marker_rejoined_by_stripping_is_stripped_too() {
    // Removing the inner marker joins `ESC[20` and `1~` into a new one.
    assert_eq!(encode_paste("\x1b[20\x1b[201~1~", true), b"\x1b[200~\x1b[201~".to_vec());
    assert_eq!(encode_paste("a\x1b[20\x1b[201~1~b", true), b"\x1b[200~ab\x1b[201~".to_vec());
}

#[test]
fn connection_banner_and_office_caption() {
    assert_eq!(connect_banner(0, 12), "Connecting…");
    assert_eq!(connect_banner(3, 9), "Reconnecting… (attempt 3, 9s elapsed)");
    assert_eq!(office_caption(None, 1), " 1 agent ");
    assert_eq!(office_caption(None, 0), " 0 agents ");
    assert_eq!(office_caption(None, 12), " 12 agents ");
    assert_eq!(office_caption(Some("spawning…"), 4), " spawning… ");
}
