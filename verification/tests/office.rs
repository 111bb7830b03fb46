use std::collections::BTreeSet;

use pixel_agents_tui::office::catalog::{FurnitureCatalog, FurnitureCatalogEntry};
use pixel_agents_tui::office::layout::{get_blocked_tiles, layout_to_seats, PlacedItem, SeatMap};
use pixel_agents_tui::office::types::{Direction, Seat};

fn entry(id: &str, category: &str, w: i32, h: i32) -> FurnitureCatalogEntry {
    FurnitureCatalogEntry {
        id: id.into(),
        name: id.into(),
        category: category.into(),
        footprint_w: w,
        footprint_h: h,
        is_desk: false,
        can_place_on_walls: false,
        can_place_on_surfaces: false,
        background_tiles: 0,
        orientation: None,
        group_id: None,
        sprite_height: 16,
        state: None,
    }
}

fn grouped(id: &str, gid: &str, orientation: Option<&str>, state: Option<&str>) -> FurnitureCatalogEntry {
    let mut e = entry(id, "misc", 1, 1);
    e.group_id = Some(gid.into());
    e.orientation = orientation.map(|s| s.into());
    e.state = state.map(|s| s.into());
    e
}

fn item(uid: &str, type_id: &str, col: i32, row: i32) -> PlacedItem {
    PlacedItem { uid: uid.into(), type_id: type_id.into(), col, row }
}

fn seat(uid: &str) -> Seat {
    Seat { uid: uid.into(), seat_col: 0, seat_row: 0, facing_dir: Direction::Down, assigned: false }
}

fn seat_uids(m: &SeatMap) -> Vec<String> {
    m.as_slice().iter().map(|s| s.uid.clone()).collect()
}

// ── Catalog ─────────────────────────────────────────────────────────────────

#[test]
fn catalog_skips_empty_ids_and_later_entries_win() {
    let mut second = entry("desk", "desks", 3, 2);
    second.is_desk = true;
    let cat = FurnitureCatalog::from_entries(vec![entry("desk", "desks", 2, 1), entry("", "x", 1, 1), second, entry("b", "misc", 1, 1)]);
    assert_eq!(cat.ids(), vec!["b".to_string(), "desk".to_string()]);
    let d = cat.get("desk").unwrap();
    assert_eq!((d.footprint_w, d.footprint_h, d.is_desk), (3, 2, true));
    assert!(cat.get("").is_none());
    assert!(FurnitureCatalog::empty().get("desk").is_none());
}

#[test]
fn catalog_state_partners_within_orientation() {
    let cat = FurnitureCatalog::from_entries(vec![
        grouped("lamp_off", "lamp", Some("front"), Some("off")),
        grouped("lamp_on", "lamp", Some("front"), Some("on")),
        grouped("lamp_side", "lamp", Some("side"), None),
        grouped("tv", "tv", None, Some("on")),
    ]);
    assert_eq!(cat.get_on_state("lamp_off"), Some("lamp_on"));
    assert_eq!(cat.get_on_state("lamp_on"), Some("lamp_off"));
    assert_eq!(cat.get_on_state("lamp_side"), None);
    assert_eq!(cat.get_on_state("tv"), None);
    assert_eq!(cat.get_on_state("missing"), None);
}

#[test]
fn catalog_rotation_cycle_in_orientation_order() {
    let cat = FurnitureCatalog::from_entries(vec![
        grouped("chair_r", "chair", Some("right"), None),
        grouped("chair_b_on", "chair", Some("back"), Some("on")),
        grouped("chair_b", "chair", Some("back"), None),
        grouped("chair_f", "chair", Some("front"), None),
        grouped("plant", "plant", Some("front"), None),
        grouped("rug", "rug", None, None),
    ]);
    assert_eq!(
        cat.rotation_cycle("chair"),
        Some(vec!["chair_f".to_string(), "chair_b".to_string(), "chair_r".to_string()])
    );
    assert_eq!(cat.rotation_cycle("plant"), None, "one orientation is no cycle");
    assert_eq!(cat.rotation_cycle("rug"), None);
    assert_eq!(cat.rotation_cycle("nothing"), None);
}

// ── Layout ──────────────────────────────────────────────────────────────────

#[test]
fn blocked_tiles_skip_background_rows_and_unknown_types() {
    let mut shelf = entry("shelf", "storage", 2, 3);
    shelf.background_tiles = 1;
    let cat = FurnitureCatalog::from_entries(vec![shelf, entry("desk", "desks", 2, 1)]);
    let items = vec![item("a", "shelf", 1, 1), item("b", "ghost", 5, 5), item("c", "desk", 0, 0)];
    let blocked = get_blocked_tiles(&items, &cat, None);
    let expected: BTreeSet<(i32, i32)> = [(1, 2), (2, 2), (1, 3), (2, 3), (0, 0), (1, 0)].into_iter().collect();
    assert_eq!(blocked, expected);
    let exclude: BTreeSet<(i32, i32)> = [(1, 3), (0, 0), (9, 9)].into_iter().collect();
    let carved = get_blocked_tiles(&items, &cat, Some(&exclude));
    let expected2: BTreeSet<(i32, i32)> = [(1, 2), (2, 2), (2, 3), (1, 0)].into_iter().collect();
    assert_eq!(carved, expected2);
}

#[test]
fn seats_face_adjacent_desk_or_orientation() {
    let mut desk = entry("desk", "desks", 2, 1);
    desk.is_desk = true;
    let chair = entry("chair", "chairs", 1, 1);
    let mut bench = entry("bench", "chairs", 2, 2);
    bench.background_tiles = 1;
    bench.orientation = Some("left".into());
    let cat = FurnitureCatalog::from_entries(vec![desk, chair, bench]);
    let items = vec![
        item("d1", "desk", 3, 3),
        item("c1", "chair", 3, 4),
        item("c2", "chair", 0, 0),
        item("c3", "chair", 5, 3),
        item("b1", "bench", 8, 8),
    ];
    let seats = layout_to_seats(&items, &cat);
    assert_eq!(seat_uids(&seats), vec!["b1", "b1:1", "c1", "c2", "c3"]);
    let c1 = seats.get("c1").unwrap();
    assert_eq!((c1.seat_col, c1.seat_row, c1.facing_dir, c1.assigned), (3, 4, Direction::Up, false));
    assert_eq!(seats.get("c2").unwrap().facing_dir, Direction::Down);
    assert_eq!(seats.get("c3").unwrap().facing_dir, Direction::Left);
    let b = seats.get("b1:1").unwrap();
    assert_eq!((b.seat_col, b.seat_row, b.facing_dir), (9, 9, Direction::Left));
    assert_eq!(seats.get("b1").unwrap().seat_col, 8);
}

#[test]
fn seats_of_many_tiles_are_numbered_and_duplicates_replaced() {
    let mut sofa = entry("sofa", "chairs", 3, 1);
    sofa.orientation = Some("side".into());
    let cat = FurnitureCatalog::from_entries(vec![sofa]);
    let items = vec![item("s", "sofa", 0, 0), item("s", "sofa", 10, 10)];
    let seats = layout_to_seats(&items, &cat);
    assert_eq!(seat_uids(&seats), vec!["s", "s:1", "s:2"]);
    assert_eq!(seats.get("s:2").unwrap().seat_col, 12);
    assert_eq!(seats.get("s").unwrap().facing_dir, Direction::Right);
}

#[test]
fn reassign_keeps_free_seats_then_fills_in_uid_order() {
    let mut seats = SeatMap::new();
    for u in ["c", "a", "b"] {
        seats.insert(seat(u));
    }
    let wants = vec![Some("b".to_string()), None, Some("b".to_string()), Some("zz".to_string())];
    let got = seats.reassign(&wants);
    assert_eq!(got, vec![Some("b".to_string()), Some("a".to_string()), Some("c".to_string()), None]);
    assert!(seats.as_slice().iter().all(|s| s.assigned));
    let got2 = seats.reassign(&[None]);
    assert_eq!(got2, vec![Some("a".to_string())]);
    assert_eq!(seats.as_slice().iter().filter(|s| s.assigned).count(), 1);
}

#[test]
fn claim_prefers_free_seat_and_release_frees_it() {
    let mut seats = SeatMap::new();
    seats.insert(seat("b"));
    seats.insert(seat("a"));
    assert_eq!(seats.claim_seat(Some("b")), Some("b".to_string()));
    assert_eq!(seats.claim_seat(Some("b")), Some("a".to_string()));
    assert_eq!(seats.claim_seat(None), None);
    assert_eq!(seats.find_free_seat_uid(), None);
    seats.release_seat("b");
    seats.release_seat("nope");
    assert_eq!(seats.find_free_seat_uid(), Some("b".to_string()));
    assert_eq!(seats.claim_seat(Some("zz")), Some("b".to_string()));
}

// ── Roster ──────────────────────────────────────────────────────────────────

use pixel_agents_tui::office::roster::{least_used_palettes, nearest_free_tile, SubagentRegistry};

#[test]
fn pick_diverse_palette_first_six_unique() {
    let mut chars: Vec<(u8, bool)> = Vec::new();
    for k in 0..6usize {
        let (available, min_count) = least_used_palettes(&chars);
        assert_eq!(min_count, 0);
        let p = available[(k * 7) % available.len()];
        chars.push((p, false));
    }
    let mut ps: Vec<u8> = chars.iter().map(|c| c.0).collect();
    ps.sort();
    ps.dedup();
    assert_eq!(ps.len(), 6);
    let (available, min_count) = least_used_palettes(&chars);
    assert_eq!((available, min_count), (vec![0, 1, 2, 3, 4, 5], 1));
}

#[test]
fn least_used_ignores_subagents_and_bad_palettes() {
    let chars = vec![(0, false), (0, false), (1, false), (2, true), (9, false), (3, false), (4, false), (5, false), (2, false)];
    assert_eq!(least_used_palettes(&chars), (vec![1, 2, 3, 4, 5], 1));
    assert_eq!(least_used_palettes(&[]), (vec![0, 1, 2, 3, 4, 5], 0));
}

#[test]
fn nearest_free_tile_prefers_closest_then_first() {
    let walkable = vec![(0, 0), (5, 5), (2, 3), (3, 2), (9, 9)];
    let occupied: BTreeSet<(i32, i32)> = [(5, 5)].into_iter().collect();
    assert_eq!(nearest_free_tile(&walkable, &occupied, (4, 4)), Some((2, 3)));
    let all: BTreeSet<(i32, i32)> = walkable.iter().copied().collect();
    assert_eq!(nearest_free_tile(&walkable, &all, (4, 4)), None);
    assert_eq!(nearest_free_tile(&[], &occupied, (0, 0)), None);
}

#[test]
fn subagent_dedup() {
    let mut reg = SubagentRegistry::new();
    let (id1, new1) = reg.register(1, "tool-A");
    let (id2, new2) = reg.register(1, "tool-A");
    assert_eq!(id1, id2);
    assert!(new1 && !new2);
    assert_eq!(id1, -1);
}

#[test]
fn subagent_ids_count_down_and_unregister() {
    let mut reg = SubagentRegistry::new();
    assert_eq!(reg.register(1, "a").0, -1);
    assert_eq!(reg.register(1, "b").0, -2);
    assert_eq!(reg.register(2, "a").0, -3);
    assert_eq!(reg.get(1, "b"), Some(-2));
    assert_eq!(reg.unregister(1, "b"), Some(-2));
    assert_eq!(reg.get(1, "b"), None);
    assert_eq!(reg.unregister(1, "b"), None);
    assert_eq!(reg.get(2, "a"), Some(-3));
    assert_eq!(reg.register(1, "b").0, -4);
}
