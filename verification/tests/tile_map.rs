use std::collections::BTreeSet;

use pixel_agents_tui::office::tile_map::{find_path, get_walkable_tiles, is_walkable, TileMap};
use pixel_agents_tui::office::types::TileType;

fn simple_map() -> TileMap {
    let mut tiles = vec![TileType::Floor1; 25];
    for col in 0..5 {
        tiles[col] = TileType::Wall;
        tiles[4 * 5 + col] = TileType::Wall;
    }
    for row in 0..5 {
        tiles[row * 5] = TileType::Wall;
        tiles[row * 5 + 4] = TileType::Wall;
    }
    TileMap::new(5, 5, tiles)
}

#[test]
fn same_start_end_returns_empty() {
    let m = simple_map();
    let b = BTreeSet::new();
    assert!(find_path(2, 2, 2, 2, &m, &b).is_empty());
}

#[test]
fn unreachable_returns_empty() {
    let m = simple_map();
    let b = BTreeSet::new();
    assert!(find_path(1, 1, 0, 0, &m, &b).is_empty());
}

#[test]
fn straight_path() {
    let m = simple_map();
    let b = BTreeSet::new();
    let path = find_path(1, 1, 3, 1, &m, &b);
    assert!(!path.is_empty());
    assert_eq!(*path.last().unwrap(), (3, 1));
}

#[test]
fn blocked_tile_avoided() {
    let m = simple_map();
    let mut b = BTreeSet::new();
    b.insert((2, 1));
    let path = find_path(1, 1, 3, 1, &m, &b);
    assert!(!path.is_empty());
    assert!(!path.contains(&(2, 1)));
}

#[test]
fn is_walkable_wall_false() {
    let m = simple_map();
    let b = BTreeSet::new();
    assert!(!is_walkable(0, 0, &m, &b));
}

#[test]
fn is_walkable_floor_true() {
    let m = simple_map();
    let b = BTreeSet::new();
    assert!(is_walkable(2, 2, &m, &b));
}

#[test]
fn path_steps_are_adjacent_walkable_tiles() {
    let m = simple_map();
    let mut b = BTreeSet::new();
    b.insert((2, 2));
    let path = find_path(1, 1, 3, 3, &m, &b);
    assert!(!path.is_empty());
    let mut prev = (1, 1);
    for &(c, r) in &path {
        assert_eq!((c - prev.0).abs() + (r - prev.1).abs(), 1);
        assert!(is_walkable(c, r, &m, &b));
        prev = (c, r);
    }
    assert_eq!(prev, (3, 3));
}

#[test]
fn walkable_tiles_are_the_inner_floor_in_row_order() {
    let m = simple_map();
    let mut b = BTreeSet::new();
    b.insert((2, 2));
    let tiles = get_walkable_tiles(&m, &b);
    assert_eq!(tiles, vec![(1, 1), (2, 1), (3, 1), (1, 2), (3, 2), (1, 3), (2, 3), (3, 3)]);
}

#[test]
fn tile_at_outside_is_void() {
    let m = simple_map();
    assert_eq!(m.tile_at(-1, 0), TileType::Void);
    assert_eq!(m.tile_at(0, 5), TileType::Void);
    assert_eq!(m.tile_at(1, 1), TileType::Floor1);
    assert_eq!(TileType::from_u8(0), TileType::Wall);
    assert_eq!(TileType::from_u8(3), TileType::Floor3);
    assert_eq!(TileType::from_u8(200), TileType::Void);
    assert!(TileType::Floor9.is_floor());
    assert!(!TileType::Wall.is_floor());
}

#[test]
fn routes_are_shortest() {
    let m = simple_map();
    let mut b = BTreeSet::new();
    assert_eq!(find_path(1, 1, 3, 1, &m, &b).len(), 2);
    assert_eq!(find_path(1, 1, 3, 3, &m, &b).len(), 4);
    b.insert((2, 1));
    // The detour through row 2 takes four steps.
    assert_eq!(find_path(1, 1, 3, 1, &m, &b).len(), 4);
}

#[test]
fn negative_dimensions_make_an_empty_grid() {
    let m = TileMap::new(-3, 4, vec![TileType::Floor1; 4]);
    let b = BTreeSet::new();
    assert_eq!(m.tile_at(0, 0), TileType::Void);
    assert!(!is_walkable(0, 0, &m, &b));
    assert!(get_walkable_tiles(&m, &b).is_empty());
    assert!(find_path(0, 0, 1, 1, &m, &b).is_empty());
}

#[test]
fn tile_bytes_round_trip() {
    assert_eq!(TileType::Wall.to_u8(), 0);
    assert_eq!(TileType::Floor1.to_u8(), 1);
    assert_eq!(TileType::Floor9.to_u8(), 9);
    assert_eq!(TileType::Void.to_u8(), 255);
    for v in [0u8, 1, 5, 9, 255] {
        assert_eq!(TileType::from_u8(v).to_u8(), v);
    }
    assert_eq!(TileType::from_u8(42), TileType::Void);
}
