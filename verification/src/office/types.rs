//! Shared office types and integer simulation constants.

use vstd::prelude::*;

verus! {

pub const TILE_SIZE: i32 = 16;
pub const WANDER_MOVES_BEFORE_REST_MIN: i32 = 3;
pub const WANDER_MOVES_BEFORE_REST_MAX: i32 = 6;
pub const HUE_SHIFT_MIN_DEG: i32 = 45;
pub const HUE_SHIFT_RANGE_DEG: i32 = 271;
pub const AUTO_ON_FACING_DEPTH: i32 = 3;
pub const AUTO_ON_SIDE_DEPTH: i32 = 2;
pub const CHARACTER_HIT_HALF_WIDTH: i32 = 8;
pub const CHARACTER_HIT_HEIGHT: i32 = 24;
pub const CHARACTER_SITTING_OFFSET_PX: i32 = 6;
pub const MATRIX_SPRITE_COLS: usize = 16;
pub const NUM_PALETTES: usize = 6;

/// Kind of a floor-plan tile.
#[derive(Debug, Clone, Copy, PartialEq, Eq, Structural)]
pub enum TileType {
    Wall,
    Floor1,
    Floor2,
    Floor3,
    Floor4,
    Floor5,
    Floor6,
    Floor7,
    Floor8,
    Floor9,
    Void,
}

/// The tile a wire byte stands for: 0 is a wall, 1..=9 the floor styles, any
/// other value void.
pub open spec fn tile_of_byte(v: u8) -> TileType {
    if v == 0 {
        TileType::Wall
    } else if v == 1 {
        TileType::Floor1
    } else if v == 2 {
        TileType::Floor2
    } else if v == 3 {
        TileType::Floor3
    } else if v == 4 {
        TileType::Floor4
    } else if v == 5 {
        TileType::Floor5
    } else if v == 6 {
        TileType::Floor6
    } else if v == 7 {
        TileType::Floor7
    } else if v == 8 {
        TileType::Floor8
    } else if v == 9 {
        TileType::Floor9
    } else {
        TileType::Void
    }
}

/// The wire byte of a tile: 0 for a wall, 1..=9 for the floor styles, 255
/// for void.
pub open spec fn tile_byte(t: TileType) -> u8 {
    match t {
        TileType::Wall => 0,
        TileType::Floor1 => 1,
        TileType::Floor2 => 2,
        TileType::Floor3 => 3,
        TileType::Floor4 => 4,
        TileType::Floor5 => 5,
        TileType::Floor6 => 6,
        TileType::Floor7 => 7,
        TileType::Floor8 => 8,
        TileType::Floor9 => 9,
        TileType::Void => 255,
    }
}

/// A tile's byte reads back as the same tile.
pub proof fn lemma_tile_byte_roundtrip(t: TileType)
    ensures
        tile_of_byte(tile_byte(t)) == t,
{
}

/// Floor tiles are every kind but wall and void.
pub open spec fn tile_is_floor(t: TileType) -> bool {
    !(t is Wall) && !(t is Void)
}

impl TileType {
    pub fn from_u8(v: u8) -> (t: Self)
        ensures
            t == tile_of_byte(v),
    {
        match v {
            0 => TileType::Wall,
            1 => TileType::Floor1,
            2 => TileType::Floor2,
            3 => TileType::Floor3,
            4 => TileType::Floor4,
            5 => TileType::Floor5,
            6 => TileType::Floor6,
            7 => TileType::Floor7,
            8 => TileType::Floor8,
            9 => TileType::Floor9,
            _ => TileType::Void,
        }
    }

    /// The wire byte of a tile: 0 for a wall, 1..=9 for the floor styles,
    /// 255 for void.
    pub fn to_u8(self) -> (v: u8)
        ensures
            v == tile_byte(self),
    {
        match self {
            TileType::Wall => 0,
            TileType::Floor1 => 1,
            TileType::Floor2 => 2,
            TileType::Floor3 => 3,
            TileType::Floor4 => 4,
            TileType::Floor5 => 5,
            TileType::Floor6 => 6,
            TileType::Floor7 => 7,
            TileType::Floor8 => 8,
            TileType::Floor9 => 9,
            TileType::Void => 255,
        }
    }

    pub fn is_floor(self) -> (r: bool)
        ensures
            r == tile_is_floor(self),
    {
        !matches!(self, TileType::Wall | TileType::Void)
    }
}

#[derive(Debug, Clone, Copy, PartialEq, Eq, Structural)]
pub enum Direction {
    Down,
    Left,
    Right,
    Up,
}

#[derive(Debug, Clone, Copy, PartialEq, Eq, Structural)]
pub enum CharacterState {
    Idle,
    Walk,
    Type,
}

#[derive(Debug, Clone, Copy, PartialEq, Eq, Structural)]
pub enum BubbleType {
    Permission,
    Waiting,
}

#[derive(Debug, Clone, Copy, PartialEq, Eq, Structural)]
pub enum MatrixEffectKind {
    Spawn,
    Despawn,
}

/// A seat derived from a chair's footprint.
#[derive(Debug, Clone)]
pub struct Seat {
    pub uid: String,
    pub seat_col: i32,
    pub seat_row: i32,
    pub facing_dir: Direction,
    pub assigned: bool,
}

/// Seed of an agent's wander generator: the world seed XOR the agent id's bit
/// pattern, so every client sharing the world seed moves that agent alike.
pub fn agent_rng_seed(world_seed: u32, agent_id: i32) -> (r: u64)
    ensures
        r == (world_seed ^ (agent_id as u32)) as u64,
{
    (world_seed ^ (agent_id as u32)) as u64
}

} // verus!
