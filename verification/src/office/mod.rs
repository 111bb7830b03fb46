//! Office simulation data: tile grid, path finding and the integer parts of
//! the character model.

pub mod catalog;
pub mod layout;
pub mod roster;
pub mod characters;
pub mod tile_map;
pub mod types;
