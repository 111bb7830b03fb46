//! Byte-exact encoders for the terminal graphics tiers and the sprite
//! transforms they draw.

pub mod b64;
pub mod kitty;
pub mod iterm2;
pub mod outline;
pub mod sixel;
pub mod scene;
pub mod bubbles;
pub mod char_sprites;
pub mod cells;
