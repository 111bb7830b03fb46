//! Client library for the Pixel Agents terminal front end: the daemon wire
//! protocol (framing and handshake types), focus and agent bookkeeping, the
//! office tile map and path finding, and the byte-exact encoders for the
//! terminal graphics tiers (Kitty, iTerm2, Sixel).

pub mod bytebuf;
pub mod daemon;
pub mod text;
pub mod keyed;
pub mod agents;
pub mod focus;
pub mod office;
pub mod caps;
pub mod render;
pub mod assets;
pub mod keys;
pub mod pty;
pub mod input_queue;
pub mod chrome;
pub mod keymap;
pub mod reconnect;
pub mod session;
