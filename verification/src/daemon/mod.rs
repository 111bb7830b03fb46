//! The daemon connection's pure parts: the discovery record, wire framing
//! and message types.

pub mod discovery;
pub mod framing;
pub mod wire;

pub use wire::{CellPx, ClientCapabilities, RenderingCap};
