//! Handshake and message types of the daemon protocol (version 1).
//!
//! These are the values the client sends and checks; their JSON form is
//! produced and read at the socket edge.

use vstd::prelude::*;

verus! {

pub const PROTO_VERSION: u32 = 1;
pub const CLIENT_VERSION: &'static str = "0.1.0";

/// Rendering tier the terminal supports, best first.
#[derive(Debug, Clone, Copy, PartialEq, Eq, Structural)]
pub enum RenderingCap {
    KittyK,
    KittyO,
    Iterm2,
    Sixel,
    Truecolor,
    C256,
    C16,
    Braille,
}

/// Terminal cell size in pixels.
#[derive(Debug, Clone, Copy, PartialEq, Eq, Structural)]
pub struct CellPx {
    pub w: u16,
    pub h: u16,
}

/// What the client tells the daemon about its terminal.
#[derive(Debug, Clone, Copy, PartialEq, Eq, Structural)]
pub struct ClientCapabilities {
    pub rendering: RenderingCap,
    pub cols: u16,
    pub rows: u16,
    pub cell_px: CellPx,
    pub bracketed_paste: bool,
    pub mouse: bool,
    pub sixel_cols: Option<u16>,
    pub sixel_rows: Option<u16>,
}

impl ClientCapabilities {
    /// Truecolor capabilities for a `cols × rows` terminal with 8×16 cells.
    pub fn stub(cols: u16, rows: u16) -> (c: Self)
        ensures
            c == (ClientCapabilities {
                rendering: RenderingCap::Truecolor,
                cols,
                rows,
                cell_px: CellPx { w: 8, h: 16 },
                bracketed_paste: true,
                mouse: true,
                sixel_cols: None,
                sixel_rows: None,
            }),
    {
        ClientCapabilities {
            rendering: RenderingCap::Truecolor,
            cols,
            rows,
            cell_px: CellPx { w: 8, h: 16 },
            bracketed_paste: true,
            mouse: true,
            sixel_cols: None,
            sixel_rows: None,
        }
    }
}

/// The first message on a connection.
#[derive(Debug)]
pub struct Hello {
    pub kind: &'static str,
    pub token: String,
    pub client_version: &'static str,
    pub proto_version: u32,
    pub capabilities: ClientCapabilities,
}

impl Hello {
    pub fn new(token: String, capabilities: ClientCapabilities) -> (h: Self)
        ensures
            h.kind@ == "hello"@,
            h.token@ == token@,
            h.client_version@ == CLIENT_VERSION@,
            h.proto_version == PROTO_VERSION,
            h.capabilities == capabilities,
    {
        Hello {
            kind: "hello",
            token,
            client_version: CLIENT_VERSION,
            proto_version: PROTO_VERSION,
            capabilities,
        }
    }
}

/// An RPC failure reported by the daemon.
#[derive(Debug)]
pub struct WireError {
    pub code: String,
    pub message: String,
}

/// A fatal protocol error reported by the daemon before it closes.
#[derive(Debug)]
pub struct Fatal {
    pub code: String,
    pub message: String,
}

} // verus!
