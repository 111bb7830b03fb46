//! Terminal capability decisions: the tier override, multiplexer demotion and
//! the capability record sent to the daemon.

pub mod cache;
pub mod probe;

use vstd::prelude::*;

use crate::daemon::{CellPx, ClientCapabilities, RenderingCap};
use crate::text::{lowercase, str_eq, to_lowercase};
use probe::ProbeResult;

verus! {

/// The capabilities announced for a `cols × rows` terminal at tier
/// `rendering`; the cell size defaults to 8×16 when unknown.
pub fn build_caps(cols: u16, rows: u16, rendering: RenderingCap, cell_px: Option<CellPx>) -> (c: ClientCapabilities)
    ensures
        c == (ClientCapabilities {
            rendering,
            cols,
            rows,
            cell_px: match cell_px {
                Some(px) => px,
                None => CellPx { w: 8, h: 16 },
            },
            bracketed_paste: true,
            mouse: true,
            sixel_cols: None,
            sixel_rows: None,
        }),
{
    ClientCapabilities {
        rendering,
        cols,
        rows,
        cell_px: match cell_px {
            Some(px) => px,
            None => CellPx { w: 8, h: 16 },
        },
        bracketed_paste: true,
        mouse: true,
        sixel_cols: None,
        sixel_rows: None,
    }
}

/// Inside a multiplexer pixel graphics above Sixel cannot pass through: the
/// Kitty and iTerm2 tiers drop to Sixel, the rest stay.
pub open spec fn at_most_sixel(cap: RenderingCap) -> RenderingCap {
    match cap {
        RenderingCap::KittyK | RenderingCap::KittyO | RenderingCap::Iterm2 => RenderingCap::Sixel,
        other => other,
    }
}

pub fn cap_at_most_sixel(cap: RenderingCap) -> (r: RenderingCap)
    ensures
        r == at_most_sixel(cap),
{
    match cap {
        RenderingCap::KittyK | RenderingCap::KittyO | RenderingCap::Iterm2 => RenderingCap::Sixel,
        other => other,
    }
}

/// Tiers drawn with text cells rather than a terminal graphics protocol.
pub open spec fn cell_tier(cap: RenderingCap) -> bool {
    cap is Truecolor || cap is C256 || cap is C16 || cap is Braille
}

pub fn is_cell_tier(cap: &RenderingCap) -> (r: bool)
    ensures
        r == cell_tier(*cap),
{
    matches!(cap, RenderingCap::Truecolor | RenderingCap::C256 | RenderingCap::C16 | RenderingCap::Braille)
}

/// A tier override value that names no tier (kept in lower case).
#[derive(Debug)]
pub struct UnknownTier {
    pub value: String,
}

/// The tier a lower-cased override value names, if any.
pub open spec fn tier_named(v: Seq<char>) -> Option<RenderingCap> {
    if v == "t1-k"@ || v == "kittyk"@ || v == "kitty-k"@ {
        Some(RenderingCap::KittyK)
    } else if v == "t1-o"@ || v == "kittyo"@ || v == "kitty-o"@ {
        Some(RenderingCap::KittyO)
    } else if v == "t2"@ || v == "iterm2"@ {
        Some(RenderingCap::Iterm2)
    } else if v == "t3"@ || v == "sixel"@ {
        Some(RenderingCap::Sixel)
    } else if v == "t4"@ || v == "truecolor"@ {
        Some(RenderingCap::Truecolor)
    } else if v == "t5"@ || v == "256"@ || v == "c256"@ {
        Some(RenderingCap::C256)
    } else if v == "t6"@ || v == "16"@ || v == "c16"@ {
        Some(RenderingCap::C16)
    } else if v == "t7"@ || v == "braille"@ {
        Some(RenderingCap::Braille)
    } else {
        None
    }
}

/// Read a tier override (tier number or name, any case).
pub fn parse_tier_override(s: &str) -> (r: Result<RenderingCap, UnknownTier>)
    ensures
        match tier_named(lowercase(s@)) {
            Some(cap) => r matches Ok(c) && c == cap,
            None => r matches Err(e) && e.value@ == lowercase(s@),
        },
{
    let lower = to_lowercase(s);
    let v = lower.as_str();
    if str_eq(v, "t1-k") || str_eq(v, "kittyk") || str_eq(v, "kitty-k") {
        Ok(RenderingCap::KittyK)
    } else if str_eq(v, "t1-o") || str_eq(v, "kittyo") || str_eq(v, "kitty-o") {
        Ok(RenderingCap::KittyO)
    } else if str_eq(v, "t2") || str_eq(v, "iterm2") {
        Ok(RenderingCap::Iterm2)
    } else if str_eq(v, "t3") || str_eq(v, "sixel") {
        Ok(RenderingCap::Sixel)
    } else if str_eq(v, "t4") || str_eq(v, "truecolor") {
        Ok(RenderingCap::Truecolor)
    } else if str_eq(v, "t5") || str_eq(v, "256") || str_eq(v, "c256") {
        Ok(RenderingCap::C256)
    } else if str_eq(v, "t6") || str_eq(v, "16") || str_eq(v, "c16") {
        Ok(RenderingCap::C16)
    } else if str_eq(v, "t7") || str_eq(v, "braille") {
        Ok(RenderingCap::Braille)
    } else {
        Err(UnknownTier { value: lower })
    }
}

/// The tier from `COLORTERM` alone: truecolor when it says `truecolor` or
/// `24bit`, else 256 colours.
pub open spec fn colorterm_tier(colorterm: Option<Seq<char>>) -> RenderingCap {
    match colorterm {
        Some(v) => if v == "truecolor"@ || v == "24bit"@ {
            RenderingCap::Truecolor
        } else {
            RenderingCap::C256
        },
        None => RenderingCap::C256,
    }
}

/// The tier to use when no terminal graphics protocol answered, from the
/// value of `COLORTERM` (if set).
pub fn colorterm_fallback(colorterm: Option<&str>) -> (r: RenderingCap)
    ensures
        r == colorterm_tier(match colorterm {
            Some(v) => Some(v@),
            None => None,
        }),
{
    match colorterm {
        Some(v) => if str_eq(v, "truecolor") || str_eq(v, "24bit") {
            RenderingCap::Truecolor
        } else {
            RenderingCap::C256
        },
        None => RenderingCap::C256,
    }
}

/// Whether the terminal is kitty itself (or ghostty), which hosts the Kitty
/// protocol natively: `KITTY_WINDOW_ID` is set, or `TERM_PROGRAM` is
/// `ghostty`, or `TERM` is `xterm-kitty`.
pub fn is_native_kitty(kitty_window_id_set: bool, term_program: Option<&str>, term: Option<&str>) -> (r: bool)
    ensures
        r == (kitty_window_id_set || (term_program matches Some(p) && p@ == "ghostty"@) || (term matches Some(t)
            && t@ == "xterm-kitty"@)),
{
    if kitty_window_id_set {
        return true;
    }
    let ghostty = match term_program {
        Some(p) => str_eq(p, "ghostty"),
        None => false,
    };
    let kitty_term = match term {
        Some(t) => str_eq(t, "xterm-kitty"),
        None => false,
    };
    ghostty || kitty_term
}

/// The tier a probe points to: Kitty (in kitty itself the native variant),
/// else iTerm2, else Sixel, else the colour fallback; inside a multiplexer
/// nothing above Sixel.
pub open spec fn probed_tier(kitty: bool, iterm2: bool, sixel: bool, native_kitty: bool, mux: bool, fallback: RenderingCap) -> RenderingCap {
    let detected = if kitty {
        if native_kitty { RenderingCap::KittyK } else { RenderingCap::KittyO }
    } else if iterm2 {
        RenderingCap::Iterm2
    } else if sixel {
        RenderingCap::Sixel
    } else {
        fallback
    };
    if mux { at_most_sixel(detected) } else { detected }
}

/// How the probe decides the tier: a Kitty reply gives Kitty (the native
/// variant in kitty itself), else an iTerm2 reply iTerm2, else a Sixel reply
/// Sixel, else the colour fallback; inside a multiplexer Kitty and iTerm2
/// become Sixel, and nothing else changes.
pub proof fn lemma_probed_tier_order(kitty: bool, iterm2: bool, sixel: bool, native_kitty: bool, mux: bool, fallback: RenderingCap)
    ensures
        ({
            let t = probed_tier(kitty, iterm2, sixel, native_kitty, mux, fallback);
            &&& kitty && !mux ==> t == (if native_kitty { RenderingCap::KittyK } else { RenderingCap::KittyO })
            &&& !kitty && iterm2 && !mux ==> t == RenderingCap::Iterm2
            &&& (kitty || iterm2) && mux ==> t == RenderingCap::Sixel
            &&& !kitty && !iterm2 && sixel ==> t == RenderingCap::Sixel
            &&& !kitty && !iterm2 && !sixel && !mux ==> t == fallback
            &&& !kitty && !iterm2 && !sixel && mux && !(fallback is KittyK || fallback is KittyO || fallback is Iterm2)
                ==> t == fallback
        }),
{
}

/// Decide the tier from the terminal's replies to the probe and the
/// environment: whether it is kitty itself, whether a multiplexer sits in
/// between, and `COLORTERM`.
pub fn tier_from_probe(probe: &ProbeResult, native_kitty: bool, mux: bool, colorterm: Option<&str>) -> (r: RenderingCap)
    ensures
        r == probed_tier(probe.has_kitty, probe.has_iterm2, probe.has_sixel, native_kitty, mux, colorterm_tier(
            match colorterm {
                Some(v) => Some(v@),
                None => None,
            },
        )),
{
    let detected = if probe.has_kitty {
        if native_kitty { RenderingCap::KittyK } else { RenderingCap::KittyO }
    } else if probe.has_iterm2 {
        RenderingCap::Iterm2
    } else if probe.has_sixel {
        RenderingCap::Sixel
    } else {
        colorterm_fallback(colorterm)
    };
    if mux { cap_at_most_sixel(detected) } else { detected }
}

} // verus!
