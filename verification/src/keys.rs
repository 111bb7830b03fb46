//! Keyboard and mouse input as the client sees it: key codes, modifier sets
//! and mouse reports, independent of the terminal library that read them.

use vstd::prelude::*;

verus! {

/// Shift, as a bit of a modifier set.
pub const MOD_SHIFT: u8 = 0x01;
/// Control, as a bit of a modifier set.
pub const MOD_CONTROL: u8 = 0x02;
/// Alt, as a bit of a modifier set.
pub const MOD_ALT: u8 = 0x04;
/// Super, as a bit of a modifier set.
pub const MOD_SUPER: u8 = 0x08;
/// Hyper, as a bit of a modifier set.
pub const MOD_HYPER: u8 = 0x10;
/// Meta, as a bit of a modifier set.
pub const MOD_META: u8 = 0x20;

/// The modifier keys held during an event, one bit per key (the `MOD_*`
/// constants).
#[derive(Debug, Clone, Copy, PartialEq, Eq, Hash, Structural)]
pub struct KeyMods {
    pub bits: u8,
}

/// Whether every bit of `flag` is set in `bits`.
pub open spec fn has_mods(bits: u8, flag: u8) -> bool {
    bits & flag == flag
}

impl KeyMods {
    /// No modifier held.
    pub fn none() -> (m: KeyMods)
        ensures
            m.bits == 0,
    {
        KeyMods { bits: 0 }
    }

    /// Shift alone.
    pub fn shift() -> (m: KeyMods)
        ensures
            m.bits == MOD_SHIFT,
    {
        KeyMods { bits: MOD_SHIFT }
    }

    /// Control alone.
    pub fn control() -> (m: KeyMods)
        ensures
            m.bits == MOD_CONTROL,
    {
        KeyMods { bits: MOD_CONTROL }
    }

    /// Alt alone.
    pub fn alt() -> (m: KeyMods)
        ensures
            m.bits == MOD_ALT,
    {
        KeyMods { bits: MOD_ALT }
    }

    /// The keys held in either set.
    pub fn union(self, other: KeyMods) -> (m: KeyMods)
        ensures
            m.bits == self.bits | other.bits,
    {
        KeyMods { bits: self.bits | other.bits }
    }

    /// Whether every key of `flag` is held.
    pub fn contains(self, flag: u8) -> (r: bool)
        ensures
            r == has_mods(self.bits, flag),
    {
        self.bits & flag == flag
    }
}

/// A key, as reported by the terminal.
#[derive(Debug, Clone, Copy, PartialEq, Eq, Hash, Structural)]
pub enum KeyCode {
    Backspace,
    Enter,
    Left,
    Right,
    Up,
    Down,
    Home,
    End,
    PageUp,
    PageDown,
    Tab,
    BackTab,
    Delete,
    Insert,
    /// A function key, by number.
    F(u8),
    Char(char),
    Esc,
    /// Any other key (media keys, lone modifiers, lock keys, ...).
    Other,
}

/// A mouse button.
#[derive(Debug, Clone, Copy, PartialEq, Eq, Hash, Structural)]
pub enum MouseButton {
    Left,
    Right,
    Middle,
}

/// What happened in a mouse event.
#[derive(Debug, Clone, Copy, PartialEq, Eq, Hash, Structural)]
pub enum MouseEventKind {
    Down(MouseButton),
    Up(MouseButton),
    Drag(MouseButton),
    Moved,
    ScrollDown,
    ScrollUp,
    ScrollLeft,
    ScrollRight,
}

/// A mouse event at a 0-based cell.
#[derive(Debug, Clone, Copy, PartialEq, Eq, Hash, Structural)]
pub struct MouseEvent {
    pub kind: MouseEventKind,
    pub column: u16,
    pub row: u16,
    pub modifiers: KeyMods,
}

} // verus!
