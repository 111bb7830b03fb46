//! Tool classification and step directions used by the character
//! animation.

use vstd::prelude::*;

use crate::office::types::Direction;
use crate::text::str_eq;

verus! {

/// Whether a tool only reads (drives the reading rather than typing pose):
/// Read, Grep, Glob, WebFetch and WebSearch.
pub open spec fn reading_tool(tool: Seq<char>) -> bool {
    tool == "Read"@ || tool == "Grep"@ || tool == "Glob"@ || tool == "WebFetch"@ || tool == "WebSearch"@
}

pub fn is_reading_tool(tool: &str) -> (r: bool)
    ensures
        r == reading_tool(tool@),
{
    str_eq(tool, "Read") || str_eq(tool, "Grep") || str_eq(tool, "Glob") || str_eq(tool, "WebFetch")
        || str_eq(tool, "WebSearch")
}

/// The direction of a step from one tile to the next: horizontal moves
/// win; a move that is not horizontal faces down when it goes down, else up.
pub open spec fn step_direction(from_col: int, from_row: int, to_col: int, to_row: int) -> Direction {
    if to_col > from_col {
        Direction::Right
    } else if to_col < from_col {
        Direction::Left
    } else if to_row > from_row {
        Direction::Down
    } else {
        Direction::Up
    }
}

/// A character faces the way it steps: a step to the right faces right,
/// to the left faces left; a purely vertical step faces down when it goes
/// down and up when it goes up.
pub proof fn lemma_step_faces_move(from_col: int, from_row: int, to_col: int, to_row: int)
    ensures
        to_col > from_col ==> step_direction(from_col, from_row, to_col, to_row) == Direction::Right,
        to_col < from_col ==> step_direction(from_col, from_row, to_col, to_row) == Direction::Left,
        to_col == from_col && to_row > from_row ==> step_direction(from_col, from_row, to_col, to_row) == Direction::Down,
        to_col == from_col && to_row < from_row ==> step_direction(from_col, from_row, to_col, to_row) == Direction::Up,
{
}

pub fn direction_between(from_col: i32, from_row: i32, to_col: i32, to_row: i32) -> (d: Direction)
    ensures
        d == step_direction(from_col as int, from_row as int, to_col as int, to_row as int),
{
    if to_col > from_col {
        Direction::Right
    } else if to_col < from_col {
        Direction::Left
    } else if to_row > from_row {
        Direction::Down
    } else {
        Direction::Up
    }
}

} // verus!
