//! Bits of a tile's state byte.

use vstd::prelude::*;

verus! {

/// Door tiles: set while the door stands open.
pub const DOOR_OPEN: u8 = 0x80;

/// Table and workbench tiles: set while a bottle stands on top (the bottle
/// crafting station).
pub const BOTTLE_ON_TOP: u8 = 0x40;

/// Multi-tile part encoding: column in bits 0..3, row in bits 3..6.
pub fn part(col: u8, row: u8) -> (s: u8)
    requires
        col < 8,
        row < 8,
    ensures
        s == col + 8 * row,
        s < 64,
{
    col + 8 * row
}

/// Column of a multi-tile part within its footprint.
pub fn part_col(state: u8) -> (c: u8)
    ensures
        c == state % 8,
{
    state % 8
}

/// Row of a multi-tile part within its footprint.
pub fn part_row(state: u8) -> (r: u8)
    ensures
        r == (state % 64) / 8,
{
    (state % 64) / 8
}

} // verus!
