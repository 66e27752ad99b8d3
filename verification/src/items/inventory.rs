//! Flat inventory layout.

use vstd::prelude::*;

verus! {

/// Hotbar slots (indices `0..HOTBAR`).
pub const HOTBAR: usize = 10;

/// First armor slot; `0..ARMOR_START` are the carry slots.
pub const ARMOR_START: usize = 50;

/// First accessory slot.
pub const ACCESSORY_START: usize = 53;

/// The trash slot.
pub const TRASH: usize = 58;

/// Total number of inventory slots.
pub const TOTAL: usize = 59;

} // verus!
