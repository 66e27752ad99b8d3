//! Animation flag bits carried in player state messages.

use vstd::prelude::*;

verus! {

/// Currently swinging/using the held item.
pub const USING_ITEM: u8 = 1;

/// Standing on ground (false while airborne).
pub const GROUNDED: u8 = 2;

/// Submerged / swim animation.
pub const IN_LIQUID: u8 = 4;

/// The animation flags of the local player: grounded, and swimming
/// (submerged, not merely wading).
pub fn player_anim_flags(on_ground: bool, swimming: bool) -> (f: u8)
    ensures
        f == ((if on_ground { GROUNDED } else { 0u8 }) | (if swimming { IN_LIQUID } else { 0u8 })),
        f == (if on_ground { 2int } else { 0 }) + (if swimming { 4int } else { 0 }),
{
    let a: u8 = if on_ground { GROUNDED } else { 0 };
    let b: u8 = if swimming { IN_LIQUID } else { 0 };
    assert((a | b) == a + b) by (bit_vector)
        requires
            a == 0 || a == 2,
            b == 0 || b == 4,
    ;
    a | b
}

} // verus!
