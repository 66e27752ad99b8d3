//! Animation bits carried in NPC entity snapshots.

use vstd::prelude::*;

verus! {

pub const FACING_RIGHT: u8 = 1;

pub const WALKING: u8 = 2;

/// The state byte of an NPC snapshot: facing right, walking (which the
/// caller decides from the NPC's velocity).
pub fn npc_state_byte(facing_right: bool, walking: bool) -> (s: u8)
    ensures
        s == ((if facing_right { FACING_RIGHT } else { 0u8 }) | (if walking { WALKING } else { 0u8 })),
        s == (if facing_right { 1int } else { 0 }) + (if walking { 2int } else { 0 }),
{
    let a: u8 = if facing_right { FACING_RIGHT } else { 0 };
    let b: u8 = if walking { WALKING } else { 0 };
    assert((a | b) == a + b) by (bit_vector)
        requires
            a == 0 || a == 1,
            b == 0 || b == 2,
    ;
    a | b
}

} // verus!
