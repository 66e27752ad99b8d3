//! The integer rules of enemy spawning and death drops: town suppression
//! of the spawn cap, where an enemy may be placed, and the coins a kill
//! drops.

use vstd::prelude::*;

use crate::items::{InvSlot, ItemId};
use crate::world::World;

verus! {

/// Each town NPC within this many tiles of a player suppresses spawns
/// around them.
pub const TOWN_SUPPRESSION_RADIUS: u32 = 50;

/// Town suppression of a player's spawn cap `m`: three or more town NPCs
/// nearby stop hostile spawns, and each one nearby lowers the cap by 2;
/// a cap of 0 spawns nothing. `None`: no spawn this tick.
pub fn town_suppression(npcs_near: u32, m: u32) -> (r: Option<u32>)
    ensures
        r == if npcs_near >= 3 || m <= 2 * npcs_near {
            None::<u32>
        } else {
            Some((m - 2 * npcs_near) as u32)
        },
{
    if npcs_near >= 3 {
        return None;
    }
    let cut: u32 = 2 * npcs_near;
    let left: u32 = if m > cut { m - cut } else { 0 };
    if left == 0 {
        None
    } else {
        Some(left)
    }
}

/// An enemy may be placed at tile `(x, y)`: a grounded enemy needs a solid
/// tile there, at least two rows below the top, with 3x2 air above it; a
/// flier needs a 2x2 air pocket with `(x, y)` its top-left. Outside the
/// world counts as solid.
pub open spec fn spec_placement_ok(w: &World, grounded: bool, x: int, y: int) -> bool {
    if grounded {
        &&& w.spec_is_solid(x, y)
        &&& y >= 2
        &&& forall|cx: int, cy: int|
            x - 1 <= cx <= x + 1 && y - 2 <= cy <= y - 1 ==> !#[trigger] w.spec_is_solid(cx, cy)
    } else {
        forall|cx: int, cy: int| x <= cx <= x + 1 && y <= cy <= y + 1 ==> !#[trigger] w.spec_is_solid(cx, cy)
    }
}

/// Whether an enemy (grounded or flying) may be placed at tile `(x, y)`.
pub fn placement_ok(world: &World, grounded: bool, x: u32, y: u32) -> (r: bool)
    requires
        world.wf(),
    ensures
        r == spec_placement_ok(world, grounded, x as int, y as int),
{
    let xi: i64 = x as i64;
    let yi: i64 = y as i64;
    if grounded {
        if !world.is_solid(xi, yi) || y < 2 {
            return false;
        }
        let mut dy: i64 = 1;
        while dy <= 2
            invariant
                world.wf(),
                grounded,
                1 <= dy <= 3,
                xi == x,
                yi == y,
                forall|cx: int, cy: int|
                    x - 1 <= cx <= x + 1 && y - dy < cy <= y - 1 ==> !#[trigger] world.spec_is_solid(cx, cy),
            decreases 3 - dy,
        {
            let mut dx: i64 = -1;
            while dx <= 1
                invariant
                    world.wf(),
                    grounded,
                    1 <= dy <= 2,
                    -1 <= dx <= 2,
                    xi == x,
                    yi == y,
                    forall|cx: int, cy: int|
                        x - 1 <= cx <= x + 1 && y - dy < cy <= y - 1 ==> !#[trigger] world.spec_is_solid(cx, cy),
                    forall|cx: int| x - 1 <= cx < x + dx ==> !#[trigger] world.spec_is_solid(cx, y - dy),
                decreases 2 - dx,
            {
                if world.is_solid(xi + dx, yi - dy) {
                    assert(world.spec_is_solid(x as int + dx as int, y as int - dy as int));
                    return false;
                }
                dx = dx + 1;
            }
            dy = dy + 1;
        }
        true
    } else {
        let mut dy: i64 = 0;
        while dy < 2
            invariant
                world.wf(),
                !grounded,
                0 <= dy <= 2,
                xi == x,
                yi == y,
                forall|cx: int, cy: int|
                    x <= cx <= x + 1 && y <= cy < y + dy ==> !#[trigger] world.spec_is_solid(cx, cy),
            decreases 2 - dy,
        {
            let mut dx: i64 = 0;
            while dx < 2
                invariant
                    world.wf(),
                    !grounded,
                    0 <= dy < 2,
                    0 <= dx <= 2,
                    xi == x,
                    yi == y,
                    forall|cx: int, cy: int|
                        x <= cx <= x + 1 && y <= cy < y + dy ==> !#[trigger] world.spec_is_solid(cx, cy),
                    forall|cx: int| x <= cx < x + dx ==> !#[trigger] world.spec_is_solid(cx, y + dy),
                decreases 2 - dx,
            {
                if world.is_solid(xi + dx, yi + dy) {
                    assert(world.spec_is_solid(x as int + dx as int, y as int + dy as int));
                    return false;
                }
                dx = dx + 1;
            }
            dy = dy + 1;
        }
        true
    }
}

/// The coin drops for `value` copper: gold, silver and copper stacks in
/// the largest denominations, empty ones left out (platinum never drops).
/// Stack counts are `u16`, so a count past 65535 wraps.
pub fn coin_drops(value: u32) -> (drops: Vec<InvSlot>)
    ensures
        ({
            let gold = value / 10000;
            let silver = value % 10000 / 100;
            let copper = value % 100;
            drops@ == (if gold > 0 {
                seq![InvSlot { item: ItemId::GoldCoin, count: (gold % 65536) as u16 }]
            } else {
                Seq::empty()
            }) + (if silver > 0 {
                seq![InvSlot { item: ItemId::SilverCoin, count: silver as u16 }]
            } else {
                Seq::empty()
            }) + (if copper > 0 {
                seq![InvSlot { item: ItemId::CopperCoin, count: copper as u16 }]
            } else {
                Seq::empty()
            })
        }),
{
    let gold: u32 = value / crate::COPPER_PER_GOLD;
    let silver: u32 = (value % crate::COPPER_PER_GOLD) / crate::COPPER_PER_SILVER;
    let copper: u32 = value % crate::COPPER_PER_SILVER;
    let mut drops: Vec<InvSlot> = Vec::new();
    if gold > 0 {
        drops.push(InvSlot::new(ItemId::GoldCoin, (gold % 65536) as u16));
    }
    if silver > 0 {
        drops.push(InvSlot::new(ItemId::SilverCoin, silver as u16));
    }
    if copper > 0 {
        drops.push(InvSlot::new(ItemId::CopperCoin, copper as u16));
    }
    drops
}

} // verus!
