//! The tile tests behind a town NPC's daytime stroll: how deep the drop
//! ahead is, and whether the far side of a door is a place to stand.
//! The caller turns the NPC's position into tile coordinates.

use vstd::prelude::*;

use crate::world::World;

verus! {

/// An NPC turns around rather than walk off a drop deeper than this many
/// tiles.
pub const LEDGE_MAX_DROP: u32 = 3;

/// A body can stand on `(x, y)`: a solid tile or a platform.
pub open spec fn holds_feet(w: &World, x: int, y: int) -> bool {
    w.spec_is_solid(x, y) || (w.spec_in_bounds(x, y) && w.cell(x, y).id
        == crate::tiles::TileId::Platform)
}

/// How many tiles of drop lie under column `x` from row `feet_row` down:
/// the first `d` up to [`LEDGE_MAX_DROP`] whose cell `(x, feet_row + d)`
/// holds feet, or `LEDGE_MAX_DROP + 1` when none does.
pub fn drop_below(world: &World, x: i64, feet_row: i64) -> (d: u32)
    requires
        world.wf(),
        feet_row <= i64::MAX - LEDGE_MAX_DROP,
    ensures
        d <= LEDGE_MAX_DROP + 1,
        forall|k: int| 0 <= k < d ==> !#[trigger] holds_feet(world, x as int, feet_row + k),
        d <= LEDGE_MAX_DROP ==> holds_feet(world, x as int, feet_row + d),
{
    let mut d: u32 = 0;
    while d <= LEDGE_MAX_DROP
        invariant
            world.wf(),
            feet_row <= i64::MAX - LEDGE_MAX_DROP,
            d <= LEDGE_MAX_DROP + 1,
            forall|k: int| 0 <= k < d ==> !#[trigger] holds_feet(world, x as int, feet_row + k),
        decreases LEDGE_MAX_DROP + 1 - d,
    {
        let y: i64 = feet_row + d as i64;
        if world.is_solid(x, y) || world.is_platform(x, y) {
            return d;
        }
        d = d + 1;
    }
    d
}

/// The far side of a door, column `col` with feet in row `feet_row`, is a
/// place to stand: the three body rows from the feet up are not solid and
/// the row below the feet holds feet.
pub fn door_landing_clear(world: &World, col: i64, feet_row: i64) -> (r: bool)
    requires
        world.wf(),
        i64::MIN + 2 <= feet_row < i64::MAX,
    ensures
        r == ((forall|d: int| 0 <= d < 3 ==> !#[trigger] world.spec_is_solid(col as int, feet_row - d))
            && holds_feet(world, col as int, feet_row + 1)),
{
    let mut d: i64 = 0;
    while d < 3
        invariant
            world.wf(),
            i64::MIN + 2 <= feet_row < i64::MAX,
            0 <= d <= 3,
            forall|k: int| 0 <= k < d ==> !#[trigger] world.spec_is_solid(col as int, feet_row - k),
        decreases 3 - d,
    {
        if world.is_solid(col, feet_row - d) {
            return false;
        }
        d = d + 1;
    }
    world.is_solid(col, feet_row + 1) || world.is_platform(col, feet_row + 1)
}

} // verus!
