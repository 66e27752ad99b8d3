//! What a frame of mouse input asks the server for. The client only sends
//! intents (the server revalidates reach, use rate and placement rules);
//! these functions decide which intent, if any, the left and right buttons
//! send for the held item and the aimed cell. Polling the mouse, the use
//! and placement cooldowns and the reach test against the player's center
//! are the caller's: it hands in whether the aimed cell is in reach and
//! calls these only when the button and its cooldown allow.

use vstd::prelude::*;

use crate::items::{has_arrows, spec_is_arrow, InvSlot, ItemId};
use crate::items::carry_len;
use crate::tiles::{state, TileId, WallId};
use crate::world::World;

verus! {

/// The kind of a tool row.
#[derive(Debug, Clone, Copy, PartialEq, Eq, Structural)]
pub enum ToolKind {
    Pickaxe,
    Axe,
    Hammer,
}

/// The kind of a weapon row. Arrow rows are ammunition, not swung.
#[derive(Debug, Clone, Copy, PartialEq, Eq, Structural)]
pub enum WeaponKind {
    Melee,
    Bow,
    Arrow,
}

/// What a placeable item puts into the world.
#[derive(Debug, Clone, Copy, PartialEq, Eq, Structural)]
pub enum Placement {
    Tile(TileId),
    Wall(WallId),
}

/// The held item and the rows of its item data that the buttons read.
#[derive(Debug, Clone, Copy, PartialEq, Eq, Structural)]
pub struct HeldItem {
    pub item: ItemId,
    pub tool: Option<ToolKind>,
    pub weapon: Option<WeaponKind>,
    pub consumable: bool,
    pub places: Option<Placement>,
}

/// The left button's intent.
#[derive(Debug, Clone, Copy, PartialEq, Eq, Structural)]
pub enum PrimaryIntent {
    /// Mine the block at the cell.
    HitTile { x: u32, y: u32 },
    /// Hammer the wall at the cell.
    HitWall { x: u32, y: u32 },
    /// Use the held item toward the mouse: a swing, a bow shot (`bow`), a
    /// drink or a summon.
    UseItem { bow: bool },
    /// Send nothing.
    Idle,
}

/// The right button's intent.
#[derive(Debug, Clone, Copy, PartialEq, Eq, Structural)]
pub enum SecondaryIntent {
    ToggleDoor { x: u32, y: u32 },
    /// Open the chest whose origin cell is given.
    OpenChest { x: u32, y: u32 },
    /// Put the held bottle on the table or workbench (sent as a tile
    /// placement).
    PutBottle { x: u32, y: u32 },
    PlaceTile { x: u32, y: u32 },
    PlaceWall { x: u32, y: u32 },
    /// Send nothing.
    Idle,
}

/// The held item's weapon row when it is one that is swung or drawn (melee
/// or bow).
pub open spec fn swung_weapon(held: Option<HeldItem>) -> Option<WeaponKind> {
    match held {
        Some(h) => match h.weapon {
            Some(WeaponKind::Melee) => Some(WeaponKind::Melee),
            Some(WeaponKind::Bow) => Some(WeaponKind::Bow),
            _ => None,
        },
        None => None,
    }
}

/// The held item's tool row.
pub open spec fn held_tool(held: Option<HeldItem>) -> Option<ToolKind> {
    match held {
        Some(h) => h.tool,
        None => None,
    }
}

/// Some carry slot holds arrows.
pub open spec fn carries_arrows(slots: Seq<Option<InvSlot>>) -> bool {
    exists|i: int|
        0 <= i < carry_len(slots.len() as int) && #[trigger] slots[i] is Some && spec_is_arrow(
            slots[i]->Some_0.item,
        )
}

/// The left button's intent. A tool mines first: the block at an aimed
/// cell in reach, else, for a hammer, the wall behind an empty cell; an
/// item that is only a weapon never mines. Otherwise a swung weapon is
/// used (a bow only with arrows to shoot), and otherwise a consumable is
/// used.
pub open spec fn spec_primary_intent(
    world: World,
    held: Option<HeldItem>,
    arrows: bool,
    aim: Option<(u32, u32)>,
    in_reach: bool,
) -> PrimaryIntent {
    let tool = held_tool(held);
    let weapon = swung_weapon(held);
    let weapon_only = weapon is Some && tool is None;
    let mined = match aim {
        Some((x, y)) => {
            if !weapon_only && in_reach {
                let t = world.cell(x as int, y as int);
                if t.id != TileId::Air {
                    Some(PrimaryIntent::HitTile { x, y })
                } else if tool == Some(ToolKind::Hammer) && t.wall != WallId::Air {
                    Some(PrimaryIntent::HitWall { x, y })
                } else {
                    None
                }
            } else {
                None
            }
        },
        None => None,
    };
    match mined {
        Some(m) => m,
        None => match weapon {
            Some(w) => if w != WeaponKind::Bow || arrows {
                PrimaryIntent::UseItem { bow: w == WeaponKind::Bow }
            } else {
                PrimaryIntent::Idle
            },
            None => if held is Some && held->Some_0.consumable {
                PrimaryIntent::UseItem { bow: false }
            } else {
                PrimaryIntent::Idle
            },
        },
    }
}

/// The left button's intent for the held item, the carried slots (for a
/// bow's arrows), the aimed cell (`None`: the mouse is off the world) and
/// whether that cell is in reach.
pub fn primary_intent(
    world: &World,
    held: Option<HeldItem>,
    slots: &Vec<Option<InvSlot>>,
    aim: Option<(u32, u32)>,
    in_reach: bool,
) -> (r: PrimaryIntent)
    requires
        world.wf(),
        aim matches Some((x, y)) ==> world.spec_in_bounds(x as int, y as int),
    ensures
        r == spec_primary_intent(*world, held, carries_arrows(slots@), aim, in_reach),
{
    let tool = match held {
        Some(h) => h.tool,
        None => None,
    };
    let weapon = match held {
        Some(h) => match h.weapon {
            Some(WeaponKind::Melee) => Some(WeaponKind::Melee),
            Some(WeaponKind::Bow) => Some(WeaponKind::Bow),
            _ => None,
        },
        None => None,
    };
    let weapon_only = weapon.is_some() && tool.is_none();
    if let Some((x, y)) = aim {
        if !weapon_only && in_reach {
            let t = world.tile(x, y);
            let hammer = match tool {
                Some(ToolKind::Hammer) => true,
                _ => false,
            };
            if t.id != TileId::Air {
                return PrimaryIntent::HitTile { x, y };
            } else if hammer && t.wall != WallId::Air {
                return PrimaryIntent::HitWall { x, y };
            }
        }
    }
    match weapon {
        Some(w) => {
            let is_bow = match w {
                WeaponKind::Bow => true,
                _ => false,
            };
            if !is_bow || has_arrows(slots) {
                PrimaryIntent::UseItem { bow: is_bow }
            } else {
                PrimaryIntent::Idle
            }
        },
        None => match held {
            Some(h) => if h.consumable {
                PrimaryIntent::UseItem { bow: false }
            } else {
                PrimaryIntent::Idle
            },
            None => PrimaryIntent::Idle,
        },
    }
}

/// An item that is a swung weapon and no tool never mines: the left button
/// gives neither `HitTile` nor `HitWall`, whatever cell is aimed at.
pub proof fn lemma_weapon_only_never_mines(
    world: World,
    held: Option<HeldItem>,
    arrows: bool,
    aim: Option<(u32, u32)>,
    in_reach: bool,
)
    requires
        swung_weapon(held) is Some,
        held_tool(held) is None,
    ensures
        !(spec_primary_intent(world, held, arrows, aim, in_reach) is HitTile),
        !(spec_primary_intent(world, held, arrows, aim, in_reach) is HitWall),
{
}

/// A bow with no arrows in the carry slots is not drawn: unless its tool
/// row mines the aimed cell, the left button sends nothing.
pub proof fn lemma_bow_without_arrows_idles(
    world: World,
    held: Option<HeldItem>,
    aim: Option<(u32, u32)>,
    in_reach: bool,
)
    requires
        swung_weapon(held) == Some(WeaponKind::Bow),
    ensures
        !(spec_primary_intent(world, held, false, aim, in_reach) is UseItem),
{
}

/// What the left button's intents require of the held item and the aimed
/// cell. A block is hit only at the aimed cell, in reach, when that cell
/// holds a block and the item is not only a weapon; a wall is hit only
/// with a hammer, at the aimed cell in reach, when the cell is empty and
/// has a wall. A use is a bow shot exactly when the item's swung weapon is
/// a bow, needs arrows for it, and otherwise needs a melee weapon or a
/// consumable.
pub proof fn lemma_primary_intent_needs(
    world: World,
    held: Option<HeldItem>,
    arrows: bool,
    aim: Option<(u32, u32)>,
    in_reach: bool,
)
    ensures
        ({
            let r = spec_primary_intent(world, held, arrows, aim, in_reach);
            &&& (r matches PrimaryIntent::HitTile { x, y } ==> {
                &&& aim == Some((x, y))
                &&& in_reach
                &&& world.cell(x as int, y as int).id != TileId::Air
                &&& !(swung_weapon(held) is Some && held_tool(held) is None)
            })
            &&& (r matches PrimaryIntent::HitWall { x, y } ==> {
                &&& held_tool(held) == Some(ToolKind::Hammer)
                &&& aim == Some((x, y))
                &&& in_reach
                &&& world.cell(x as int, y as int).id == TileId::Air
                &&& world.cell(x as int, y as int).wall != WallId::Air
            })
            &&& (r matches PrimaryIntent::UseItem { bow } ==> {
                &&& bow == (swung_weapon(held) == Some(WeaponKind::Bow))
                &&& (bow ==> arrows)
                &&& (swung_weapon(held) is Some || (held is Some && held->Some_0.consumable))
            })
        }),
{
}

/// When the left button mines and when it uses. At an aimed cell in reach
/// holding a block, an item that is not only a weapon hits that block; at
/// an empty cell with a wall, a hammer hits the wall. With nothing to mine,
/// a melee weapon is swung, a bow is drawn when arrows are carried, a
/// consumable is used, and anything else sends nothing.
pub proof fn lemma_primary_intent_gives(
    world: World,
    held: Option<HeldItem>,
    arrows: bool,
    aim: Option<(u32, u32)>,
    in_reach: bool,
)
    ensures
        ({
            let r = spec_primary_intent(world, held, arrows, aim, in_reach);
            let mines = aim matches Some((x, y)) && in_reach && !(swung_weapon(held) is Some
                && held_tool(held) is None) && (world.cell(x as int, y as int).id != TileId::Air || (
            held_tool(held) == Some(ToolKind::Hammer) && world.cell(x as int, y as int).wall
                != WallId::Air));
            &&& (match aim {
                Some((x, y)) => {
                    &&& (in_reach && !(swung_weapon(held) is Some && held_tool(held) is None) && world.cell(
                        x as int,
                        y as int,
                    ).id != TileId::Air ==> r == PrimaryIntent::HitTile { x, y })
                    &&& (in_reach && held_tool(held) == Some(ToolKind::Hammer) && world.cell(x as int, y as int).id
                        == TileId::Air && world.cell(x as int, y as int).wall != WallId::Air ==> r
                        == PrimaryIntent::HitWall { x, y })
                },
                None => true,
            })
            &&& (!mines && swung_weapon(held) == Some(WeaponKind::Melee) ==> r == PrimaryIntent::UseItem { bow: false })
            &&& (!mines && swung_weapon(held) == Some(WeaponKind::Bow) ==> r == (if arrows {
                PrimaryIntent::UseItem { bow: true }
            } else {
                PrimaryIntent::Idle
            }))
            &&& (!mines && swung_weapon(held) is None ==> r == (if held is Some && held->Some_0.consumable {
                PrimaryIntent::UseItem { bow: false }
            } else {
                PrimaryIntent::Idle
            }))
        }),
{
}

/// The right button's intent at an aimed cell in reach. On a press: a door
/// toggles, a chest opens (at its origin cell), and a held bottle goes onto
/// a table or workbench that has none. Otherwise, while held: the held
/// placeable goes into an empty cell (a block) or an empty wall.
pub open spec fn spec_secondary_intent(
    world: World,
    held: Option<HeldItem>,
    x: u32,
    y: u32,
    pressed: bool,
    held_down: bool,
) -> SecondaryIntent {
    let t = world.cell(x as int, y as int);
    if pressed && t.id == TileId::Door {
        SecondaryIntent::ToggleDoor { x, y }
    } else if pressed && t.id == TileId::Chest {
        let o = world.spec_origin(x as int, y as int);
        SecondaryIntent::OpenChest { x: o.0, y: o.1 }
    } else if pressed && (t.id == TileId::Table || t.id == TileId::Workbench) && held is Some
        && held->Some_0.item == ItemId::Bottle && t.state & state::BOTTLE_ON_TOP == 0 {
        SecondaryIntent::PutBottle { x, y }
    } else if held_down && held is Some {
        match held->Some_0.places {
            Some(Placement::Tile(_)) => if t.id == TileId::Air {
                SecondaryIntent::PlaceTile { x, y }
            } else {
                SecondaryIntent::Idle
            },
            Some(Placement::Wall(_)) => if t.wall == WallId::Air {
                SecondaryIntent::PlaceWall { x, y }
            } else {
                SecondaryIntent::Idle
            },
            None => SecondaryIntent::Idle,
        }
    } else {
        SecondaryIntent::Idle
    }
}

/// What the right button's intents at an aimed cell in reach require and
/// when they come. A press on a door toggles that door and a press on a
/// chest opens it at its origin; a press with a bottle on a table or
/// workbench without one puts the bottle there. A block is placed only
/// while the button is held, into an empty cell, by an item that places
/// blocks; a wall likewise into a cell without a wall. Neither button
/// state gives anything else.
pub proof fn lemma_secondary_intent_laws(
    world: World,
    held: Option<HeldItem>,
    x: u32,
    y: u32,
    pressed: bool,
    held_down: bool,
)
    ensures
        ({
            let r = spec_secondary_intent(world, held, x, y, pressed, held_down);
            let t = world.cell(x as int, y as int);
            let bottle = held is Some && held->Some_0.item == ItemId::Bottle;
            let places_block = held is Some && held->Some_0.places is Some && held->Some_0.places->Some_0 is Tile;
            let places_wall = held is Some && held->Some_0.places is Some && held->Some_0.places->Some_0 is Wall;
            &&& (pressed && t.id == TileId::Door ==> r == SecondaryIntent::ToggleDoor { x, y })
            &&& (pressed && t.id == TileId::Chest ==> r == (SecondaryIntent::OpenChest {
                x: world.spec_origin(x as int, y as int).0,
                y: world.spec_origin(x as int, y as int).1,
            }))
            &&& (pressed && bottle && (t.id == TileId::Table || t.id == TileId::Workbench) && t.state
                & state::BOTTLE_ON_TOP == 0 ==> r == SecondaryIntent::PutBottle { x, y })
            &&& (r is ToggleDoor ==> pressed && t.id == TileId::Door && r == SecondaryIntent::ToggleDoor { x, y })
            &&& (r is OpenChest ==> pressed && t.id == TileId::Chest)
            &&& (r is PutBottle ==> pressed && bottle && (t.id == TileId::Table || t.id == TileId::Workbench)
                && t.state & state::BOTTLE_ON_TOP == 0 && r == SecondaryIntent::PutBottle { x, y })
            &&& (r is PlaceTile ==> held_down && t.id == TileId::Air && places_block
                && r == SecondaryIntent::PlaceTile { x, y })
            &&& (r is PlaceWall ==> held_down && t.wall == WallId::Air && places_wall
                && r == SecondaryIntent::PlaceWall { x, y })
            &&& (!pressed && !held_down ==> r == SecondaryIntent::Idle)
            &&& (held_down && t.id == TileId::Air && places_block ==> r == SecondaryIntent::PlaceTile { x, y })
        }),
{
}

/// The right button's intent: `pressed` when it went down this frame,
/// `held_down` when it is down and the placement repeat allows. Nothing is
/// sent without an aimed cell in reach.
pub fn secondary_intent(
    world: &World,
    held: Option<HeldItem>,
    aim: Option<(u32, u32)>,
    in_reach: bool,
    pressed: bool,
    held_down: bool,
) -> (r: SecondaryIntent)
    requires
        world.wf(),
        aim matches Some((x, y)) ==> world.spec_in_bounds(x as int, y as int),
    ensures
        r == (match aim {
            Some((x, y)) => if in_reach {
                spec_secondary_intent(*world, held, x, y, pressed, held_down)
            } else {
                SecondaryIntent::Idle
            },
            None => SecondaryIntent::Idle,
        }),
{
    let (x, y) = match aim {
        Some(a) => a,
        None => {
            return SecondaryIntent::Idle;
        },
    };
    if !in_reach {
        return SecondaryIntent::Idle;
    }
    let t = world.tile(x, y);
    if pressed {
        match t.id {
            TileId::Door => {
                return SecondaryIntent::ToggleDoor { x, y };
            },
            TileId::Chest => {
                let (ox, oy) = world.multitile_origin(x, y);
                return SecondaryIntent::OpenChest { x: ox, y: oy };
            },
            TileId::Table | TileId::Workbench => {
                let bottle = match held {
                    Some(h) => match h.item {
                        ItemId::Bottle => true,
                        _ => false,
                    },
                    None => false,
                };
                if bottle && t.state & state::BOTTLE_ON_TOP == 0 {
                    return SecondaryIntent::PutBottle { x, y };
                }
            },
            _ => {},
        }
    }
    if held_down {
        if let Some(h) = held {
            return match h.places {
                Some(Placement::Tile(_)) => if t.id == TileId::Air {
                    SecondaryIntent::PlaceTile { x, y }
                } else {
                    SecondaryIntent::Idle
                },
                Some(Placement::Wall(_)) => if t.wall == WallId::Air {
                    SecondaryIntent::PlaceWall { x, y }
                } else {
                    SecondaryIntent::Idle
                },
                None => SecondaryIntent::Idle,
            };
        }
    }
    SecondaryIntent::Idle
}

} // verus!
