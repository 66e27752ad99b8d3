//! Tile data: ids, walls, liquids, solidity, light emission and the
//! lighting constants.

pub mod state;

use vstd::prelude::*;

verus! {

/// Per-tile light levels run 0..=LIGHT_MAX.
pub const LIGHT_MAX: u8 = 32;

/// Light lost per step into a non-solid cell.
pub const LIGHT_ATTEN_AIR: u8 = 2;

/// Light lost per step into a solid cell.
pub const LIGHT_ATTEN_SOLID: u8 = 6;

/// Sky light at full day and at full night.
pub const SKY_LIGHT_DAY: u8 = 32;

pub const SKY_LIGHT_NIGHT: u8 = 8;

/// Length of the dawn/dusk sky-light ramps, in ticks (30 in-game minutes).
pub const SKY_LIGHT_RAMP_TICKS: u32 = 1800;

/// Light of a lava cell.
pub const LAVA_LIGHT: u8 = 18;

/// Ambient glow around every player.
pub const PLAYER_GLOW: u8 = 4;

/// Mining Helmet light at the wearer's head.
pub const MINING_HELMET_LIGHT: u8 = 20;

/// Fullest liquid level of a cell.
pub const LIQUID_MAX_LEVEL: u8 = 8;

#[derive(Debug, Clone, Copy, PartialEq, Eq, Structural)]
pub enum TileId {
    Air,
    Dirt,
    Stone,
    Sand,
    WoodBlock,
    Hellstone,
    Obsidian,
    Platform,
    Door,
    Torch,
    Furnace,
    Table,
    Workbench,
    Chair,
    Bed,
    Chest,
}

#[derive(Debug, Clone, Copy, PartialEq, Eq, Structural)]
pub enum WallId {
    Air,
    Wood,
    Stone,
    Dirt,
}

#[derive(Debug, Clone, Copy, PartialEq, Eq, Structural)]
pub enum LiquidKind {
    Water,
    Lava,
}

/// The liquid in a cell: a kind and a level (`None` = dry).
#[derive(Debug, Clone, Copy, PartialEq, Eq, Structural)]
pub struct Liquid {
    pub kind: Option<LiquidKind>,
    pub level: u8,
}

impl Liquid {
    pub fn new(kind: LiquidKind, level: u8) -> (l: Liquid)
        ensures
            l.kind == Some(kind),
            l.level == level,
    {
        Liquid { kind: Some(kind), level }
    }

    pub fn none() -> (l: Liquid)
        ensures
            l.kind is None,
            l.level == 0,
    {
        Liquid { kind: None, level: 0 }
    }

    pub fn kind(&self) -> (k: Option<LiquidKind>)
        ensures
            k == self.kind,
    {
        self.kind
    }
}

/// Block tiles are solid; furniture, torches and platforms are not.
pub open spec fn spec_id_solid(id: TileId) -> bool {
    match id {
        TileId::Dirt | TileId::Stone | TileId::Sand | TileId::WoodBlock | TileId::Hellstone
        | TileId::Obsidian | TileId::Door => true,
        _ => false,
    }
}

/// Light a tile of `id` emits.
pub open spec fn spec_id_light(id: TileId) -> u8 {
    match id {
        TileId::Torch => 28,
        TileId::Furnace => 20,
        _ => 0,
    }
}

/// Footprint `(width, height)` of a tile kind.
pub open spec fn spec_size(id: TileId) -> (u8, u8) {
    match id {
        TileId::Door => (1, 3),
        TileId::Furnace => (3, 2),
        TileId::Table => (3, 2),
        TileId::Workbench => (2, 1),
        TileId::Chair => (1, 2),
        TileId::Bed => (4, 2),
        TileId::Chest => (2, 2),
        _ => (1, 1),
    }
}

impl TileId {
    /// Light a tile of this kind emits.
    pub fn light(self) -> (l: u8)
        ensures
            l == spec_id_light(self),
            l <= LIGHT_MAX,
    {
        match self {
            TileId::Torch => 28,
            TileId::Furnace => 20,
            _ => 0,
        }
    }

    /// Footprint `(width, height)` of this tile kind.
    pub fn size(self) -> (s: (u8, u8))
        ensures
            s == spec_size(self),
            1 <= s.0 <= 4,
            1 <= s.1 <= 3,
    {
        match self {
            TileId::Door => (1, 3),
            TileId::Furnace => (3, 2),
            TileId::Table => (3, 2),
            TileId::Workbench => (2, 1),
            TileId::Chair => (1, 2),
            TileId::Bed => (4, 2),
            TileId::Chest => (2, 2),
            _ => (1, 1),
        }
    }
}

/// One world cell.
#[derive(Debug, Clone, Copy, PartialEq, Eq, Structural)]
pub struct Tile {
    pub id: TileId,
    pub wall: WallId,
    pub liquid: Liquid,
    pub state: u8,
}

/// Solid: a block, or a closed door (the open bit is the top state bit).
pub open spec fn spec_solid(t: Tile) -> bool {
    spec_id_solid(t.id) && !(t.id == TileId::Door && t.state >= state::DOOR_OPEN)
}

impl Tile {
    /// An empty air cell.
    pub open spec fn spec_air() -> Tile {
        Tile { id: TileId::Air, wall: WallId::Air, liquid: Liquid { kind: None, level: 0 }, state: 0 }
    }

    /// An empty air cell.
    pub fn air() -> (t: Tile)
        ensures
            t == Tile::spec_air(),
            t.id == TileId::Air,
            t.wall == WallId::Air,
            t.liquid.kind is None,
            t.state == 0,
    {
        Tile { id: TileId::Air, wall: WallId::Air, liquid: Liquid::none(), state: 0 }
    }

    /// A cell of `id` with no wall, liquid or state.
    pub fn of(id: TileId) -> (t: Tile)
        ensures
            t == (Tile { id, wall: WallId::Air, liquid: Liquid { kind: None, level: 0 }, state: 0 }),
            t.id == id,
            t.wall == WallId::Air,
            t.liquid.kind is None,
            t.state == 0,
    {
        Tile { id, wall: WallId::Air, liquid: Liquid::none(), state: 0 }
    }

    pub fn is_solid(&self) -> (r: bool)
        ensures
            r == spec_solid(*self),
    {
        match self.id {
            TileId::Dirt | TileId::Stone | TileId::Sand | TileId::WoodBlock | TileId::Hellstone
            | TileId::Obsidian => true,
            TileId::Door => self.state < state::DOOR_OPEN,
            _ => false,
        }
    }

    pub fn is_platform(&self) -> (r: bool)
        ensures
            r == (self.id == TileId::Platform),
    {
        match self.id {
            TileId::Platform => true,
            _ => false,
        }
    }
}

} // verus!
