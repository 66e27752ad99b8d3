//! The plain wire types of the protocol that the game rules use: why an
//! entity left the world, entity and town NPC kinds, and shop rows.
//!
//! Enums here are append-only on the wire: variants are encoded by index.

pub mod anim;

use vstd::prelude::*;

use crate::items::ItemId;

verus! {

/// Why an entity left the world.
#[derive(Debug, Clone, Copy, PartialEq, Eq, Structural)]
pub enum DespawnReason {
    Killed,
    /// Out of range of all players / dawn flee / boss disengage.
    Despawned,
}

/// Every server-simulated entity kind (enemies, bosses, projectiles,
/// falling tiles). Append-only.
#[derive(Debug, Clone, Copy, PartialEq, Eq, Structural)]
pub enum EntityKind {
    GreenSlime,
    BlueSlime,
    Zombie,
    DemonEye,
    CaveBat,
    Skeleton,
    LavaSlime,
    AshDemon,
    Watchling,
    SlimeMonarch,
    Watcher,
    BoneWardenSkull,
    BoneWardenHand,
    /// Arrow in flight.
    ArrowProjectile,
    FlamingArrowProjectile,
    VoidSickleProjectile,
    FallingSand,
}

/// Town NPC kinds.
#[derive(Debug, Clone, Copy, PartialEq, Eq, Structural)]
pub enum NpcKind {
    Sage,
    Merchant,
    Nurse,
}

/// A status effect on a player.
#[derive(Debug, Clone, Copy, PartialEq, Eq, Structural)]
pub enum Debuff {
    Burning,
    Darkness,
    /// After drinking a healing potion; no nurse can clear it.
    PotionSickness,
}

/// A debuff with the ticks it has left.
#[derive(Debug, Clone, Copy, PartialEq, Eq, Structural)]
pub struct ActiveDebuff {
    pub debuff: Debuff,
    pub remaining_ticks: u32,
}

/// One row of a shop catalog.
#[derive(Debug, Clone, Copy, PartialEq, Eq, Structural)]
pub struct ShopEntry {
    pub item: ItemId,
    /// Price in copper coins.
    pub price: u32,
}

} // verus!
