//! Game rules of Ferraria shared by the server and the client: combat
//! damage, coin math over the inventory, town NPC tables and pricing,
//! housing validity, and the client's flood-fill lighting.

pub mod coins;
pub mod housing;
pub mod interact;
pub mod items;
pub mod light;
pub mod npc;
pub mod protocol;
pub mod spawning;
pub mod town;
pub mod tiles;
pub mod world;

use vstd::prelude::*;

verus! {

/// Protocol version; bumped on every breaking wire change.
pub const PROTOCOL_VERSION: u32 = 1;

/// Simulation rate, ticks per second.
pub const TICK_RATE: u32 = 60;

/// Global cap on live hostile enemies.
pub const MAX_LIVE_ENEMIES: u32 = 200;

/// Hit immunity: players 40 ticks after a hit; enemies 10 ticks per damage
/// source.
pub const PLAYER_IFRAME_TICKS: u32 = 40;

pub const ENEMY_IFRAME_TICKS: u32 = 10;

/// Player HP: base 100, +20 per Life Crystal, max 400.
pub const PLAYER_BASE_MAX_HP: u32 = 100;

pub const LIFE_CRYSTAL_HP: u32 = 20;

pub const PLAYER_MAX_MAX_HP: u32 = 400;

/// Coin denominations: 100 Copper = 1 Silver, etc. Values are in copper
/// coins.
pub const COPPER_PER_SILVER: u32 = 100;

pub const COPPER_PER_GOLD: u32 = 10000;

pub const COPPER_PER_PLATINUM: u32 = 1000000;

/// The one damage formula: `max(1, attack - floor(defense / 2))`, as an
/// integer.
pub open spec fn spec_damage(attack: int, defense: int) -> int {
    if attack - defense / 2 >= 1 {
        attack - defense / 2
    } else {
        1
    }
}

/// Every hit does at least 1 damage; more attack never does less and one
/// more attack point does at most one more damage; two more defense points
/// take at most one point off and never add any; and while the attack
/// beats half the defense, damage plus half the defense is the attack.
pub proof fn lemma_damage_laws(attack: int, defense: int)
    requires
        attack >= 0,
        defense >= 0,
    ensures
        spec_damage(attack, defense) >= 1,
        spec_damage(attack, defense) <= spec_damage(attack + 1, defense) <= spec_damage(attack, defense) + 1,
        spec_damage(attack, defense) - 1 <= spec_damage(attack, defense + 2) <= spec_damage(attack, defense),
        attack > defense / 2 ==> spec_damage(attack, defense) + defense / 2 == attack,
        attack <= defense / 2 ==> spec_damage(attack, defense) == 1,
{
    assert((defense + 2) / 2 == defense / 2 + 1);
}

/// The one damage formula: `max(1, attack - floor(defense / 2))`. Crit
/// doubling and multipliers apply to `attack` before calling this.
pub fn damage_dealt(attack: u32, defense: u32) -> (dmg: u32)
    ensures
        dmg == spec_damage(attack as int, defense as int),
{
    let half = defense / 2;
    if attack > half && attack - half >= 1 {
        attack - half
    } else {
        1
    }
}

/// Burning damage to enemies, per second; it ignores defense.
pub const ENEMY_BURNING_DPS: u32 = 2;

/// One tick of an enemy's burning: while `burn_ticks` runs, every
/// `TICK_RATE / ENEMY_BURNING_DPS`-th tick of it takes a point of HP
/// (never below 0). Returns the new HP, the new countdown, and whether the
/// tick fell on a damage step (the HP is then marked to be sent again).
pub fn enemy_burn_tick(hp: u32, burn_ticks: u32) -> (r: (u32, u32, bool))
    ensures
        burn_ticks == 0 ==> r == (hp, 0u32, false),
        burn_ticks > 0 ==> {
            let hit = burn_ticks % (TICK_RATE / ENEMY_BURNING_DPS) == 0;
            &&& r.0 == (if hit && hp > 0 { hp - 1 } else { hp as int })
            &&& r.1 == burn_ticks - 1
            &&& r.2 == hit
        },
{
    if burn_ticks == 0 {
        return (hp, 0, false);
    }
    let interval: u32 = TICK_RATE / ENEMY_BURNING_DPS;
    let hit = burn_ticks % interval == 0;
    let new_hp = if hit && hp > 0 {
        hp - 1
    } else {
        hp
    };
    (new_hp, burn_ticks - 1, hit)
}

/// A cheap integer hash of two words, for deterministic per-particle
/// variety (each multiplication wraps).
pub open spec fn spec_hash2(a: u32, b: u32) -> u32 {
    let h0 = (((a * 0x9E37_79B9nat) % 0x1_0000_0000) as u32) ^ (((b * 0x85EB_CA6Bnat)
        % 0x1_0000_0000) as u32);
    let h1 = h0 ^ (h0 >> 13u32);
    let h2 = ((h1 * 0xC2B2_AE35nat) % 0x1_0000_0000) as u32;
    h2 ^ (h2 >> 16u32)
}

/// A cheap integer hash of two words, for deterministic per-particle
/// variety.
pub fn hash2(a: u32, b: u32) -> (h: u32)
    ensures
        h == spec_hash2(a, b),
{
    let mut h = a.wrapping_mul(0x9E37_79B9) ^ b.wrapping_mul(0x85EB_CA6B);
    h ^= h >> 13;
    h = h.wrapping_mul(0xC2B2_AE35);
    h ^ (h >> 16)
}

} // verus!
