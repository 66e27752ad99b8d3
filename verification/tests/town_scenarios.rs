//! The server's town scenarios, played through the library on a flat
//! 300 x 60 world with its floor at row 30 and the spawn at (150, 29).

use ferraria::coins::{coin_total, coin_value};
use ferraria::items::inventory::{ARMOR_START, TOTAL};
use ferraria::items::{InvSlot, ItemId};
use ferraria::npc::{
    eligible_lines, merchant_shop, pick_line, DialogueCtx, MERCHANT_ARRIVAL_COPPER, NPC_HP,
};
use ferraria::protocol::NpcKind;
use ferraria::tiles::{state, Tile, TileId, WallId};
use ferraria::town::roster::{
    arrivals, boot_roster, npc_alive, npc_dawn, npc_id_of_kind, npc_rows, TownNpc,
};
use ferraria::town::{
    bed_origin_at, bed_still_stands, buy, dialogue_ctx, npc_hp_after_hit, sell, shop_entries,
    slot_deltas, touched_slots, DebuffSet, Purchase, Sale,
};
use ferraria::town::wander::{door_landing_clear, drop_below, LEDGE_MAX_DROP};
use ferraria::world::{World, WorldFlags};

const FLOOR: u32 = 30;
const SPAWN: (u32, u32) = (150, FLOOR - 1);

fn flat_world() -> World {
    let mut w = World::new(300, 60);
    for y in FLOOR..60 {
        for x in 0..300 {
            w.set_tile(x, y, Tile::of(TileId::Stone));
        }
    }
    w
}

fn set_id(w: &mut World, x: u32, y: u32, id: TileId) {
    let mut t = w.tile(x, y);
    t.id = id;
    t.state = 0;
    w.set_tile(x, y, t);
}

/// A valid house (10 x 4 interior) with its interior's bottom-left at
/// (x0, floor - 1): stone shell, wood walls, a door in the left wall, a
/// torch, a table and a chair.
fn build_house(w: &mut World, x0: u32, floor: u32) {
    let ih = 4u32;
    let y_top = floor - ih;
    for x in x0 - 1..=x0 + 10 {
        for y in y_top - 1..=floor {
            let interior = (x0..x0 + 10).contains(&x) && (y_top..floor).contains(&y);
            let mut t = w.tile(x, y);
            if interior {
                t.id = TileId::Air;
                t.wall = WallId::Wood;
            } else {
                t.id = TileId::Stone;
            }
            t.state = 0;
            w.set_tile(x, y, t);
        }
    }
    for d in 0..3u32 {
        let mut t = w.tile(x0 - 1, floor - 1 - d);
        t.id = TileId::Door;
        t.state = state::part(0, (2 - d) as u8);
        w.set_tile(x0 - 1, floor - 1 - d, t);
    }
    let mut torch = w.tile(x0, floor - 1);
    torch.id = TileId::Torch;
    w.set_tile(x0, floor - 1, torch);
    assert!(w.place_multitile(x0 + 1, floor - 2, TileId::Table));
    assert!(w.place_multitile(x0 + 4, floor - 2, TileId::Chair));
}

/// The roster after boot, and the next free entity id.
fn booted() -> (Vec<TownNpc>, Vec<NpcKind>, u32) {
    let (npcs, arrived) = boot_roster(1);
    (npcs, arrived, 2)
}

fn inventory() -> Vec<Option<InvSlot>> {
    vec![None; TOTAL]
}

fn give(inv: &mut [Option<InvSlot>], slot: usize, item: ItemId, count: u16) {
    inv[slot] = Some(InvSlot::new(item, count));
}

fn count_of(inv: &[Option<InvSlot>], item: ItemId) -> u32 {
    inv.iter().flatten().filter(|s| s.item == item).map(|s| s.count as u32).sum()
}

/// A player next to a housed merchant, holding 50 SC in slot 5.
fn merchant_wallet() -> Vec<Option<InvSlot>> {
    let mut inv = inventory();
    give(&mut inv, 5, ItemId::SilverCoin, 50);
    inv
}

// ---- Arrivals, respawns, housing ----------------------------------------------

#[test]
fn sage_spawns_at_world_spawn_on_boot() {
    let (npcs, arrived, _) = booted();
    assert_eq!(npcs.len(), 1);
    let sage = &npcs[0];
    assert_eq!(sage.kind, NpcKind::Sage);
    assert!(sage.home.is_none(), "no house exists yet");
    assert_eq!(arrived, vec![NpcKind::Sage]);
    // The roster reaches joining players.
    let rows = npc_rows(&npcs);
    assert_eq!(rows.len(), 1);
    assert_eq!(rows[0].kind, NpcKind::Sage);
    assert_eq!(rows[0].name, "Sage the Guide");
    assert!(!rows[0].housed);
}

#[test]
fn merchant_arrives_when_combined_coins_and_a_house_exist() {
    let mut w = flat_world();
    build_house(&mut w, 160, FLOOR);
    let (mut npcs, mut arrived, mut next_id) = booted();
    let mut alice = inventory();
    let mut bob = inventory();
    // 30 SC on alice + 19 SC 99 CC on bob: 1 copper short of 50 SC.
    give(&mut alice, 5, ItemId::SilverCoin, 30);
    give(&mut bob, 5, ItemId::SilverCoin, 19);
    give(&mut bob, 6, ItemId::CopperCoin, 99);
    let combined = coin_total(&alice) + coin_total(&bob);
    assert_eq!(combined, 4_999);
    arrivals(&w, &mut npcs, &mut arrived, SPAWN, combined, 100, &mut next_id);
    assert!(!npc_alive(&npcs, NpcKind::Merchant), "one copper short");

    // Top up to exactly 50 SC combined (denominations mixed).
    give(&mut bob, 7, ItemId::CopperCoin, 1);
    let combined = coin_total(&alice) + coin_total(&bob);
    assert_eq!(combined, MERCHANT_ARRIVAL_COPPER);
    let out = arrivals(&w, &mut npcs, &mut arrived, SPAWN, combined, 100, &mut next_id);
    assert!(npc_alive(&npcs, NpcKind::Merchant), "merchant moved in");
    let merchant = npc_id_of_kind(&npcs, NpcKind::Merchant).expect("id");
    let m = npcs.iter().find(|n| n.id == merchant).expect("merchant");
    assert!(m.home.is_some(), "claimed the house");
    assert_eq!(out[1], m.home, "the arrival is reported with its home");
}

#[test]
fn merchant_needs_a_vacant_house() {
    let w = flat_world();
    let (mut npcs, mut arrived, mut next_id) = booted();
    let mut alice = inventory();
    give(&mut alice, 5, ItemId::GoldCoin, 1); // plenty of money
    arrivals(&w, &mut npcs, &mut arrived, SPAWN, coin_total(&alice), 100, &mut next_id);
    assert!(!npc_alive(&npcs, NpcKind::Merchant), "no house, no merchant");
}

#[test]
fn nurse_needs_life_crystal_hp_and_the_merchant() {
    let mut w = flat_world();
    build_house(&mut w, 160, FLOOR);
    build_house(&mut w, 180, FLOOR);
    let (mut npcs, mut arrived, mut next_id) = booted();
    let mut alice = inventory();
    give(&mut alice, 5, ItemId::GoldCoin, 1);

    // Max HP 100: even with the merchant condition pending, no nurse.
    arrivals(&w, &mut npcs, &mut arrived, SPAWN, coin_total(&alice), 100, &mut next_id);
    assert!(npc_alive(&npcs, NpcKind::Merchant));
    assert!(!npc_alive(&npcs, NpcKind::Nurse), "max HP not over 100");

    arrivals(&w, &mut npcs, &mut arrived, SPAWN, coin_total(&alice), 120, &mut next_id);
    assert!(npc_alive(&npcs, NpcKind::Nurse), "nurse moved in");
}

#[test]
fn offline_players_count_toward_arrival_conditions() {
    let mut w = flat_world();
    build_house(&mut w, 160, FLOOR);
    build_house(&mut w, 180, FLOOR);
    let (mut npcs, mut arrived, mut next_id) = booted();
    // Bob holds most of the wealth and the Life Crystal HP, then logs off:
    // "all players" and "any player" count him still.
    let mut alice = inventory();
    let mut bob = inventory();
    give(&mut alice, 5, ItemId::SilverCoin, 10);
    give(&mut bob, 5, ItemId::SilverCoin, 40);
    let (alice_max_hp, bob_max_hp) = (100u32, 120u32);
    assert_eq!(coin_total(&alice), 1_000, "only 10 SC remain online");
    let combined = coin_total(&alice) + coin_total(&bob);
    arrivals(&w, &mut npcs, &mut arrived, SPAWN, combined, alice_max_hp.max(bob_max_hp), &mut next_id);
    assert!(npc_alive(&npcs, NpcKind::Merchant), "parked coins counted toward 50 SC");
    assert!(npc_alive(&npcs, NpcKind::Nurse), "parked max HP > 100 counted");
}

#[test]
fn dead_npcs_respawn_at_dawn_only_with_valid_housing() {
    let mut w = flat_world();
    let (mut npcs, mut arrived, mut next_id) = booted();
    // Beat the homeless Sage to death.
    let mut hp = NPC_HP;
    for _ in 0..50 {
        hp = npc_hp_after_hit(hp, 100);
        if hp == 0 {
            break;
        }
    }
    assert_eq!(hp, 0);
    npcs.retain(|n| n.kind != NpcKind::Sage);
    assert!(!npc_alive(&npcs, NpcKind::Sage), "slain");

    // Dawn with no housing: still dead.
    npc_dawn(&w, &mut npcs, &mut arrived, SPAWN, 0, 100, &mut next_id);
    assert!(!npc_alive(&npcs, NpcKind::Sage));

    // Build a house; next dawn he returns, housed.
    build_house(&mut w, 160, FLOOR);
    npc_dawn(&w, &mut npcs, &mut arrived, SPAWN, 0, 100, &mut next_id);
    assert!(npc_alive(&npcs, NpcKind::Sage), "respawned at dawn");
    let id = npc_id_of_kind(&npcs, NpcKind::Sage).expect("id");
    assert!(npcs.iter().find(|n| n.id == id).expect("sage").home.is_some());
}

#[test]
fn homeless_npc_claims_nearest_house_at_dawn_and_loses_it_when_broken() {
    let mut w = flat_world();
    build_house(&mut w, 160, FLOOR);
    let (mut npcs, mut arrived, mut next_id) = booted();
    npc_dawn(&w, &mut npcs, &mut arrived, SPAWN, 0, 100, &mut next_id);
    let home = npcs[0].home.expect("claimed at dawn");

    // Knock the torch out: rule 4 fails at the next dawn revalidation.
    assert_eq!(w.tile(160, FLOOR - 1).id, TileId::Torch);
    set_id(&mut w, 160, FLOOR - 1, TileId::Air);
    npc_dawn(&w, &mut npcs, &mut arrived, SPAWN, 0, 100, &mut next_id);
    assert_ne!(npcs[0].home, Some(home), "stale claim revalidated away");
    assert_eq!(npcs[0].home, None);
}

// ---- Merchant -------------------------------------------------------------------

#[test]
fn talk_to_merchant_includes_the_shop_catalog() {
    let items = shop_entries();
    assert_eq!(items.len(), merchant_shop().len());
    assert!(items.iter().any(|e| e.item == ItemId::Torch && e.price == 50));
    assert!(items.iter().any(|e| e.item == ItemId::MiningHelmet && e.price == 40_000));
}

#[test]
fn buy_item_charges_coins_and_delivers() {
    let mut inv = merchant_wallet();
    // 3 Lesser Healing Potions at 3 SC each = 9 SC.
    let changed = match buy(&mut inv, ItemId::LesserHealingPotion, 3) {
        Purchase::Bought { changed, .. } => changed,
        other => panic!("{other:?}"),
    };
    assert_eq!(coin_total(&inv), 4_100);
    assert_eq!(count_of(&inv, ItemId::LesserHealingPotion), 3);
    let deltas = slot_deltas(&touched_slots(&changed, inv.len()), &inv);
    assert!(deltas.iter().any(|(_, s)| matches!(s,
        Some(s) if s.item == ItemId::LesserHealingPotion && s.count == 3)));

    // Unstocked item: refused, nothing charged.
    assert!(matches!(buy(&mut inv, ItemId::GoldBar, 1), Purchase::Unstocked));
    assert_eq!(coin_total(&inv), 4_100);

    // Too expensive: 4 GC helmet vs 41 SC wallet.
    assert!(matches!(buy(&mut inv, ItemId::MiningHelmet, 1), Purchase::TooPoor));
    assert_eq!(coin_total(&inv), 4_100, "not charged");
}

#[test]
fn buy_overflow_drops_at_the_player() {
    let mut inv = merchant_wallet();
    // Fill every carry slot except the coin stack: the purchase can't fit.
    for s in inv.iter_mut().take(ARMOR_START) {
        if s.is_none_or(|s| s.item != ItemId::SilverCoin) {
            *s = Some(InvSlot::new(ItemId::Stone, 999));
        }
    }
    let (spill, leftover) = match buy(&mut inv, ItemId::Torch, 5) {
        Purchase::Bought { change_spill, leftover, .. } => (change_spill, leftover),
        other => panic!("{other:?}"),
    };
    // 5 torches = 250 CC, paid by breaking 3 SC. The 50 CC change has no
    // slot either, so it spills alongside the torches.
    assert_eq!(coin_total(&inv), 5_000 - 300);
    assert_eq!(leftover, 5, "torches spilled as a drop");
    let copper: u32 = spill
        .iter()
        .filter(|s| s.item == ItemId::CopperCoin)
        .map(|s| s.count as u32)
        .sum();
    assert_eq!(copper, 50, "change spilled too");
}

#[test]
fn sell_item_pays_20_percent_rounded_down() {
    let mut inv = merchant_wallet();
    let start = coin_total(&inv);
    give(&mut inv, 6, ItemId::Wood, 30); // value 10: sells at 2
    assert!(matches!(sell(&mut inv, 6, 10), Sale::Sold { .. }));
    assert_eq!(coin_total(&inv), start + 20);
    assert_eq!(inv[6], Some(InvSlot::new(ItemId::Wood, 20)));

    // Zero-value items are unsellable.
    give(&mut inv, 7, ItemId::Dirt, 50);
    assert!(matches!(sell(&mut inv, 7, 50), Sale::Refused(ItemId::Dirt)));
    assert_eq!(inv[7], Some(InvSlot::new(ItemId::Dirt, 50)), "dirt not consumed");
    assert_eq!(coin_total(&inv), start + 20);

    // Over-count is rejected.
    assert!(matches!(sell(&mut inv, 6, 21), Sale::BadRequest));
    assert_eq!(inv[6], Some(InvSlot::new(ItemId::Wood, 20)));
}

#[test]
fn coins_cannot_be_sold_to_the_merchant() {
    let mut inv = merchant_wallet();
    let start = coin_total(&inv);
    assert!(matches!(sell(&mut inv, 5, 10), Sale::Refused(ItemId::SilverCoin)));
    assert_eq!(coin_total(&inv), start, "wallet untouched");
    assert_eq!(inv[5], Some(InvSlot::new(ItemId::SilverCoin, 50)), "coin stack untouched");
}

#[test]
fn sell_change_uses_canonical_denominations() {
    let mut inv = merchant_wallet();
    // Sell a Gold Bar (1200 -> 240 CC): paid as 2 SC + 40 CC.
    give(&mut inv, 6, ItemId::GoldBar, 1);
    let before = coin_total(&inv);
    assert!(matches!(sell(&mut inv, 6, 1), Sale::Sold { .. }));
    assert_eq!(coin_total(&inv), before + 240);
    assert_eq!(inv[6], None);
    let coppers = count_of(&inv, ItemId::CopperCoin);
    assert_eq!(coppers * coin_value(ItemId::CopperCoin), 40);
}

// ---- Beds -----------------------------------------------------------------------

#[test]
fn bed_spawn_set_validate_and_fallback() {
    let mut w = flat_world();
    // A bed near the player.
    assert!(w.place_multitile(152, FLOOR - 2, TileId::Bed));
    // Click a non-origin cell of the bed: stored at the origin.
    assert_eq!(bed_origin_at(&w, 154, FLOOR - 1), Some((152, FLOOR - 2)));
    // Not a bed, or outside the world: rejected.
    assert_eq!(bed_origin_at(&w, 150, FLOOR), None);
    assert_eq!(bed_origin_at(&w, 999, 5), None);
    assert!(bed_still_stands(&w, (152, FLOOR - 2)));
    // Destroying the bed falls back to world spawn at respawn time.
    set_id(&mut w, 152, FLOOR - 2, TileId::Air);
    assert!(!bed_still_stands(&w, (152, FLOOR - 2)));
}

// ---- Wandering --------------------------------------------------------------------

#[test]
fn the_drop_ahead_is_measured_down_to_just_past_the_ledge_limit() {
    let mut w = flat_world();
    // Feet on the floor: no drop; two rows up: a drop of 2.
    assert_eq!(drop_below(&w, 100, FLOOR as i64), 0);
    assert_eq!(drop_below(&w, 100, FLOOR as i64 - 2), 2);
    // A platform counts as ground.
    set_id(&mut w, 101, FLOOR - 1, TileId::Platform);
    assert_eq!(drop_below(&w, 101, FLOOR as i64 - 2), 1);
    // A shaft deeper than the limit reads as one past it.
    for y in FLOOR..FLOOR + 6 {
        set_id(&mut w, 102, y, TileId::Air);
    }
    assert_eq!(drop_below(&w, 102, FLOOR as i64), LEDGE_MAX_DROP + 1);
}

#[test]
fn a_door_landing_needs_headroom_and_ground() {
    let mut w = flat_world();
    let feet_row = FLOOR as i64 - 1;
    assert!(door_landing_clear(&w, 100, feet_row));
    // A block at head height jams the doorway.
    set_id(&mut w, 100, FLOOR - 3, TileId::Stone);
    assert!(!door_landing_clear(&w, 100, feet_row));
    // No ground under the feet.
    set_id(&mut w, 110, FLOOR, TileId::Air);
    assert!(!door_landing_clear(&w, 110, feet_row));
    // Outside the world counts as solid.
    assert!(!door_landing_clear(&w, -1, feet_row));
}

#[test]
fn a_dawn_never_houses_two_npcs_in_one_room() {
    let mut w = flat_world();
    build_house(&mut w, 160, FLOOR);
    let mut npcs = vec![
        TownNpc { id: 1, kind: NpcKind::Sage, home: None },
        TownNpc { id: 2, kind: NpcKind::Merchant, home: None },
    ];
    let mut arrived = vec![NpcKind::Sage, NpcKind::Merchant];
    let mut next_id = 3;
    npc_dawn(&w, &mut npcs, &mut arrived, SPAWN, 0, 100, &mut next_id);
    assert!(npcs[0].home.is_some(), "the first homeless NPC takes the one house");
    assert_eq!(npcs[1].home, None, "the second finds it taken");
    // A second house: the next dawn houses the Merchant there.
    build_house(&mut w, 180, FLOOR);
    npc_dawn(&w, &mut npcs, &mut arrived, SPAWN, 0, 100, &mut next_id);
    let (a, b) = (npcs[0].home.expect("housed"), npcs[1].home.expect("housed"));
    assert!(a.0 < 171 && b.0 > 179, "one NPC per house");
}

#[test]
fn talk_npc_returns_a_dialogue_line_in_range_only() {
    let (npcs, _, _) = booted();
    // Daytime, a healthy player with empty pockets talking to the homeless
    // Sage: the three default lines plus the homeless line.
    let inv = inventory();
    let ctx = dialogue_ctx(
        false,
        false,
        WorldFlags { watcher_defeated: false, slime_monarch_defeated: false, bone_warden_defeated: false },
        100,
        100,
        &inv,
        &DebuffSet::default(),
        npcs[0].home.is_none(),
    );
    let expected = eligible_lines(
        NpcKind::Sage,
        &DialogueCtx { homeless: true, full_hp: true, ..DialogueCtx::default() },
    );
    assert_eq!(expected.len(), 4);
    for roll in [0u32, 1, 2, 3, 17, u32::MAX] {
        let line = pick_line(NpcKind::Sage, &ctx, roll);
        assert!(expected.contains(&line), "{line}");
    }
}
