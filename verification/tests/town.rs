use ferraria::coins::coin_total;
use ferraria::items::inventory::TOTAL;
use ferraria::items::{InvSlot, ItemId};
use ferraria::npc::{NPC_KINDS, NURSE_MIN_COST};
use ferraria::protocol::{ActiveDebuff, Debuff, NpcKind};
use ferraria::tiles::{state, Tile, TileId, WallId};
use ferraria::town::roster::{
    arrivals, claim_homes, npc_alive, npc_dawn, npc_id_of_kind, occupied_homes, respawn_dead,
    revalidate_homes, search_home, town_center, TownNpc,
};
use ferraria::town::{
    buy, dialogue_ctx, npc_hp_after_hit, nurse_heal, sell, shop_entries, slot_deltas,
    touched_slots, town_tick, DebuffSet, Heal, Purchase, Sale, TownTick,
};
use ferraria::npc::{NPC_HP, merchant_shop};
use ferraria::world::{World, WorldFlags, DAWN_TICK};
use ferraria::housing::check_house;

const FLOOR: u32 = 100;

fn empty() -> Vec<Option<InvSlot>> {
    vec![None; TOTAL]
}

fn wallet(silver: u16) -> Vec<Option<InvSlot>> {
    let mut inv = empty();
    inv[5] = Some(InvSlot::new(ItemId::SilverCoin, silver));
    inv
}

fn count(inv: &[Option<InvSlot>], item: ItemId) -> u32 {
    inv.iter()
        .flatten()
        .filter(|s| s.item == item)
        .map(|s| s.count as u32)
        .sum()
}

// ---- Merchant ----------------------------------------------------------------

#[test]
fn buy_refuses_bad_counts_and_leaves_a_poor_wallet_alone() {
    let mut inv = wallet(50);
    match buy(&mut inv, ItemId::LesserHealingPotion, 3) {
        Purchase::Bought { change_spill, leftover, .. } => {
            assert!(change_spill.is_empty());
            assert_eq!(leftover, 0);
        }
        other => panic!("{other:?}"),
    }
    let before = inv.clone();
    assert!(matches!(buy(&mut inv, ItemId::MiningHelmet, 1), Purchase::TooPoor));
    assert_eq!(inv, before, "not charged");
    // Zero or more than a stack.
    assert!(matches!(buy(&mut inv, ItemId::Torch, 0), Purchase::BadCount));
    assert!(matches!(buy(&mut inv, ItemId::MiningHelmet, 2), Purchase::BadCount));
    assert_eq!(inv, before);
}

#[test]
fn sell_reports_the_sold_slot_last_and_rejects_bad_requests() {
    let mut inv = wallet(50);
    inv[6] = Some(InvSlot::new(ItemId::Wood, 30)); // value 10: sells at 2
    match sell(&mut inv, 6, 10) {
        Sale::Sold { changed, spill } => {
            assert!(spill.is_empty());
            assert_eq!(*changed.last().expect("sold slot"), 6);
        }
        other => panic!("{other:?}"),
    }
    assert_eq!(coin_total(&inv), 5_020);
    assert_eq!(inv[6], Some(InvSlot::new(ItemId::Wood, 20)));
    // Zero-value items are refused and stay.
    inv[7] = Some(InvSlot::new(ItemId::Dirt, 50));
    assert!(matches!(sell(&mut inv, 7, 50), Sale::Refused(ItemId::Dirt)));
    assert_eq!(inv[7], Some(InvSlot::new(ItemId::Dirt, 50)));
    // Over-count, empty slots and out-of-range slots are bad requests.
    assert!(matches!(sell(&mut inv, 6, 21), Sale::BadRequest));
    assert!(matches!(sell(&mut inv, 6, 0), Sale::BadRequest));
    assert!(matches!(sell(&mut inv, 8, 1), Sale::BadRequest));
    assert!(matches!(sell(&mut inv, TOTAL as u8, 1), Sale::BadRequest));
    assert_eq!(inv[6], Some(InvSlot::new(ItemId::Wood, 20)));
}

#[test]
fn selling_a_whole_stack_empties_its_slot() {
    let mut inv = empty();
    inv[0] = Some(InvSlot::new(ItemId::Torch, 2));
    assert!(matches!(sell(&mut inv, 0, 2), Sale::Sold { .. }));
    assert_eq!(coin_total(&inv), 20);
    assert_eq!(count(&inv, ItemId::Torch), 0);
}

// ---- Nurse -------------------------------------------------------------------

#[test]
fn nurse_heal_costs_hp_plus_debuffs_with_boss_multipliers() {
    let mut inv = wallet(50);
    let mut debuffs = DebuffSet::default();
    debuffs.insert_for_test(Debuff::Burning, 100);
    debuffs.insert_for_test(Debuff::PotionSickness, 100);
    let mut hp = 50; // restore 150
    match nurse_heal(&mut inv, &mut hp, 200, &mut debuffs, false, false) {
        Heal::Healed { cost, .. } => assert_eq!(cost, 250), // 150 CC + 1 SC
        other => panic!("{other:?}"),
    }
    assert_eq!(hp, 200, "healed to full");
    assert_eq!(coin_total(&inv), 5_000 - 250);
    assert!(!debuffs.has(Debuff::Burning), "burning cleared");
    assert!(debuffs.has(Debuff::PotionSickness), "potion sickness stays");

    // x3 after the Watcher.
    hp = 100;
    let start = coin_total(&inv);
    assert!(matches!(
        nurse_heal(&mut inv, &mut hp, 200, &mut debuffs, true, false),
        Heal::Healed { cost: 300, .. }
    ));
    assert_eq!(coin_total(&inv), start - 300);

    // x10 after the Bone Warden; minimum 10 CC.
    hp = 199;
    let start = coin_total(&inv);
    nurse_heal(&mut inv, &mut hp, 200, &mut debuffs, true, true);
    assert_eq!(coin_total(&inv), start - NURSE_MIN_COST);
}

#[test]
fn nurse_full_hp_is_a_free_no_op_and_poverty_refuses() {
    let mut inv = wallet(50);
    let mut debuffs = DebuffSet::default();
    let mut hp = 200;
    assert!(matches!(
        nurse_heal(&mut inv, &mut hp, 200, &mut debuffs, false, false),
        Heal::FullHealth
    ));
    assert_eq!(coin_total(&inv), 5_000, "full HP: no charge");
    let mut broke = empty();
    hp = 50;
    assert!(matches!(
        nurse_heal(&mut broke, &mut hp, 200, &mut debuffs, false, false),
        Heal::TooPoor
    ));
    assert_eq!(hp, 50, "no heal without payment");
}

#[test]
fn nurse_clears_debuffs_at_full_hp_for_a_fee() {
    let mut inv = wallet(50);
    let mut debuffs = DebuffSet::default();
    debuffs.insert_for_test(Debuff::Burning, 100);
    debuffs.insert_for_test(Debuff::PotionSickness, 100);
    let mut hp = 200;
    match nurse_heal(&mut inv, &mut hp, 200, &mut debuffs, false, false) {
        Heal::Healed { cost, .. } => assert_eq!(cost, 100, "one clearable debuff, no HP"),
        other => panic!("{other:?}"),
    }
    assert_eq!(coin_total(&inv), 4_900);
    assert!(!debuffs.has(Debuff::Burning), "burning cleared");
    assert!(debuffs.has(Debuff::PotionSickness), "potion sickness kept");
    assert_eq!(hp, 200);
    // Only potion sickness left: nothing to clear, so a free no-op again.
    assert!(matches!(
        nurse_heal(&mut inv, &mut hp, 200, &mut debuffs, false, false),
        Heal::FullHealth
    ));
    assert_eq!(coin_total(&inv), 4_900);
}

#[test]
fn debuff_set_counts_and_clears_all_but_potion_sickness() {
    let mut d = DebuffSet::default();
    assert_eq!(d.nurse_clearable(), 0);
    d.insert_for_test(Debuff::Darkness, 5);
    d.insert_for_test(Debuff::PotionSickness, 7);
    d.insert_for_test(Debuff::Burning, 9);
    assert_eq!(d.nurse_clearable(), 2);
    assert!(d.has(Debuff::Darkness));
    d.clear_except_potion_sickness();
    assert_eq!(
        d.as_wire(),
        vec![ActiveDebuff {
            debuff: Debuff::PotionSickness,
            remaining_ticks: 7
        }]
    );
    assert_eq!(d.nurse_clearable(), 0);
}

#[test]
fn dialogue_context_reads_live_player_state() {
    let mut inv = empty();
    inv[0] = Some(InvSlot::new(ItemId::GoldCoin, 2));
    let mut debuffs = DebuffSet::default();
    debuffs.insert_for_test(Debuff::PotionSickness, 30);
    let flags = WorldFlags {
        watcher_defeated: true,
        slime_monarch_defeated: false,
        bone_warden_defeated: false,
    };
    let ctx = dialogue_ctx(true, false, flags, 20, 100, &inv, &debuffs, true);
    assert!(ctx.night && !ctx.boss_alive && ctx.watcher_defeated);
    assert!(ctx.low_hp, "20 of 100 is under 30%");
    assert!(!ctx.full_hp);
    assert!(ctx.rich, "2 GC is over 1 GC");
    assert!(ctx.potion_sick && ctx.homeless);
    let ctx = dialogue_ctx(false, true, flags, 30, 100, &empty(), &DebuffSet::default(), false);
    assert!(!ctx.low_hp, "exactly 30% is not low");
    assert!(!ctx.rich && !ctx.potion_sick && ctx.boss_alive);
}

// ---- Roster ------------------------------------------------------------------

fn base_world() -> World {
    let mut w = World::new(200, 200);
    for y in FLOOR..200 {
        for x in 0..200 {
            w.set_tile(x, y, Tile::of(TileId::Stone));
        }
    }
    w
}

fn set(w: &mut World, x: u32, y: u32, id: TileId) {
    let mut t = w.tile(x, y);
    t.id = id;
    t.state = 0;
    w.set_tile(x, y, t);
}

/// A valid room with interior `iw` x `ih` whose bottom-left interior cell
/// is (x0, FLOOR-1): stone shell, wood walls, a closed door in the left
/// wall, torch, table, chair. Returns an interior cell.
fn build_room(w: &mut World, x0: u32, iw: u32, ih: u32) -> (u32, u32) {
    let y_top = FLOOR - ih;
    for x in x0 - 1..=x0 + iw {
        for y in y_top - 1..=FLOOR {
            let interior =
                (x0..x0 + iw).contains(&x) && (y_top..y_top + ih).contains(&y) && y < FLOOR;
            let mut t = w.tile(x, y);
            if interior {
                t.id = TileId::Air;
                t.wall = WallId::Wood;
            } else {
                t.id = TileId::Stone;
            }
            w.set_tile(x, y, t);
        }
    }
    for d in 0..3u32 {
        let mut t = w.tile(x0 - 1, FLOOR - 1 - d);
        t.id = TileId::Door;
        t.state = state::part(0, (2 - d) as u8);
        w.set_tile(x0 - 1, FLOOR - 1 - d, t);
    }
    set(w, x0, FLOOR - 1, TileId::Torch);
    assert!(w.place_multitile(x0 + 1, FLOOR - 2, TileId::Table));
    assert!(w.place_multitile(x0 + 4, FLOOR - 2, TileId::Chair));
    (x0 + 5, FLOOR - 1)
}

fn npc(id: u32, kind: NpcKind, home: Option<(u32, u32)>) -> TownNpc {
    TownNpc { id, kind, home }
}

#[test]
fn town_center_averages_homes_else_spawn() {
    let spawn = (7, 9);
    assert_eq!(town_center(&vec![npc(1, NpcKind::Sage, None)], spawn), spawn);
    let npcs = vec![
        npc(1, NpcKind::Sage, Some((10, 20))),
        npc(2, NpcKind::Merchant, None),
        npc(3, NpcKind::Nurse, Some((13, 31))),
    ];
    assert_eq!(town_center(&npcs, spawn), (11, 25)); // (23/2, 51/2) rounded down
    assert_eq!(occupied_homes(&npcs), vec![(10, 20), (13, 31)]);
    assert!(npc_alive(&npcs, NpcKind::Nurse));
    assert_eq!(npc_id_of_kind(&npcs, NpcKind::Merchant), Some(2));
    assert_eq!(npc_id_of_kind(&vec![], NpcKind::Merchant), None);
}

#[test]
fn homeless_npc_claims_nearest_house_and_loses_it_when_broken() {
    let mut w = base_world();
    let near = build_room(&mut w, 90, 10, 4);
    let near_home = check_house(&w, near).expect("valid").home;
    let mut npcs = vec![npc(1, NpcKind::Sage, None)];
    assert!(claim_homes(&w, &mut npcs, (100, FLOOR - 1)));
    assert_eq!(npcs[0].home, Some(near_home));
    // Nothing changes while the house stands.
    assert!(!revalidate_homes(&w, &mut npcs));
    assert_eq!(npcs[0].home, Some(near_home));
    // Break the torch: the room fails rule 4 and the NPC loses its home.
    set(&mut w, 90, FLOOR - 1, TileId::Air);
    assert!(revalidate_homes(&w, &mut npcs));
    assert_eq!(npcs[0].home, None);
    assert_eq!(npcs[0].id, 1);
}

#[test]
fn dawn_evicts_cohabitants_when_occupied_rooms_merge() {
    let mut w = base_world();
    let start = build_room(&mut w, 90, 10, 4);
    let home = check_house(&w, start).expect("valid").home;
    // Two NPCs claim tiles of the same room: only the first keeps it.
    let other = (home.0 + 2, home.1);
    let mut npcs = vec![
        npc(1, NpcKind::Sage, Some(home)),
        npc(2, NpcKind::Merchant, Some(other)),
    ];
    assert!(revalidate_homes(&w, &mut npcs));
    assert_eq!(npcs[0].home, Some(home));
    assert_eq!(npcs[1].home, None, "second NPC of a merged room is evicted");
}

#[test]
fn a_merged_room_stays_with_the_lower_id() {
    let mut w = base_world();
    let start = build_room(&mut w, 90, 10, 4);
    let home = check_house(&w, start).expect("valid").home;
    let other = (97, FLOOR - 3);
    assert_ne!(other, home);
    assert!(check_house(&w, other).is_ok());
    // NPC 3 lives on a side tile, NPC 5 on the room's own home tile: the
    // room goes to NPC 3, the lower id, and NPC 5 is left homeless.
    let mut npcs = vec![
        npc(3, NpcKind::Merchant, Some(other)),
        npc(5, NpcKind::Sage, Some(home)),
    ];
    assert!(revalidate_homes(&w, &mut npcs));
    assert_eq!(npcs[0].id, 3);
    assert_eq!(npcs[0].home, Some(other));
    assert_eq!(npcs[1].home, None);
    // The whole dawn pass agrees: with no other house, NPC 5 stays homeless.
    let mut npcs = vec![
        npc(3, NpcKind::Merchant, Some(other)),
        npc(5, NpcKind::Sage, Some(home)),
    ];
    let mut arrived = vec![NpcKind::Sage, NpcKind::Merchant];
    let mut next_id = 6;
    npc_dawn(&w, &mut npcs, &mut arrived, (100, FLOOR - 1), 0, 100, &mut next_id);
    assert_eq!(npcs[0].home, Some(other));
    assert_eq!(npcs[1].home, None);
}

#[test]
fn arrivals_need_their_condition_and_a_vacant_house() {
    let mut w = base_world();
    build_room(&mut w, 90, 10, 4);
    build_room(&mut w, 130, 10, 4);
    let spawn = (100, FLOOR - 1);
    let mut npcs = vec![npc(1, NpcKind::Sage, None)];
    let mut arrived = vec![NpcKind::Sage];
    let mut next_id = 10;
    // Too poor: nobody comes.
    let out = arrivals(&w, &mut npcs, &mut arrived, spawn, 4_999, 400, &mut next_id);
    assert!(out.iter().all(|o| o.is_none()));
    assert_eq!(npcs.len(), 1);
    // Rich enough: the Merchant arrives, and then the Nurse too (max HP
    // over 100 and the Merchant now present), into the two houses.
    let out = arrivals(&w, &mut npcs, &mut arrived, spawn, 5_000, 120, &mut next_id);
    assert_eq!(out.len(), NPC_KINDS.len());
    assert!(out[0].is_none() && out[1].is_some() && out[2].is_some());
    assert_eq!(arrived, vec![NpcKind::Sage, NpcKind::Merchant, NpcKind::Nurse]);
    assert_eq!(npcs.len(), 3);
    assert_eq!((npcs[1].id, npcs[1].kind), (10, NpcKind::Merchant));
    assert_eq!((npcs[2].id, npcs[2].kind), (11, NpcKind::Nurse));
    assert_ne!(npcs[1].home, npcs[2].home);
    assert_eq!(next_id, 12);
}

#[test]
fn nurse_needs_max_hp_over_100_and_the_merchant() {
    let mut w = base_world();
    build_room(&mut w, 90, 10, 4);
    let spawn = (100, FLOOR - 1);
    let mut npcs = vec![];
    let mut arrived = vec![NpcKind::Sage, NpcKind::Merchant]; // merchant dead
    let mut next_id = 1;
    let out = arrivals(&w, &mut npcs, &mut arrived, spawn, 0, 500, &mut next_id);
    assert!(out[2].is_none(), "no living merchant");
    npcs.push(npc(1, NpcKind::Merchant, None));
    let out = arrivals(&w, &mut npcs, &mut arrived, spawn, 0, 100, &mut next_id);
    assert!(out[2].is_none(), "exactly 100 is not over 100");
    let out = arrivals(&w, &mut npcs, &mut arrived, spawn, 0, 101, &mut next_id);
    assert!(out[2].is_some());
}

#[test]
fn dead_npcs_respawn_only_with_valid_housing() {
    let mut w = base_world();
    let spawn = (100, FLOOR - 1);
    let arrived = vec![NpcKind::Sage, NpcKind::Merchant];
    let mut npcs = vec![npc(1, NpcKind::Sage, None)]; // the merchant died
    let mut next_id = 5;
    let out = respawn_dead(&w, &mut npcs, &arrived, spawn, &mut next_id);
    assert_eq!(out, vec![None], "no house: no respawn");
    assert_eq!(npcs.len(), 1);
    build_room(&mut w, 90, 10, 4);
    let out = respawn_dead(&w, &mut npcs, &arrived, spawn, &mut next_id);
    assert!(out[0].is_some());
    assert_eq!((npcs[1].id, npcs[1].kind), (5, NpcKind::Merchant));
    assert_eq!(npcs[1].home, out[0]);
    assert_eq!(next_id, 6);
}

#[test]
fn dawn_pass_claims_respawns_and_reports_the_broadcast() {
    let mut w = base_world();
    build_room(&mut w, 90, 10, 4);
    build_room(&mut w, 130, 10, 4);
    let spawn = (100, FLOOR - 1);
    let mut npcs = vec![npc(1, NpcKind::Sage, None)];
    let mut arrived = vec![NpcKind::Sage, NpcKind::Merchant];
    let mut next_id = 2;
    let report = npc_dawn(&w, &mut npcs, &mut arrived, spawn, 0, 100, &mut next_id);
    assert!(npcs[0].home.is_some(), "the Sage claimed a house");
    assert_eq!(report.respawned.len(), 1);
    assert!(report.respawned[0].is_some(), "the Merchant moved back in");
    assert!(report.arrivals.iter().all(|o| o.is_none()));
    assert!(report.broadcast);
    // A second dawn with nothing to do: no broadcast.
    let report = npc_dawn(&w, &mut npcs, &mut arrived, spawn, 0, 100, &mut next_id);
    assert!(!report.broadcast);
    assert_eq!(npcs.len(), 2);
}

#[test]
fn search_home_avoids_occupied_rooms() {
    let mut w = base_world();
    let near = build_room(&mut w, 90, 10, 4);
    let near_home = check_house(&w, near).expect("valid").home;
    let npcs = vec![npc(1, NpcKind::Sage, Some(near_home))];
    // The only house is taken.
    assert_eq!(search_home(&w, &npcs, (100, FLOOR - 1)), None);
}

// ---- Ticks, hits, beds, deltas ---------------------------------------------------

#[test]
fn hp_math_respects_npc_defense() {
    // Damage formula vs 15 defense: 20 attack -> 13 damage.
    assert_eq!(npc_hp_after_hit(NPC_HP, 20), NPC_HP - 13);
    assert_eq!(npc_hp_after_hit(5, 20), 0, "floored at 0");
    assert_eq!(npc_hp_after_hit(NPC_HP, 0), NPC_HP - 1, "never below 1 damage");
}

#[test]
fn town_ticks_dispatch_dawn_and_hourly_checks() {
    assert_eq!(town_tick(DAWN_TICK), TownTick::Dawn);
    assert_eq!(town_tick(7_200), TownTick::Arrivals);
    assert_eq!(town_tick(0), TownTick::Arrivals);
    assert_eq!(town_tick(7_201), TownTick::Quiet);
}

#[test]
fn shop_rows_follow_the_catalog() {
    let rows = shop_entries();
    let shop = merchant_shop();
    assert_eq!(rows.len(), shop.len());
    for (row, item) in rows.iter().zip(shop.iter()) {
        assert_eq!((row.item, row.price), (item.item, item.price));
    }
}

#[test]
fn touched_slots_are_sorted_deduped_and_in_range() {
    let changed = vec![7, 3, 7, 99, 0, 3];
    let touched = touched_slots(&changed, TOTAL);
    assert_eq!(touched, vec![0, 3, 7]);
    let mut inv = empty();
    inv[3] = Some(InvSlot::new(ItemId::Torch, 4));
    let deltas = slot_deltas(&touched, &inv);
    assert_eq!(
        deltas,
        vec![(0, None), (3, Some(InvSlot::new(ItemId::Torch, 4))), (7, None)]
    );
}
