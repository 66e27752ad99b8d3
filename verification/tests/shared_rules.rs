use ferraria::coins::coin_denoms;
use ferraria::items::ItemId;
use ferraria::npc::{
    nurse_heal_cost, sell_price, MERCHANT_ARRIVAL_COPPER, NPC_DEFENSE, NPC_FIGHT_BACK_DAMAGE,
    NPC_HP, NPC_WANDER_RADIUS,
};
use ferraria::{damage_dealt, enemy_burn_tick, hash2, TICK_RATE};

#[test]
fn damage_formula() {
    assert_eq!(damage_dealt(10, 0), 10);
    assert_eq!(damage_dealt(10, 6), 7);
    assert_eq!(damage_dealt(10, 7), 7); // floor(7/2) = 3
    assert_eq!(damage_dealt(1, 100), 1); // never below 1
    assert_eq!(damage_dealt(0, 0), 1);
}

#[test]
fn tick_constants_agree() {
    // Seconds per tick, as the simulation steps physics.
    let dt: f32 = 1.0 / TICK_RATE as f32;
    assert_eq!((1.0 / dt).round() as u32, TICK_RATE);
}

#[test]
fn sell_prices_are_20_percent_rounded_down() {
    assert_eq!(sell_price(ItemId::Torch), 10); // 50 x 0.2
    assert_eq!(sell_price(ItemId::WoodenArrow), 1); // 5 x 0.2
    assert_eq!(sell_price(ItemId::Gel), 1); // 5 x 0.2
    assert_eq!(sell_price(ItemId::Wood), 2); // 10 x 0.2
    assert_eq!(sell_price(ItemId::Bottle), 4); // 20 x 0.2
    assert_eq!(sell_price(ItemId::Dirt), 0); // value 0: unsellable
    assert_eq!(sell_price(ItemId::WoodenArrow), 1);
    // Rounding down: 4 x 0.2 = 0.8 -> 0.
    assert_eq!(sell_price(ItemId::Platform), 0);
}

#[test]
fn coins_are_unsellable() {
    for (coin, _) in coin_denoms() {
        assert_eq!(sell_price(coin), 0, "{coin:?}");
    }
}

#[test]
fn nurse_cost_formula() {
    // 1 CC per HP.
    assert_eq!(nurse_heal_cost(100, 0, false, false), 100);
    // +1 SC per debuff.
    assert_eq!(nurse_heal_cost(100, 2, false, false), 300);
    // x3 after Watcher, x10 after Bone Warden (not x30).
    assert_eq!(nurse_heal_cost(100, 0, true, false), 300);
    assert_eq!(nurse_heal_cost(100, 0, false, true), 1_000);
    assert_eq!(nurse_heal_cost(100, 0, true, true), 1_000);
    // Minimum 10 CC.
    assert_eq!(nurse_heal_cost(1, 0, false, false), 10);
    assert_eq!(nurse_heal_cost(3, 0, true, false), 10);
    assert_eq!(nurse_heal_cost(0, 1, false, false), 100);
}

#[test]
fn npc_stats_match_design_7_1() {
    assert_eq!(NPC_HP, 250);
    assert_eq!(NPC_DEFENSE, 15);
    assert_eq!(NPC_FIGHT_BACK_DAMAGE, 10);
    assert_eq!(NPC_WANDER_RADIUS as f32, 25.0);
    assert_eq!(MERCHANT_ARRIVAL_COPPER, 5_000);
}

#[test]
fn particle_hash_wraps_and_mixes() {
    assert_eq!(hash2(0, 0), 0);
    assert_eq!(hash2(1, 0), 3_699_398_890);
    assert_eq!(hash2(7, 3), 2_530_537_402);
    assert_eq!(hash2(u32::MAX, u32::MAX), 891_014_008);
    assert_ne!(hash2(1, 2), hash2(2, 1));
}

#[test]
fn burning_takes_a_point_every_half_second() {
    assert_eq!(enemy_burn_tick(50, 0), (50, 0, false), "not burning");
    assert_eq!(enemy_burn_tick(50, 60), (49, 59, true));
    assert_eq!(enemy_burn_tick(50, 59), (50, 58, false));
    assert_eq!(enemy_burn_tick(50, 30), (49, 29, true));
    assert_eq!(enemy_burn_tick(0, 30), (0, 29, true), "floored at 0");
    // A full second of burning costs two points.
    let (mut hp, mut t) = (10u32, 60u32);
    for _ in 0..60 {
        let (h, n, _) = enemy_burn_tick(hp, t);
        hp = h;
        t = n;
    }
    assert_eq!((hp, t), (8, 0));
}
