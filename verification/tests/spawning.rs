use ferraria::items::{InvSlot, ItemId};
use ferraria::spawning::{coin_drops, placement_ok, town_suppression};
use ferraria::tiles::{Tile, TileId};
use ferraria::world::World;

#[test]
fn town_suppression_lowers_the_cap_and_three_npcs_stop_spawns() {
    assert_eq!(town_suppression(0, 5), Some(5));
    assert_eq!(town_suppression(1, 5), Some(3));
    assert_eq!(town_suppression(2, 5), Some(1));
    assert_eq!(town_suppression(2, 4), None, "cap driven to 0");
    assert_eq!(town_suppression(1, 1), None, "cap saturates at 0");
    assert_eq!(town_suppression(3, 100), None, "3+ NPCs: no hostile spawns");
}

#[test]
fn coin_drops_use_the_largest_denominations() {
    assert_eq!(
        coin_drops(12_345),
        vec![
            InvSlot::new(ItemId::GoldCoin, 1),
            InvSlot::new(ItemId::SilverCoin, 23),
            InvSlot::new(ItemId::CopperCoin, 45),
        ]
    );
    assert_eq!(coin_drops(500), vec![InvSlot::new(ItemId::SilverCoin, 5)]);
    assert!(coin_drops(0).is_empty());
    // Platinum never drops: a million copper is 100 gold.
    assert_eq!(coin_drops(1_000_000), vec![InvSlot::new(ItemId::GoldCoin, 100)]);
}

#[test]
fn grounded_enemies_need_solid_ground_with_air_above() {
    let mut w = World::new(20, 20);
    for x in 0..20 {
        w.set_tile(x, 10, Tile::of(TileId::Stone));
    }
    assert!(placement_ok(&w, true, 5, 10));
    assert!(!placement_ok(&w, true, 5, 9), "air is no ground");
    w.set_tile(6, 8, Tile::of(TileId::Dirt));
    assert!(!placement_ok(&w, true, 5, 10), "blocked above");
    assert!(!placement_ok(&w, true, 0, 10), "the world edge counts as solid");
    assert!(!placement_ok(&w, true, 5, 1) || w.tile(5, 1).is_solid());
}

#[test]
fn fliers_need_a_2x2_air_pocket() {
    let mut w = World::new(20, 20);
    assert!(placement_ok(&w, false, 3, 3));
    w.set_tile(4, 4, Tile::of(TileId::Stone));
    assert!(!placement_ok(&w, false, 3, 3));
    assert!(!placement_ok(&w, false, 19, 5), "pocket runs off the world");
}
