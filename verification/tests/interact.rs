use ferraria::interact::{
    primary_intent, secondary_intent, HeldItem, Placement, PrimaryIntent, SecondaryIntent, ToolKind,
    WeaponKind,
};
use ferraria::items::{InvSlot, ItemId};
use ferraria::tiles::{state, Tile, TileId, WallId};
use ferraria::world::World;

fn held(item: ItemId) -> HeldItem {
    HeldItem { item, tool: None, weapon: None, consumable: false, places: None }
}

fn pickaxe() -> HeldItem {
    HeldItem { tool: Some(ToolKind::Pickaxe), weapon: Some(WeaponKind::Melee), ..held(ItemId::CopperPickaxe) }
}

fn hammer() -> HeldItem {
    HeldItem { tool: Some(ToolKind::Hammer), weapon: Some(WeaponKind::Melee), ..held(ItemId::Wood) }
}

fn sword() -> HeldItem {
    HeldItem { weapon: Some(WeaponKind::Melee), ..held(ItemId::GoldBar) }
}

fn bow() -> HeldItem {
    HeldItem { weapon: Some(WeaponKind::Bow), ..held(ItemId::Wood) }
}

fn world() -> World {
    let mut w = World::new(20, 20);
    w.set_tile(3, 3, Tile::of(TileId::Stone));
    w.set_tile(4, 4, Tile { wall: WallId::Wood, ..Tile::air() });
    w
}

fn slots() -> Vec<Option<InvSlot>> {
    vec![None; 59]
}

#[test]
fn a_tool_mines_the_aimed_block_in_reach() {
    let w = world();
    let r = primary_intent(&w, Some(pickaxe()), &slots(), Some((3, 3)), true);
    assert_eq!(r, PrimaryIntent::HitTile { x: 3, y: 3 });
    // Out of reach the pickaxe swings as a weapon instead.
    let r = primary_intent(&w, Some(pickaxe()), &slots(), Some((3, 3)), false);
    assert_eq!(r, PrimaryIntent::UseItem { bow: false });
}

#[test]
fn only_a_hammer_hits_a_wall_behind_an_empty_cell() {
    let w = world();
    let r = primary_intent(&w, Some(hammer()), &slots(), Some((4, 4)), true);
    assert_eq!(r, PrimaryIntent::HitWall { x: 4, y: 4 });
    let r = primary_intent(&w, Some(pickaxe()), &slots(), Some((4, 4)), true);
    assert_eq!(r, PrimaryIntent::UseItem { bow: false });
    // A tool with no weapon row, aiming at air, sends nothing.
    let axe = HeldItem { tool: Some(ToolKind::Axe), ..held(ItemId::CopperAxe) };
    let r = primary_intent(&w, Some(axe), &slots(), Some((5, 5)), true);
    assert_eq!(r, PrimaryIntent::Idle);
}

#[test]
fn a_weapon_only_item_never_mines() {
    let w = world();
    let r = primary_intent(&w, Some(sword()), &slots(), Some((3, 3)), true);
    assert_eq!(r, PrimaryIntent::UseItem { bow: false });
    let r = primary_intent(&w, Some(sword()), &slots(), None, false);
    assert_eq!(r, PrimaryIntent::UseItem { bow: false });
}

#[test]
fn a_bow_fires_only_with_arrows_carried() {
    let w = world();
    let mut s = slots();
    assert_eq!(primary_intent(&w, Some(bow()), &s, Some((3, 3)), true), PrimaryIntent::Idle);
    s[12] = Some(InvSlot::new(ItemId::WoodenArrow, 5));
    assert_eq!(primary_intent(&w, Some(bow()), &s, Some((3, 3)), true), PrimaryIntent::UseItem { bow: true });
    // Arrows in an armor slot do not count.
    let mut s = slots();
    s[51] = Some(InvSlot::new(ItemId::WoodenArrow, 5));
    assert_eq!(primary_intent(&w, Some(bow()), &s, None, false), PrimaryIntent::Idle);
}

#[test]
fn consumables_and_arrow_rows_on_the_left_button() {
    let w = world();
    let potion = HeldItem { consumable: true, ..held(ItemId::LesserHealingPotion) };
    assert_eq!(primary_intent(&w, Some(potion), &slots(), None, false), PrimaryIntent::UseItem { bow: false });
    // Arrows are ammunition: holding them swings nothing.
    let arrows = HeldItem { weapon: Some(WeaponKind::Arrow), ..held(ItemId::WoodenArrow) };
    assert_eq!(primary_intent(&w, Some(arrows), &slots(), None, false), PrimaryIntent::Idle);
    assert_eq!(primary_intent(&w, None, &slots(), None, false), PrimaryIntent::Idle);
    // Whatever is not only a weapon mines an aimed block in reach first
    // (the server decides what the hand or the potion can break).
    assert_eq!(primary_intent(&w, None, &slots(), Some((3, 3)), true), PrimaryIntent::HitTile { x: 3, y: 3 });
    assert_eq!(primary_intent(&w, Some(potion), &slots(), Some((3, 3)), true), PrimaryIntent::HitTile { x: 3, y: 3 });
}

#[test]
fn right_press_toggles_doors_and_opens_chests_at_their_origin() {
    let mut w = world();
    w.set_tile(8, 8, Tile::of(TileId::Door));
    assert!(w.place_multitile(10, 10, TileId::Chest));
    assert_eq!(
        secondary_intent(&w, None, Some((8, 8)), true, true, true),
        SecondaryIntent::ToggleDoor { x: 8, y: 8 }
    );
    assert_eq!(
        secondary_intent(&w, None, Some((11, 11)), true, true, true),
        SecondaryIntent::OpenChest { x: 10, y: 10 }
    );
    // Held down but not pressed this frame: nothing to place, nothing sent.
    assert_eq!(secondary_intent(&w, None, Some((8, 8)), true, false, true), SecondaryIntent::Idle);
    // Out of reach or off the world: nothing.
    assert_eq!(secondary_intent(&w, None, Some((8, 8)), false, true, true), SecondaryIntent::Idle);
    assert_eq!(secondary_intent(&w, None, None, true, true, true), SecondaryIntent::Idle);
}

#[test]
fn a_bottle_goes_on_a_bare_table_or_workbench() {
    let mut w = world();
    assert!(w.place_multitile(2, 10, TileId::Table));
    let bottle = held(ItemId::Bottle);
    assert_eq!(
        secondary_intent(&w, Some(bottle), Some((3, 11)), true, true, true),
        SecondaryIntent::PutBottle { x: 3, y: 11 }
    );
    let mut t = w.tile(3, 11);
    t.state |= state::BOTTLE_ON_TOP;
    w.set_tile(3, 11, t);
    assert_eq!(secondary_intent(&w, Some(bottle), Some((3, 11)), true, true, true), SecondaryIntent::Idle);
    // Anything else held: no bottle intent.
    assert_eq!(secondary_intent(&w, Some(held(ItemId::Gel)), Some((2, 10)), true, true, false), SecondaryIntent::Idle);
}

#[test]
fn right_hold_places_blocks_in_air_and_walls_on_bare_cells() {
    let w = world();
    let dirt = HeldItem { places: Some(Placement::Tile(TileId::Dirt)), ..held(ItemId::Dirt) };
    let wall = HeldItem { places: Some(Placement::Wall(WallId::Wood)), ..held(ItemId::Wood) };
    assert_eq!(
        secondary_intent(&w, Some(dirt), Some((5, 5)), true, false, true),
        SecondaryIntent::PlaceTile { x: 5, y: 5 }
    );
    assert_eq!(secondary_intent(&w, Some(dirt), Some((3, 3)), true, false, true), SecondaryIntent::Idle);
    assert_eq!(
        secondary_intent(&w, Some(wall), Some((3, 3)), true, false, true),
        SecondaryIntent::PlaceWall { x: 3, y: 3 }
    );
    assert_eq!(secondary_intent(&w, Some(wall), Some((4, 4)), true, false, true), SecondaryIntent::Idle);
    // Not held down (repeat not ready): nothing.
    assert_eq!(secondary_intent(&w, Some(dirt), Some((5, 5)), true, false, false), SecondaryIntent::Idle);
}
