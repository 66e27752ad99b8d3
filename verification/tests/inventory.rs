use ferraria::coins::{add_coins, remove_coins};
use ferraria::items::inventory::{ARMOR_START, TOTAL, TRASH};
use ferraria::items::{add_to_inventory, has_arrows, InvSlot, ItemId};

fn empty() -> Vec<Option<InvSlot>> {
    vec![None; TOTAL]
}

#[test]
fn adding_tops_up_stacks_in_slot_order_before_empty_slots() {
    let mut inv = empty();
    inv[3] = Some(InvSlot::new(ItemId::Torch, 990));
    inv[7] = Some(InvSlot::new(ItemId::Torch, 998));
    let (added, changed) = add_to_inventory(&mut inv, ItemId::Torch, 20);
    assert_eq!(added, 20);
    assert_eq!(changed, vec![0, 3, 7]);
    assert_eq!(inv[3], Some(InvSlot::new(ItemId::Torch, 999)));
    assert_eq!(inv[7], Some(InvSlot::new(ItemId::Torch, 999)));
    assert_eq!(inv[0], Some(InvSlot::new(ItemId::Torch, 10)), "the rest in the first empty slot");
    assert_eq!(inv[1], None);
}

#[test]
fn adding_fills_empty_slots_a_full_stack_at_a_time() {
    let mut inv = empty();
    inv[0] = Some(InvSlot::new(ItemId::Stone, 5));
    let (added, changed) = add_to_inventory(&mut inv, ItemId::LesserHealingPotion, 70);
    assert_eq!(added, 70);
    assert_eq!(changed, vec![1, 2, 3]);
    assert_eq!(inv[1], Some(InvSlot::new(ItemId::LesserHealingPotion, 30)));
    assert_eq!(inv[2], Some(InvSlot::new(ItemId::LesserHealingPotion, 30)));
    assert_eq!(inv[3], Some(InvSlot::new(ItemId::LesserHealingPotion, 10)));
}

#[test]
fn adding_stops_at_the_carry_slots() {
    let mut inv = empty();
    for s in inv.iter_mut().take(ARMOR_START) {
        *s = Some(InvSlot::new(ItemId::Stone, 999));
    }
    inv[2] = Some(InvSlot::new(ItemId::Torch, 995));
    let (added, changed) = add_to_inventory(&mut inv, ItemId::Torch, 10);
    assert_eq!(added, 4, "only the room left in the open stack");
    assert_eq!(changed, vec![2]);
    assert_eq!(inv[2], Some(InvSlot::new(ItemId::Torch, 999)));
    assert!(inv[ARMOR_START..].iter().all(|s| s.is_none()), "armor and trash untouched");
    assert_eq!(inv[TRASH], None);
}

#[test]
fn granted_coins_go_largest_first_into_slots_in_fill_order() {
    let mut inv = empty();
    inv[4] = Some(InvSlot::new(ItemId::SilverCoin, 990));
    let (changed, overflow) = add_coins(&mut inv, 1_020_304);
    assert!(overflow.is_empty());
    // Platinum and gold take the first empty slots, the silver tops up its
    // stack, and copper takes the next empty slot.
    assert_eq!(inv[0], Some(InvSlot::new(ItemId::PlatinumCoin, 1)));
    assert_eq!(inv[1], Some(InvSlot::new(ItemId::GoldCoin, 2)));
    assert_eq!(inv[4], Some(InvSlot::new(ItemId::SilverCoin, 993)));
    assert_eq!(inv[2], Some(InvSlot::new(ItemId::CopperCoin, 4)));
    assert_eq!(changed, vec![0, 1, 2, 4]);
}

#[test]
fn paying_drains_stacks_in_slot_order() {
    let mut inv = empty();
    inv[2] = Some(InvSlot::new(ItemId::CopperCoin, 5));
    inv[9] = Some(InvSlot::new(ItemId::CopperCoin, 5));
    inv[11] = Some(InvSlot::new(ItemId::SilverCoin, 1));
    let (changed, overflow) = remove_coins(&mut inv, 7).expect("affordable");
    assert!(overflow.is_empty());
    assert_eq!(changed, vec![2, 9]);
    assert_eq!(inv[2], None, "the first stack is emptied");
    assert_eq!(inv[9], Some(InvSlot::new(ItemId::CopperCoin, 3)));
    assert_eq!(inv[11], Some(InvSlot::new(ItemId::SilverCoin, 1)), "silver untouched");
}

#[test]
fn arrows_count_only_in_the_carry_slots() {
    let mut inv = empty();
    assert!(!has_arrows(&inv));
    inv[ARMOR_START] = Some(InvSlot::new(ItemId::WoodenArrow, 10));
    inv[TRASH] = Some(InvSlot::new(ItemId::WoodenArrow, 10));
    assert!(!has_arrows(&inv), "armor and trash slots don't count");
    inv[12] = Some(InvSlot::new(ItemId::WoodenArrow, 1));
    assert!(has_arrows(&inv));
}
