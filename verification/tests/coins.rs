use ferraria::coins::{add_coins, coin_total, coin_value, is_coin, remove_coins};
use ferraria::items::inventory::{ARMOR_START, TOTAL, TRASH};
use ferraria::items::{InvSlot, ItemId};

fn empty() -> Vec<Option<InvSlot>> {
    vec![None; TOTAL]
}

fn count(inv: &[Option<InvSlot>], item: ItemId) -> u32 {
    inv.iter()
        .flatten()
        .filter(|s| s.item == item)
        .map(|s| s.count as u32)
        .sum()
}

#[test]
fn totals_count_denominations_in_carry_slots_only() {
    let mut inv = empty();
    inv[0] = Some(InvSlot::new(ItemId::SilverCoin, 50));
    inv[11] = Some(InvSlot::new(ItemId::CopperCoin, 34));
    inv[12] = Some(InvSlot::new(ItemId::GoldCoin, 2));
    inv[13] = Some(InvSlot::new(ItemId::GoldBar, 5)); // not a coin
    inv[TRASH] = Some(InvSlot::new(ItemId::PlatinumCoin, 1)); // trash ignored
    assert_eq!(coin_total(&inv), 50 * 100 + 34 + 2 * 10_000);
}

#[test]
fn add_coins_uses_canonical_denominations() {
    let mut inv = empty();
    let (changed, overflow) = add_coins(&mut inv, 1_020_304);
    assert!(overflow.is_empty());
    assert_eq!(changed, vec![0, 1, 2, 3]);
    assert_eq!(inv[0], Some(InvSlot::new(ItemId::PlatinumCoin, 1)));
    assert_eq!(inv[1], Some(InvSlot::new(ItemId::GoldCoin, 2)));
    assert_eq!(inv[2], Some(InvSlot::new(ItemId::SilverCoin, 3)));
    assert_eq!(inv[3], Some(InvSlot::new(ItemId::CopperCoin, 4)));
    assert_eq!(coin_total(&inv), 1_020_304);
}

#[test]
fn add_coins_overflows_when_full() {
    let mut inv = empty();
    for s in inv.iter_mut().take(ARMOR_START) {
        *s = Some(InvSlot::new(ItemId::Stone, 999));
    }
    inv[0] = Some(InvSlot::new(ItemId::CopperCoin, 990));
    let (changed, overflow) = add_coins(&mut inv, 50);
    assert_eq!(changed, vec![0]);
    assert_eq!(inv[0], Some(InvSlot::new(ItemId::CopperCoin, 999)));
    assert_eq!(overflow, vec![InvSlot::new(ItemId::CopperCoin, 41)]);
}

#[test]
fn remove_coins_exact_and_insufficient() {
    let mut inv = empty();
    inv[0] = Some(InvSlot::new(ItemId::CopperCoin, 30));
    inv[1] = Some(InvSlot::new(ItemId::SilverCoin, 2));
    // Insufficient: untouched.
    let before = inv.clone();
    assert_eq!(remove_coins(&mut inv, 231), None);
    assert_eq!(inv, before);
    // Exact spend of the coppers.
    let (changed, overflow) = remove_coins(&mut inv, 30).expect("affordable");
    assert!(overflow.is_empty());
    assert_eq!(changed, vec![0]);
    assert_eq!(inv[0], None);
    assert_eq!(coin_total(&inv), 200);
}

#[test]
fn remove_coins_breaks_larger_denominations_into_change() {
    let mut inv = empty();
    inv[0] = Some(InvSlot::new(ItemId::GoldCoin, 1));
    let (_, overflow) = remove_coins(&mut inv, 1).expect("affordable");
    assert!(overflow.is_empty());
    assert_eq!(coin_total(&inv), 9_999);
    // Change came back as canonical denominations.
    let golds: u32 = count(&inv, ItemId::GoldCoin);
    let silvers: u32 = count(&inv, ItemId::SilverCoin);
    let coppers: u32 = count(&inv, ItemId::CopperCoin);
    assert_eq!((golds, silvers, coppers), (0, 99, 99));
}

#[test]
fn remove_coins_prefers_small_denominations_first() {
    let mut inv = empty();
    inv[0] = Some(InvSlot::new(ItemId::PlatinumCoin, 1));
    inv[1] = Some(InvSlot::new(ItemId::CopperCoin, 100));
    let (_, overflow) = remove_coins(&mut inv, 100).expect("affordable");
    assert!(overflow.is_empty());
    assert_eq!(
        inv[0],
        Some(InvSlot::new(ItemId::PlatinumCoin, 1)),
        "the platinum was never broken"
    );
    assert_eq!(coin_total(&inv), 1_000_000);
}

#[test]
fn remove_coins_change_overflow_is_returned() {
    // Pay 1 CC from a gold coin with every other slot full: the spent
    // gold's slot takes the 99 silver of change, and the 99 copper that has
    // no slot left comes back as overflow for the caller to drop.
    let mut inv = empty();
    for s in inv.iter_mut().take(ARMOR_START) {
        *s = Some(InvSlot::new(ItemId::Stone, 999));
    }
    inv[0] = Some(InvSlot::new(ItemId::GoldCoin, 1));
    let (changed, overflow) = remove_coins(&mut inv, 1).expect("affordable");
    assert_eq!(
        inv[0],
        Some(InvSlot::new(ItemId::SilverCoin, 99)),
        "the gold was spent; its slot took the silver change"
    );
    assert!(changed.contains(&0));
    let spilled: u64 = overflow
        .iter()
        .map(|s| coin_value(s.item) as u64 * s.count as u64)
        .sum();
    assert_eq!(spilled, 99, "the homeless copper change spilled");
    assert_eq!(coin_total(&inv) + spilled, 9_999, "no value lost");
}

#[test]
fn remove_coins_across_multiple_players_worth_of_stacks() {
    // Mixed denominations summing to 50 SC across several stacks.
    let mut inv = empty();
    inv[3] = Some(InvSlot::new(ItemId::SilverCoin, 49));
    inv[7] = Some(InvSlot::new(ItemId::CopperCoin, 100));
    assert_eq!(coin_total(&inv), 5_000);
    let (_, overflow) = remove_coins(&mut inv, 5_000).expect("affordable");
    assert!(overflow.is_empty());
    assert_eq!(coin_total(&inv), 0);
    assert!(inv.iter().flatten().all(|s| !is_coin(s.item)));
}

// ---- Own tests ---------------------------------------------------------------

#[test]
fn add_then_remove_restores_the_wealth() {
    let mut inv = empty();
    inv[5] = Some(InvSlot::new(ItemId::SilverCoin, 7));
    let before = coin_total(&inv);
    let (_, overflow) = add_coins(&mut inv, 123_456);
    assert!(overflow.is_empty());
    assert_eq!(coin_total(&inv), before + 123_456);
    let (_, overflow) = remove_coins(&mut inv, 123_456).expect("affordable");
    assert!(overflow.is_empty());
    assert_eq!(coin_total(&inv), before);
}

#[test]
fn add_to_a_full_inventory_spills_everything() {
    let mut inv = empty();
    for s in inv.iter_mut().take(ARMOR_START) {
        *s = Some(InvSlot::new(ItemId::Stone, 999));
    }
    let (changed, overflow) = add_coins(&mut inv, 10_203);
    assert!(changed.is_empty());
    let spilled: u64 = overflow
        .iter()
        .map(|s| coin_value(s.item) as u64 * s.count as u64)
        .sum();
    assert_eq!(spilled, 10_203);
}
