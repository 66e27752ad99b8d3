//! Items and the flat inventory layout: the item ids the game rules
//! touch, their base value and stack size, and stack insertion.
//!
//! The inventory is a flat array of optional stacks. Its first
//! [`inventory::ARMOR_START`] entries are the carry slots (hotbar +
//! backpack); armor, accessories and the trash slot follow. Insertion
//! only ever touches carry slots.

pub mod inventory;

use vstd::prelude::*;

verus! {

/// The items the shared rules name.
#[derive(Debug, Clone, Copy, PartialEq, Eq, Structural)]
pub enum ItemId {
    Dirt,
    Stone,
    Wood,
    Gel,
    Platform,
    Torch,
    Bottle,
    WoodenArrow,
    GoldBar,
    LesserHealingPotion,
    WoodPickaxe,
    CopperPickaxe,
    CopperAxe,
    Anvil,
    MiningHelmet,
    CopperCoin,
    SilverCoin,
    GoldCoin,
    PlatinumCoin,
}

/// Base value of one item, in copper coins.
pub open spec fn spec_value(item: ItemId) -> u32 {
    match item {
        ItemId::Dirt => 0,
        ItemId::Stone => 0,
        ItemId::Wood => 10,
        ItemId::Gel => 5,
        ItemId::Platform => 4,
        ItemId::Torch => 50,
        ItemId::Bottle => 20,
        ItemId::WoodenArrow => 5,
        ItemId::GoldBar => 1200,
        ItemId::LesserHealingPotion => 300,
        ItemId::WoodPickaxe => 100,
        ItemId::CopperPickaxe => 500,
        ItemId::CopperAxe => 400,
        ItemId::Anvil => 5000,
        ItemId::MiningHelmet => 40000,
        ItemId::CopperCoin => 1,
        ItemId::SilverCoin => 100,
        ItemId::GoldCoin => 10000,
        ItemId::PlatinumCoin => 1000000,
    }
}

/// Largest stack of one item a slot holds.
pub open spec fn spec_max_stack(item: ItemId) -> u16 {
    match item {
        ItemId::LesserHealingPotion => 30,
        ItemId::WoodPickaxe => 1,
        ItemId::CopperPickaxe => 1,
        ItemId::CopperAxe => 1,
        ItemId::MiningHelmet => 1,
        ItemId::Anvil => 99,
        _ => 999,
    }
}

impl ItemId {
    /// Base value of one item, in copper coins.
    pub fn value(self) -> (v: u32)
        ensures
            v == spec_value(self),
    {
        match self {
            ItemId::Dirt => 0,
            ItemId::Stone => 0,
            ItemId::Wood => 10,
            ItemId::Gel => 5,
            ItemId::Platform => 4,
            ItemId::Torch => 50,
            ItemId::Bottle => 20,
            ItemId::WoodenArrow => 5,
            ItemId::GoldBar => 1200,
            ItemId::LesserHealingPotion => 300,
            ItemId::WoodPickaxe => 100,
            ItemId::CopperPickaxe => 500,
            ItemId::CopperAxe => 400,
            ItemId::Anvil => 5000,
            ItemId::MiningHelmet => 40000,
            ItemId::CopperCoin => 1,
            ItemId::SilverCoin => 100,
            ItemId::GoldCoin => 10000,
            ItemId::PlatinumCoin => 1000000,
        }
    }

    /// Largest stack of this item a slot holds.
    pub fn max_stack(self) -> (m: u16)
        ensures
            m == spec_max_stack(self),
            m >= 1,
    {
        match self {
            ItemId::LesserHealingPotion => 30,
            ItemId::WoodPickaxe => 1,
            ItemId::CopperPickaxe => 1,
            ItemId::CopperAxe => 1,
            ItemId::MiningHelmet => 1,
            ItemId::Anvil => 99,
            _ => 999,
        }
    }

    /// Display name.
    pub open spec fn spec_name(self) -> Seq<char> {
        match self {
            ItemId::Dirt => "Dirt Block"@,
            ItemId::Stone => "Stone Block"@,
            ItemId::Wood => "Wood"@,
            ItemId::Gel => "Gel"@,
            ItemId::Platform => "Wood Platform"@,
            ItemId::Torch => "Torch"@,
            ItemId::Bottle => "Bottle"@,
            ItemId::WoodenArrow => "Wooden Arrow"@,
            ItemId::GoldBar => "Gold Bar"@,
            ItemId::LesserHealingPotion => "Lesser Healing Potion"@,
            ItemId::WoodPickaxe => "Wood Pickaxe"@,
            ItemId::CopperPickaxe => "Copper Pickaxe"@,
            ItemId::CopperAxe => "Copper Axe"@,
            ItemId::Anvil => "Iron Anvil"@,
            ItemId::MiningHelmet => "Mining Helmet"@,
            ItemId::CopperCoin => "Copper Coin"@,
            ItemId::SilverCoin => "Silver Coin"@,
            ItemId::GoldCoin => "Gold Coin"@,
            ItemId::PlatinumCoin => "Platinum Coin"@,
        }
    }

    /// Display name.
    pub fn name(self) -> (n: &'static str)
        ensures
            n@ == self.spec_name(),
    {
        match self {
            ItemId::Dirt => "Dirt Block",
            ItemId::Stone => "Stone Block",
            ItemId::Wood => "Wood",
            ItemId::Gel => "Gel",
            ItemId::Platform => "Wood Platform",
            ItemId::Torch => "Torch",
            ItemId::Bottle => "Bottle",
            ItemId::WoodenArrow => "Wooden Arrow",
            ItemId::GoldBar => "Gold Bar",
            ItemId::LesserHealingPotion => "Lesser Healing Potion",
            ItemId::WoodPickaxe => "Wood Pickaxe",
            ItemId::CopperPickaxe => "Copper Pickaxe",
            ItemId::CopperAxe => "Copper Axe",
            ItemId::Anvil => "Iron Anvil",
            ItemId::MiningHelmet => "Mining Helmet",
            ItemId::CopperCoin => "Copper Coin",
            ItemId::SilverCoin => "Silver Coin",
            ItemId::GoldCoin => "Gold Coin",
            ItemId::PlatinumCoin => "Platinum Coin",
        }
    }
}

/// One inventory stack: `{item, count}`; an empty slot is `None`.
#[derive(Debug, Clone, Copy, PartialEq, Eq, Structural)]
pub struct InvSlot {
    pub item: ItemId,
    pub count: u16,
}

impl InvSlot {
    pub fn new(item: ItemId, count: u16) -> (s: InvSlot)
        ensures
            s.item == item,
            s.count == count,
    {
        InvSlot { item, count }
    }
}

/// Number of carry slots in an inventory of `len` slots.
pub open spec fn carry_len(len: int) -> int {
    if len < inventory::ARMOR_START as int {
        len
    } else {
        inventory::ARMOR_START as int
    }
}

/// How many of `item` slot `slot` holds.
pub open spec fn slot_count(slot: Option<InvSlot>, item: ItemId) -> int {
    match slot {
        Some(s) => if s.item == item {
            s.count as int
        } else {
            0
        },
        None => 0,
    }
}

/// Total count of `item` in the first `n` slots of `s`.
pub open spec fn count_in(s: Seq<Option<InvSlot>>, item: ItemId, n: int) -> int
    decreases n,
{
    if n <= 0 {
        0
    } else {
        count_in(s, item, n - 1) + slot_count(s[n - 1], item)
    }
}

/// Total count of `item` in the carry slots of `s`.
pub open spec fn carried(s: Seq<Option<InvSlot>>, item: ItemId) -> int {
    count_in(s, item, carry_len(s.len() as int))
}

/// How many more of `item` slot `slot` could take.
pub open spec fn slot_room(slot: Option<InvSlot>, item: ItemId) -> int {
    match slot {
        Some(s) => if s.item == item && s.count < spec_max_stack(item) {
            spec_max_stack(item) - s.count
        } else {
            0
        },
        None => spec_max_stack(item) as int,
    }
}

/// Room for `item` in the first `n` slots of `s`.
pub open spec fn room_in(s: Seq<Option<InvSlot>>, item: ItemId, n: int) -> int
    decreases n,
{
    if n <= 0 {
        0
    } else {
        room_in(s, item, n - 1) + slot_room(s[n - 1], item)
    }
}

/// Room for `item` in the carry slots of `s`.
pub open spec fn carry_room(s: Seq<Option<InvSlot>>, item: ItemId) -> int {
    room_in(s, item, carry_len(s.len() as int))
}

/// Slot `new` holds more of `item` than slot `old`, and `old` held nothing
/// else.
pub open spec fn grown_slot(old: Option<InvSlot>, new: Option<InvSlot>, item: ItemId) -> bool {
    match new {
        Some(ns) => ns.item == item && match old {
            Some(os) => os.item == item && os.count < ns.count,
            None => true,
        },
        None => false,
    }
}

/// Slot `slot` is no stack of `item` with room left.
pub open spec fn no_open_stack(slot: Option<InvSlot>, item: ItemId) -> bool {
    match slot {
        Some(s) => s.item != item || s.count >= spec_max_stack(item),
        None => true,
    }
}

/// In the fill order of an inventory `old` (stacks first, then empty slots,
/// each by slot index), slot `a` comes before slot `b`.
pub open spec fn fills_before(old: Seq<Option<InvSlot>>, a: int, b: int) -> bool {
    ||| old[a] is Some && old[b] is None
    ||| a < b && (old[a] is Some <==> old[b] is Some)
}

/// `new` was filled from `old` in fill order: no slot changed while a carry
/// slot before it in fill order still had room for `item`.
pub open spec fn filled_in_order(old: Seq<Option<InvSlot>>, new: Seq<Option<InvSlot>>, item: ItemId) -> bool {
    forall|a: int, b: int|
        0 <= a < carry_len(old.len() as int) && 0 <= b < old.len() && #[trigger] fills_before(
            old,
            a,
            b,
        ) && new[b] != old[b] && slot_room(old[a], item) > 0 ==> slot_room(new[a], item) == 0
}

/// `list` names, in increasing order, exactly the slots where `new`
/// differs from `old`.
pub open spec fn lists_changes(old: Seq<Option<InvSlot>>, new: Seq<Option<InvSlot>>, list: Seq<usize>) -> bool {
    &&& forall|a: int, b: int| 0 <= a < b < list.len() ==> list[a] < list[b]
    &&& forall|k: int| 0 <= k < list.len() ==> #[trigger] list[k] < new.len()
    &&& forall|i: int| 0 <= i < new.len() ==> (list.contains(i as usize) <==> new[i] != old[i])
}

/// `new` differs from `old` only by more of `item` in carry slots: every
/// changed slot now holds `item` and held nothing or `item` before, and no
/// count of `item` went down.
pub open spec fn only_added(old: Seq<Option<InvSlot>>, new: Seq<Option<InvSlot>>, item: ItemId) -> bool {
    &&& new.len() == old.len()
    &&& forall|i: int|
        0 <= i < old.len() && new[i] != old[i] ==> {
            &&& i < carry_len(old.len() as int)
            &&& grown_slot(old[i], new[i], item)
        }
}

/// Changing one slot changes the running count by the slot difference.
pub proof fn lemma_count_in_update(
    s: Seq<Option<InvSlot>>,
    i: int,
    v: Option<InvSlot>,
    item: ItemId,
    n: int,
)
    requires
        0 <= i < s.len(),
        0 <= n <= s.len(),
    ensures
        count_in(s.update(i, v), item, n) == count_in(s, item, n) + (if i < n {
            slot_count(v, item) - slot_count(s[i], item)
        } else {
            0
        }),
    decreases n,
{
    if n > 0 {
        lemma_count_in_update(s, i, v, item, n - 1);
    }
}

/// Changing one slot changes the running room by the slot difference.
pub proof fn lemma_room_in_update(
    s: Seq<Option<InvSlot>>,
    i: int,
    v: Option<InvSlot>,
    item: ItemId,
    n: int,
)
    requires
        0 <= i < s.len(),
        0 <= n <= s.len(),
    ensures
        room_in(s.update(i, v), item, n) == room_in(s, item, n) + (if i < n {
            slot_room(v, item) - slot_room(s[i], item)
        } else {
            0
        }),
    decreases n,
{
    if n > 0 {
        lemma_room_in_update(s, i, v, item, n - 1);
    }
}

/// Counts are never negative.
pub proof fn lemma_count_in_nonneg(s: Seq<Option<InvSlot>>, item: ItemId, n: int)
    ensures
        count_in(s, item, n) >= 0,
    decreases n,
{
    if n > 0 {
        lemma_count_in_nonneg(s, item, n - 1);
    }
}

/// Room is never negative.
pub proof fn lemma_room_in_nonneg(s: Seq<Option<InvSlot>>, item: ItemId, n: int)
    ensures
        room_in(s, item, n) >= 0,
    decreases n,
{
    if n > 0 {
        lemma_room_in_nonneg(s, item, n - 1);
    }
}

/// Slots that agree on the first `n` entries agree on counts there.
pub proof fn lemma_count_in_prefix(a: Seq<Option<InvSlot>>, b: Seq<Option<InvSlot>>, item: ItemId, n: int)
    requires
        0 <= n <= a.len(),
        n <= b.len(),
        forall|i: int| 0 <= i < n ==> a[i] == b[i],
    ensures
        count_in(a, item, n) == count_in(b, item, n),
    decreases n,
{
    if n > 0 {
        lemma_count_in_prefix(a, b, item, n - 1);
    }
}

/// The first `n` slots of `s` have no room for `item`.
pub proof fn lemma_room_in_zero(s: Seq<Option<InvSlot>>, item: ItemId, n: int)
    requires
        0 <= n <= s.len(),
        forall|j: int| 0 <= j < n ==> slot_room(#[trigger] s[j], item) == 0,
    ensures
        room_in(s, item, n) == 0,
    decreases n,
{
    if n > 0 {
        lemma_room_in_zero(s, item, n - 1);
    }
}

/// Indices `j < len` with `marked[j]`, in increasing order.
pub fn marked_indices(marked: &Vec<bool>) -> (res: Vec<usize>)
    ensures
        forall|k: int| 0 <= k < res@.len() ==> #[trigger] res@[k] < marked@.len() && marked@[res@[k] as int],
        forall|a: int, b: int| 0 <= a < b < res@.len() ==> res@[a] < res@[b],
        forall|j: int| 0 <= j < marked@.len() && marked@[j] ==> res@.contains(j as usize),
{
    let mut res: Vec<usize> = Vec::new();
    let mut k: usize = 0;
    while k < marked.len()
        invariant
            k <= marked@.len(),
            forall|j: int| 0 <= j < res@.len() ==> #[trigger] res@[j] < k && marked@[res@[j] as int],
            forall|a: int, b: int| 0 <= a < b < res@.len() ==> res@[a] < res@[b],
            forall|j: int| 0 <= j < k && marked@[j] ==> res@.contains(j as usize),
        decreases marked@.len() - k,
    {
        let ghost prev = res@;
        if marked[k] {
            res.push(k);
            proof {
                assert(res@[res@.len() - 1] == k);
            }
        }
        proof {
            assert forall|j: int| 0 <= j < k + 1 && marked@[j] implies res@.contains(j as usize) by {
                if j < k {
                    let w = choose|w: int| 0 <= w < prev.len() && prev[w] == j as usize;
                    assert(res@[w] == j as usize);
                } else {
                    assert(res@[res@.len() - 1] == k);
                }
            }
        }
        k = k + 1;
    }
    res
}

/// A vector of `n` `false` flags.
pub fn no_marks(n: usize) -> (res: Vec<bool>)
    ensures
        res@.len() == n,
        forall|k: int| 0 <= k < n ==> !res@[k],
{
    let mut res: Vec<bool> = Vec::new();
    while res.len() < n
        invariant
            res@.len() <= n,
            forall|k: int| 0 <= k < res@.len() ==> !res@[k],
        decreases n - res@.len(),
    {
        res.push(false);
    }
    res
}

/// `item` is ammunition for a bow.
pub open spec fn spec_is_arrow(item: ItemId) -> bool {
    item == ItemId::WoodenArrow
}

/// Some carry slot (hotbar or backpack) holds a stack of arrows: the check
/// before a bow is drawn.
pub fn has_arrows(slots: &Vec<Option<InvSlot>>) -> (r: bool)
    ensures
        r == exists|i: int|
            0 <= i < carry_len(slots@.len() as int) && #[trigger] slots@[i] is Some && spec_is_arrow(
                slots@[i]->Some_0.item,
            ),
{
    let carry = if slots.len() < inventory::ARMOR_START {
        slots.len()
    } else {
        inventory::ARMOR_START
    };
    let mut i: usize = 0;
    while i < carry
        invariant
            carry == carry_len(slots@.len() as int),
            carry <= slots@.len(),
            i <= carry,
            forall|j: int|
                0 <= j < i ==> !(#[trigger] slots@[j] is Some && spec_is_arrow(slots@[j]->Some_0.item)),
        decreases carry - i,
    {
        if let Some(s) = slots[i] {
            if let ItemId::WoodenArrow = s.item {
                return true;
            }
        }
        i = i + 1;
    }
    false
}

/// Adds up to `count` of `item` to the carry slots: first topping up
/// existing stacks of `item` in slot order, then filling empty slots in
/// slot order. Returns how many were added (all of `count`, or as many as
/// there was room for) and the changed slot indices, increasing.
pub fn add_to_inventory(slots: &mut Vec<Option<InvSlot>>, item: ItemId, count: u16) -> (res: (
    u16,
    Vec<usize>,
))
    ensures
        only_added(old(slots)@, final(slots)@, item),
        filled_in_order(old(slots)@, final(slots)@, item),
        res.0 as int == if count as int <= carry_room(old(slots)@, item) {
            count as int
        } else {
            carry_room(old(slots)@, item)
        },
        carried(final(slots)@, item) == carried(old(slots)@, item) + res.0,
        carry_room(final(slots)@, item) == carry_room(old(slots)@, item) - res.0,
        forall|a: int, b: int| 0 <= a < b < res.1@.len() ==> res.1@[a] < res.1@[b],
        forall|k: int| 0 <= k < res.1@.len() ==> #[trigger] res.1@[k] < final(slots)@.len(),
        forall|i: int|
            0 <= i < final(slots)@.len() ==> (res.1@.contains(i as usize) <==> final(slots)@[i]
                != old(slots)@[i]),
{
    let max = item.max_stack();
    let carry = if slots.len() < inventory::ARMOR_START {
        slots.len()
    } else {
        inventory::ARMOR_START
    };
    let ghost s0 = slots@;
    let mut left: u16 = count;
    let mut marked = no_marks(slots.len());
    // Pass 1: top up existing stacks of `item`.
    let mut i: usize = 0;
    while i < carry
        invariant
            carry == carry_len(s0.len() as int),
            carry <= slots@.len(),
            i <= carry,
            max == spec_max_stack(item),
            left <= count,
            marked@.len() == slots@.len(),
            only_added(s0, slots@, item),
            count_in(slots@, item, carry as int) == count_in(s0, item, carry as int) + (count - left),
            room_in(slots@, item, carry as int) == room_in(s0, item, carry as int) - (count - left),
            forall|j: int| i <= j < slots@.len() ==> slots@[j] == s0[j],
            forall|j: int| 0 <= j < slots@.len() && slots@[j] != s0[j] ==> s0[j] is Some,
            filled_in_order(s0, slots@, item),
            left > 0 ==> forall|j: int|
                0 <= j < i ==> no_open_stack(#[trigger] slots@[j], item),
            forall|j: int| 0 <= j < slots@.len() ==> (marked@[j] <==> slots@[j] != s0[j]),
        decreases carry - i,
    {
        if left > 0 {
            match slots[i] {
                Some(s) => {
                    if s.item == item && s.count < max {
                        let room = max - s.count;
                        let take = if room < left { room } else { left };
                        let ghost before = slots@;
                        let ns = InvSlot { item, count: s.count + take };
                        slots.set(i, Some(ns));
                        proof {
                            lemma_count_in_update(before, i as int, Some(ns), item, carry as int);
                            lemma_room_in_update(before, i as int, Some(ns), item, carry as int);
                            assert forall|a: int, b: int|
                                0 <= a < carry_len(s0.len() as int) && 0 <= b < s0.len()
                                    && #[trigger] fills_before(s0, a, b) && slots@[b] != s0[b]
                                    && slot_room(s0[a], item) > 0 implies slot_room(
                                slots@[a],
                                item,
                            ) == 0 by {
                                if b == i {
                                    assert(no_open_stack(before[a], item));
                                    assert(before[a] is Some);
                                } else {
                                    assert(before[b] != s0[b]);
                                }
                            }
                        }
                        left = left - take;
                        marked.set(i, true);
                    }
                },
                None => {},
            }
        }
        i = i + 1;
    }
    // Pass 2: fill empty slots.
    let mut i: usize = 0;
    while i < carry
        invariant
            carry == carry_len(s0.len() as int),
            carry <= slots@.len(),
            i <= carry,
            max == spec_max_stack(item),
            left <= count,
            marked@.len() == slots@.len(),
            only_added(s0, slots@, item),
            count_in(slots@, item, carry as int) == count_in(s0, item, carry as int) + (count - left),
            room_in(slots@, item, carry as int) == room_in(s0, item, carry as int) - (count - left),
            left > 0 ==> forall|j: int|
                0 <= j < carry ==> no_open_stack(#[trigger] slots@[j], item),
            left > 0 ==> forall|j: int| 0 <= j < i ==> #[trigger] slots@[j] is Some,
            forall|j: int| i <= j < slots@.len() && slots@[j] != s0[j] ==> s0[j] is Some,
            filled_in_order(s0, slots@, item),
            forall|j: int| 0 <= j < slots@.len() ==> (marked@[j] <==> slots@[j] != s0[j]),
        decreases carry - i,
    {
        if left > 0 && slots[i].is_none() {
            let take = if max < left { max } else { left };
            let ghost before = slots@;
            let ns = InvSlot { item, count: take };
            slots.set(i, Some(ns));
            proof {
                lemma_count_in_update(before, i as int, Some(ns), item, carry as int);
                lemma_room_in_update(before, i as int, Some(ns), item, carry as int);
                assert(s0[i as int] is None);
                assert forall|a: int, b: int|
                    0 <= a < carry_len(s0.len() as int) && 0 <= b < s0.len() && #[trigger] fills_before(
                        s0,
                        a,
                        b,
                    ) && slots@[b] != s0[b] && slot_room(s0[a], item) > 0 implies slot_room(
                    slots@[a],
                    item,
                ) == 0 by {
                    if b == i {
                        assert(no_open_stack(before[a], item));
                        if s0[a] is None {
                            assert(before[a] is Some);
                        }
                    } else {
                        assert(before[b] != s0[b]);
                    }
                }
            }
            left = left - take;
            marked.set(i, true);
        }
        i = i + 1;
    }
    proof {
        lemma_room_in_nonneg(slots@, item, carry as int);
        lemma_room_in_nonneg(s0, item, carry as int);
        if left > 0 {
            assert forall|j: int| 0 <= j < carry implies slot_room(#[trigger] slots@[j], item) == 0 by {
                assert(slots@[j] is Some);
            }
            lemma_room_in_zero(slots@, item, carry as int);
        }
    }
    let changed = marked_indices(&marked);
    (count - left, changed)
}

} // verus!
