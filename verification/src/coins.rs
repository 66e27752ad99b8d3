//! Coin math over the inventory: counting, paying, and granting
//! copper-denominated amounts across the four coin items, with automatic
//! change-making.
//!
//! All functions touch only the carry slots (hotbar + backpack), like
//! [`crate::items::add_to_inventory`].

use vstd::prelude::*;

use crate::items::{
    add_to_inventory, carried, carry_len, carry_room, count_in, filled_in_order, fills_before,
    grown_slot, inventory, only_added, slot_count, slot_room, spec_max_stack,
    InvSlot, ItemId,
};

verus! {

/// Copper value of one coin of `item`; 0 for non-coins.
pub open spec fn spec_coin_value(item: ItemId) -> int {
    match item {
        ItemId::PlatinumCoin => 1000000,
        ItemId::GoldCoin => 10000,
        ItemId::SilverCoin => 100,
        ItemId::CopperCoin => 1,
        _ => 0,
    }
}

/// `item` is one of the four coins.
pub open spec fn spec_is_coin(item: ItemId) -> bool {
    item == ItemId::PlatinumCoin || item == ItemId::GoldCoin || item == ItemId::SilverCoin || item
        == ItemId::CopperCoin
}

/// Coin denominations, largest first, with their copper value.
pub fn coin_denoms() -> (d: [(ItemId, u32); 4])
    ensures
        d@ == seq![
            (ItemId::PlatinumCoin, 1000000u32),
            (ItemId::GoldCoin, 10000u32),
            (ItemId::SilverCoin, 100u32),
            (ItemId::CopperCoin, 1u32),
        ],
{
    [
        (ItemId::PlatinumCoin, crate::COPPER_PER_PLATINUM),
        (ItemId::GoldCoin, crate::COPPER_PER_GOLD),
        (ItemId::SilverCoin, crate::COPPER_PER_SILVER),
        (ItemId::CopperCoin, 1),
    ]
}

pub fn is_coin(item: ItemId) -> (r: bool)
    ensures
        r == spec_is_coin(item),
{
    match item {
        ItemId::PlatinumCoin | ItemId::GoldCoin | ItemId::SilverCoin | ItemId::CopperCoin => true,
        _ => false,
    }
}

/// Copper value of one coin of `item` (0 for non-coins).
pub fn coin_value(item: ItemId) -> (v: u32)
    ensures
        v == spec_coin_value(item),
{
    match item {
        ItemId::PlatinumCoin => crate::COPPER_PER_PLATINUM,
        ItemId::GoldCoin => crate::COPPER_PER_GOLD,
        ItemId::SilverCoin => crate::COPPER_PER_SILVER,
        ItemId::CopperCoin => 1,
        _ => 0,
    }
}

/// Coin value of one slot, in copper.
pub open spec fn slot_wealth(slot: Option<InvSlot>) -> int {
    match slot {
        Some(s) => spec_coin_value(s.item) * s.count,
        None => 0,
    }
}

/// Coin value of the first `n` slots of `s`.
pub open spec fn wealth_in(s: Seq<Option<InvSlot>>, n: int) -> int
    decreases n,
{
    if n <= 0 {
        0
    } else {
        wealth_in(s, n - 1) + slot_wealth(s[n - 1])
    }
}

/// Coin value of the carry slots of `s`, in copper.
pub open spec fn wealth(s: Seq<Option<InvSlot>>) -> int {
    wealth_in(s, carry_len(s.len() as int))
}

/// Total count of `item` over a list of stacks.
pub open spec fn stacks_count(v: Seq<InvSlot>, item: ItemId) -> int
    decreases v.len(),
{
    if v.len() == 0 {
        0
    } else {
        stacks_count(v.drop_last(), item) + (if v.last().item == item {
            v.last().count as int
        } else {
            0
        })
    }
}

/// Coin value of a list of stacks, in copper.
pub open spec fn stacks_value(v: Seq<InvSlot>) -> int
    decreases v.len(),
{
    if v.len() == 0 {
        0
    } else {
        stacks_value(v.drop_last()) + spec_coin_value(v.last().item) * v.last().count
    }
}

/// The coin digit of `amount` for `item` in canonical (largest-first)
/// denominations; 0 for non-coins.
pub open spec fn coin_digit(amount: int, item: ItemId) -> int {
    match item {
        ItemId::PlatinumCoin => amount / 1000000,
        ItemId::GoldCoin => amount % 1000000 / 10000,
        ItemId::SilverCoin => amount % 1000000 % 10000 / 100,
        ItemId::CopperCoin => amount % 1000000 % 10000 % 100,
        _ => 0,
    }
}

/// Every slot of `new` that differs from `old` is a carry slot that now
/// holds more of some coin than before (and held no other item).
pub open spec fn coins_added(old: Seq<Option<InvSlot>>, new: Seq<Option<InvSlot>>) -> bool {
    &&& new.len() == old.len()
    &&& forall|i: int|
        0 <= i < old.len() && new[i] != old[i] ==> {
            &&& i < carry_len(old.len() as int)
            &&& match new[i] {
                Some(ns) => spec_is_coin(ns.item) && grown_slot(old[i], new[i], ns.item),
                None => false,
            }
        }
}

/// Every slot of `new` that differs from `old` is a carry slot that held a
/// coin or nothing and holds a coin or nothing.
pub open spec fn only_coin_slots_changed(old: Seq<Option<InvSlot>>, new: Seq<Option<InvSlot>>) -> bool {
    &&& new.len() == old.len()
    &&& forall|i: int|
        0 <= i < old.len() && new[i] != old[i] ==> {
            &&& i < carry_len(old.len() as int)
            &&& match old[i] {
                Some(os) => spec_is_coin(os.item),
                None => true,
            }
            &&& match new[i] {
                Some(ns) => spec_is_coin(ns.item),
                None => true,
            }
        }
}

/// Every stack in `v` is at least one coin.
pub open spec fn all_coin_stacks(v: Seq<InvSlot>) -> bool {
    forall|k: int| 0 <= k < v.len() ==> spec_is_coin(#[trigger] v[k].item) && v[k].count >= 1
}

/// Coin value splits over the four denominations.
pub proof fn lemma_wealth_split(s: Seq<Option<InvSlot>>, n: int)
    requires
        0 <= n <= s.len(),
    ensures
        wealth_in(s, n) == 1000000 * count_in(s, ItemId::PlatinumCoin, n) + 10000 * count_in(
            s,
            ItemId::GoldCoin,
            n,
        ) + 100 * count_in(s, ItemId::SilverCoin, n) + count_in(s, ItemId::CopperCoin, n),
    decreases n,
{
    if n > 0 {
        lemma_wealth_split(s, n - 1);
    }
}

/// Coin value of a stack list splits over the four denominations.
pub proof fn lemma_stacks_split(v: Seq<InvSlot>)
    ensures
        stacks_value(v) == 1000000 * stacks_count(v, ItemId::PlatinumCoin) + 10000 * stacks_count(
            v,
            ItemId::GoldCoin,
        ) + 100 * stacks_count(v, ItemId::SilverCoin) + stacks_count(v, ItemId::CopperCoin),
    decreases v.len(),
{
    if v.len() > 0 {
        lemma_stacks_split(v.drop_last());
        let last = v.last();
        let c = last.count as int;
        if spec_is_coin(last.item) {
            assert(spec_coin_value(last.item) * c == if last.item == ItemId::PlatinumCoin {
                1000000 * c
            } else if last.item == ItemId::GoldCoin {
                10000 * c
            } else if last.item == ItemId::SilverCoin {
                100 * c
            } else {
                c
            });
        } else {
            assert(spec_coin_value(last.item) == 0);
        }
    }
}

/// Pushing a stack adds its count.
pub proof fn lemma_stacks_push(v: Seq<InvSlot>, s: InvSlot, item: ItemId)
    ensures
        stacks_count(v.push(s), item) == stacks_count(v, item) + (if s.item == item {
            s.count as int
        } else {
            0
        }),
        stacks_value(v.push(s)) == stacks_value(v) + spec_coin_value(s.item) * s.count,
{
    assert(v.push(s).drop_last() =~= v);
}

/// Coin value is never negative.
pub proof fn lemma_wealth_nonneg(s: Seq<Option<InvSlot>>, n: int)
    ensures
        wealth_in(s, n) >= 0,
    decreases n,
{
    if n > 0 {
        lemma_wealth_nonneg(s, n - 1);
    }
}

/// Coin value of `n` slots is at most `n` full platinum stacks.
pub proof fn lemma_wealth_bound(s: Seq<Option<InvSlot>>, n: int)
    requires
        0 <= n,
    ensures
        wealth_in(s, n) <= n * 65535000000,
    decreases n,
{
    if n > 0 {
        lemma_wealth_bound(s, n - 1);
    }
}

/// Adding more of one item leaves the counts of every other item alone.
pub proof fn lemma_only_added_other(
    old: Seq<Option<InvSlot>>,
    new: Seq<Option<InvSlot>>,
    item: ItemId,
    x: ItemId,
    n: int,
)
    requires
        only_added(old, new, item),
        x != item,
        0 <= n <= old.len(),
    ensures
        count_in(new, x, n) == count_in(old, x, n),
    decreases n,
{
    if n > 0 {
        lemma_only_added_other(old, new, item, x, n - 1);
    }
}

/// Total carried coin value in copper (hotbar + backpack only: coins in
/// armor slots can't exist and trash coins don't count as wealth).
pub fn coin_total(slots: &Vec<Option<InvSlot>>) -> (total: u64)
    ensures
        total == wealth(slots@),
{
    let carry = if slots.len() < inventory::ARMOR_START {
        slots.len()
    } else {
        inventory::ARMOR_START
    };
    let mut total: u64 = 0;
    let mut i: usize = 0;
    while i < carry
        invariant
            carry == carry_len(slots@.len() as int),
            carry <= slots@.len(),
            i <= carry,
            total == wealth_in(slots@, i as int),
        decreases carry - i,
    {
        proof {
            lemma_wealth_bound(slots@, i as int);
        }
        match slots[i] {
            Some(s) => {
                let v = coin_value(s.item);
                assert(v as u64 * s.count as u64 <= 65535000000) by (nonlinear_arith)
                    requires
                        v <= 1000000,
                        s.count <= 65535,
                ;
                total = total + v as u64 * s.count as u64;
            },
            None => {},
        }
        i = i + 1;
    }
    total
}

/// Adds `n` coins of `item` in stacks of at most a full stack, recording
/// changed slots in `marks` and pushing what found no room onto `overflow`.
fn add_coin_stacks(
    slots: &mut Vec<Option<InvSlot>>,
    item: ItemId,
    n: u64,
    marks: &mut Vec<bool>,
    overflow: &mut Vec<InvSlot>,
)
    requires
        spec_is_coin(item),
        old(marks)@.len() == old(slots)@.len(),
    ensures
        coin_fill(old(slots)@, final(slots)@, item, n as int),
        final(overflow)@ == old(overflow)@ + spill_of(old(slots)@, item, n as int),
        carried(final(slots)@, item) + stacks_count(final(overflow)@, item) == carried(
            old(slots)@,
            item,
        ) + stacks_count(old(overflow)@, item) + n,
        final(overflow)@.len() >= old(overflow)@.len(),
        forall|k: int| 0 <= k < old(overflow)@.len() ==> final(overflow)@[k] == old(overflow)@[k],
        forall|k: int|
            old(overflow)@.len() <= k < final(overflow)@.len() ==> #[trigger] final(overflow)@[k].item
                == item && 1 <= final(overflow)@[k].count <= spec_max_stack(item),
        final(marks)@.len() == final(slots)@.len(),
        forall|j: int|
            0 <= j < final(marks)@.len() ==> (#[trigger] final(marks)@[j] == (old(marks)@[j]
                || final(slots)@[j] != old(slots)@[j])),
{
    let max = item.max_stack();
    let ghost s0 = slots@;
    let ghost m0 = marks@;
    let ghost o0 = overflow@;
    let ghost n0 = n;
    let mut n = n;
    proof {
        crate::items::lemma_room_in_nonneg(s0, item, carry_len(s0.len() as int));
    }
    while n > 0
        invariant
            max == spec_max_stack(item),
            max >= 1,
            n <= n0,
            only_added(s0, slots@, item),
            filled_in_order(s0, slots@, item),
            carried(slots@, item) == carried(s0, item) + lesser(n0 - n, carry_room(s0, item)),
            carry_room(slots@, item) == carry_room(s0, item) - lesser(n0 - n, carry_room(s0, item)),
            o0 + spill_of(s0, item, n0 as int) == overflow@ + spill_of(slots@, item, n as int),
            carried(slots@, item) + stacks_count(overflow@, item) + n == carried(s0, item)
                + stacks_count(o0, item) + n0,
            overflow@.len() >= o0.len(),
            forall|k: int| 0 <= k < o0.len() ==> overflow@[k] == o0[k],
            forall|k: int|
                o0.len() <= k < overflow@.len() ==> #[trigger] overflow@[k].item == item
                    && 1 <= overflow@[k].count <= spec_max_stack(item),
            marks@.len() == slots@.len(),
            forall|j: int|
                0 <= j < marks@.len() ==> (#[trigger] marks@[j] == (m0[j] || slots@[j] != s0[j])),
        decreases n,
    {
        let batch: u16 = if n < max as u64 {
            n as u16
        } else {
            max
        };
        let ghost before = slots@;
        let (added, idxs) = add_to_inventory(slots, item, batch);
        let mut k: usize = 0;
        while k < idxs.len()
            invariant
                k <= idxs@.len(),
                marks@.len() == slots@.len(),
                forall|q: int| 0 <= q < idxs@.len() ==> #[trigger] idxs@[q] < slots@.len(),
                forall|j: int|
                    0 <= j < marks@.len() ==> (#[trigger] marks@[j] == (m0[j] || before[j] != s0[j]
                        || exists|q: int| 0 <= q < k && idxs@[q] == j)),
            decreases idxs@.len() - k,
        {
            let j = idxs[k];
            marks.set(j, true);
            k = k + 1;
        }
        proof {
            assert forall|j: int| 0 <= j < marks@.len() implies (#[trigger] marks@[j] == (m0[j]
                || slots@[j] != s0[j])) by {
                if exists|q: int| 0 <= q < idxs@.len() && idxs@[q] == j {
                    assert(idxs@.contains(j as usize));
                    assert(slots@[j] != before[j]);
                }
                if slots@[j] != before[j] {
                    assert(idxs@.contains(j as usize));
                    let q = choose|q: int| 0 <= q < idxs@.len() && idxs@[q] == j as usize;
                    assert(idxs@[q] == j);
                }
            }
            lemma_filled_in_order_trans(s0, before, slots@, item);
            assert forall|i: int| 0 <= i < s0.len() && slots@[i] != s0[i]
                implies i < carry_len(s0.len() as int) && grown_slot(s0[i], slots@[i], item) by {
                if before[i] != s0[i] && slots@[i] != before[i] {
                    assert(grown_slot(before[i], slots@[i], item));
                    assert(grown_slot(s0[i], before[i], item));
                } else if before[i] != s0[i] {
                } else {
                }
            }
        }
        let ghost ob = overflow@;
        if added < batch {
            overflow.push(InvSlot::new(item, batch - added));
            proof {
                lemma_stacks_push(ob, InvSlot { item, count: (batch - added) as u16 }, item);
            }
        }
        proof {
            let r = carry_room(before, item);
            crate::items::lemma_room_in_nonneg(before, item, carry_len(before.len() as int));
            assert(spill_of(before, item, n as int) == (if added < batch {
                seq![InvSlot { item, count: (batch - added) as u16 }]
            } else {
                Seq::<InvSlot>::empty()
            }) + spill_of(slots@, item, n - batch));
            assert(overflow@ == ob + (if added < batch {
                seq![InvSlot { item, count: (batch - added) as u16 }]
            } else {
                Seq::<InvSlot>::empty()
            }));
            assert(ob + spill_of(before, item, n as int) =~= overflow@ + spill_of(slots@, item, n - batch));
        }
        n = n - batch as u64;
    }
}

/// The smaller of two integers.
pub open spec fn lesser(a: int, b: int) -> int {
    if a <= b {
        a
    } else {
        b
    }
}

/// `new` is `old` with `n` of `item` added in fill order, as far as there
/// was room in the carry slots.
pub open spec fn coin_fill(old: Seq<Option<InvSlot>>, new: Seq<Option<InvSlot>>, item: ItemId, n: int) -> bool {
    &&& only_added(old, new, item)
    &&& filled_in_order(old, new, item)
    &&& carried(new, item) == carried(old, item) + lesser(n, carry_room(old, item))
}

/// A slot without room for `item` keeps none after growing by `item`.
proof fn lemma_no_room_stays(old: Option<InvSlot>, new: Option<InvSlot>, item: ItemId)
    requires
        slot_room(old, item) == 0,
        new == old || grown_slot(old, new, item),
    ensures
        slot_room(new, item) == 0,
{
}

/// Two fills of the same item in fill order make one.
pub proof fn lemma_filled_in_order_trans(
    s0: Seq<Option<InvSlot>>,
    s1: Seq<Option<InvSlot>>,
    s2: Seq<Option<InvSlot>>,
    item: ItemId,
)
    requires
        only_added(s0, s1, item),
        only_added(s1, s2, item),
        filled_in_order(s0, s1, item),
        filled_in_order(s1, s2, item),
    ensures
        filled_in_order(s0, s2, item),
{
    assert forall|a: int, b: int|
        0 <= a < carry_len(s0.len() as int) && 0 <= b < s0.len() && #[trigger] fills_before(s0, a, b)
            && s2[b] != s0[b] && slot_room(s0[a], item) > 0 implies slot_room(s2[a], item) == 0 by {
        if s1[b] != s0[b] {
            assert(slot_room(s1[a], item) == 0);
            lemma_no_room_stays(s1[a], s2[a], item);
        } else if slot_room(s1[a], item) == 0 {
            lemma_no_room_stays(s1[a], s2[a], item);
        } else {
            assert(fills_before(s1, a, b));
        }
    }
}

/// Appending stacks of other items leaves the count of `item` alone.
pub proof fn lemma_stacks_extend_other(v1: Seq<InvSlot>, v2: Seq<InvSlot>, item: ItemId)
    requires
        v1.len() <= v2.len(),
        forall|k: int| 0 <= k < v1.len() ==> v2[k] == v1[k],
        forall|k: int| v1.len() <= k < v2.len() ==> #[trigger] v2[k].item != item,
    ensures
        stacks_count(v2, item) == stacks_count(v1, item),
    decreases v2.len(),
{
    if v2.len() > v1.len() {
        lemma_stacks_extend_other(v1, v2.drop_last(), item);
    } else {
        assert(v2 =~= v1);
    }
}

/// Adding more of one coin is a coin addition.
proof fn lemma_only_added_coins(old: Seq<Option<InvSlot>>, new: Seq<Option<InvSlot>>, item: ItemId)
    requires
        only_added(old, new, item),
        spec_is_coin(item),
    ensures
        coins_added(old, new),
{
    assert forall|i: int| 0 <= i < old.len() && new[i] != old[i] implies {
        &&& i < carry_len(old.len() as int)
        &&& match new[i] {
            Some(ns) => spec_is_coin(ns.item) && grown_slot(old[i], new[i], ns.item),
            None => false,
        }
    } by {
        assert(grown_slot(old[i], new[i], item));
    }
}

/// Coin additions compose.
proof fn lemma_coins_added_trans(a: Seq<Option<InvSlot>>, b: Seq<Option<InvSlot>>, c: Seq<Option<InvSlot>>)
    requires
        coins_added(a, b),
        coins_added(b, c),
    ensures
        coins_added(a, c),
        forall|j: int| 0 <= j < a.len() ==> (c[j] != a[j] <==> (b[j] != a[j] || c[j] != b[j])),
{
    assert forall|j: int| 0 <= j < a.len() && (b[j] != a[j] || c[j] != b[j]) implies c[j] != a[j] by {
        if b[j] != a[j] && c[j] != b[j] {
            let nb = b[j]->Some_0;
            let nc = c[j]->Some_0;
            assert(grown_slot(a[j], b[j], nb.item));
            assert(grown_slot(b[j], c[j], nc.item));
        }
    }
    assert forall|i: int| 0 <= i < a.len() && c[i] != a[i] implies {
        &&& i < carry_len(a.len() as int)
        &&& match c[i] {
            Some(ns) => spec_is_coin(ns.item) && grown_slot(a[i], c[i], ns.item),
            None => false,
        }
    } by {
        if b[i] != a[i] && c[i] != b[i] {
            let nb = b[i]->Some_0;
            let nc = c[i]->Some_0;
            assert(grown_slot(a[i], b[i], nb.item));
            assert(grown_slot(b[i], c[i], nc.item));
        }
    }
}

/// What finds no room when `n` of `item` are added a full stack (`max`)
/// at a time to carry slots with `room` for them: one stack per batch that
/// did not fit whole, in batch order.
pub open spec fn spill_stacks(item: ItemId, n: int, room: int, max: int) -> Seq<InvSlot>
    decreases n,
{
    if n <= 0 || max <= 0 {
        Seq::empty()
    } else {
        let b = lesser(n, max);
        let a = lesser(b, room);
        (if a < b {
            seq![InvSlot { item, count: (b - a) as u16 }]
        } else {
            Seq::empty()
        }) + spill_stacks(item, n - b, room - a, max)
    }
}

/// The stacks of `item` that adding `n` of it to `slots` leaves over.
pub open spec fn spill_of(slots: Seq<Option<InvSlot>>, item: ItemId, n: int) -> Seq<InvSlot> {
    spill_stacks(item, n, carry_room(slots, item), spec_max_stack(item) as int)
}

/// `new` is `old` with `amount` copper added as coins in canonical
/// denominations, largest first, each filled in fill order as far as there
/// was room; `spill` is what found none, denomination by denomination and
/// batch by batch.
pub open spec fn canonical_fill(
    old: Seq<Option<InvSlot>>,
    new: Seq<Option<InvSlot>>,
    amount: int,
    spill: Seq<InvSlot>,
) -> bool {
    exists|s1: Seq<Option<InvSlot>>, s2: Seq<Option<InvSlot>>, s3: Seq<Option<InvSlot>>|
        #![trigger coin_fill(old, s1, ItemId::PlatinumCoin, coin_digit(amount, ItemId::PlatinumCoin)), coin_fill(s1, s2, ItemId::GoldCoin, coin_digit(amount, ItemId::GoldCoin)), coin_fill(s2, s3, ItemId::SilverCoin, coin_digit(amount, ItemId::SilverCoin))]
        {
            &&& coin_fill(old, s1, ItemId::PlatinumCoin, coin_digit(amount, ItemId::PlatinumCoin))
            &&& coin_fill(s1, s2, ItemId::GoldCoin, coin_digit(amount, ItemId::GoldCoin))
            &&& coin_fill(s2, s3, ItemId::SilverCoin, coin_digit(amount, ItemId::SilverCoin))
            &&& coin_fill(s3, new, ItemId::CopperCoin, coin_digit(amount, ItemId::CopperCoin))
            &&& spill == spill_of(old, ItemId::PlatinumCoin, coin_digit(amount, ItemId::PlatinumCoin))
                + spill_of(s1, ItemId::GoldCoin, coin_digit(amount, ItemId::GoldCoin)) + spill_of(
                s2,
                ItemId::SilverCoin,
                coin_digit(amount, ItemId::SilverCoin),
            ) + spill_of(s3, ItemId::CopperCoin, coin_digit(amount, ItemId::CopperCoin))
        }
}

/// `new` is `old` with `amount` copper granted as coins (see
/// [`canonical_fill`]); `spill` holds, per coin, what found no room.
pub open spec fn coins_granted(old: Seq<Option<InvSlot>>, new: Seq<Option<InvSlot>>, amount: int, spill: Seq<InvSlot>) -> bool {
    &&& new.len() == old.len()
    &&& canonical_fill(old, new, amount, spill)
    &&& all_coin_stacks(spill)
    &&& forall|c: ItemId|
        spec_is_coin(c) ==> carried(new, c) + #[trigger] stacks_count(spill, c) == carried(old, c)
            + coin_digit(amount, c)
}

/// Adds `amount` copper worth of coins in canonical denominations (largest
/// first). Returns the indices of every slot changed (increasing) plus
/// whatever stacks found no room; the caller spills those as world drops.
pub fn add_coins(slots: &mut Vec<Option<InvSlot>>, amount: u64) -> (res: (Vec<usize>, Vec<InvSlot>))
    ensures
        coins_added(old(slots)@, final(slots)@),
        coins_granted(old(slots)@, final(slots)@, amount as int, res.1@),
        forall|c: ItemId|
            spec_is_coin(c) ==> carried(final(slots)@, c) + stacks_count(res.1@, c) == carried(
                old(slots)@,
                c,
            ) + coin_digit(amount as int, c),
        all_coin_stacks(res.1@),
        forall|k: int| 0 <= k < res.1@.len() ==> #[trigger] res.1@[k].count <= spec_max_stack(res.1@[k].item),
        forall|a: int, b: int|
            0 <= a < b < res.1@.len() ==> spec_coin_value(res.1@[a].item) >= spec_coin_value(
                res.1@[b].item,
            ),
        wealth(final(slots)@) + stacks_value(res.1@) == wealth(old(slots)@) + amount,
        forall|a: int, b: int| 0 <= a < b < res.0@.len() ==> res.0@[a] < res.0@[b],
        forall|k: int| 0 <= k < res.0@.len() ==> #[trigger] res.0@[k] < final(slots)@.len(),
        forall|i: int|
            0 <= i < final(slots)@.len() ==> (res.0@.contains(i as usize) <==> final(slots)@[i]
                != old(slots)@[i]),
{
    let ghost s0 = slots@;
    let platinum = amount / 1000000;
    let r1 = amount % 1000000;
    let gold = r1 / 10000;
    let r2 = r1 % 10000;
    let silver = r2 / 100;
    let copper = r2 % 100;
    let mut marks = crate::items::no_marks(slots.len());
    let mut overflow: Vec<InvSlot> = Vec::new();
    add_coin_stacks(slots, ItemId::PlatinumCoin, platinum, &mut marks, &mut overflow);
    let ghost s1 = slots@;
    let ghost o1 = overflow@;
    add_coin_stacks(slots, ItemId::GoldCoin, gold, &mut marks, &mut overflow);
    let ghost s2 = slots@;
    let ghost o2 = overflow@;
    add_coin_stacks(slots, ItemId::SilverCoin, silver, &mut marks, &mut overflow);
    let ghost s3 = slots@;
    let ghost o3 = overflow@;
    add_coin_stacks(slots, ItemId::CopperCoin, copper, &mut marks, &mut overflow);
    let ghost s4 = slots@;
    let ghost o4 = overflow@;
    proof {
        assert(coin_fill(s0, s1, ItemId::PlatinumCoin, coin_digit(amount as int, ItemId::PlatinumCoin)));
        assert(coin_fill(s1, s2, ItemId::GoldCoin, coin_digit(amount as int, ItemId::GoldCoin)));
        assert(coin_fill(s2, s3, ItemId::SilverCoin, coin_digit(amount as int, ItemId::SilverCoin)));
        assert(coin_fill(s3, s4, ItemId::CopperCoin, coin_digit(amount as int, ItemId::CopperCoin)));
        lemma_only_added_coins(s0, s1, ItemId::PlatinumCoin);
        lemma_only_added_coins(s1, s2, ItemId::GoldCoin);
        lemma_only_added_coins(s2, s3, ItemId::SilverCoin);
        lemma_only_added_coins(s3, s4, ItemId::CopperCoin);
        lemma_coins_added_trans(s0, s1, s2);
        lemma_coins_added_trans(s0, s2, s3);
        lemma_coins_added_trans(s0, s3, s4);
        let n = carry_len(s0.len() as int);
        // Per-denomination bookkeeping across the four passes.
        lemma_only_added_other(s1, s2, ItemId::GoldCoin, ItemId::PlatinumCoin, n);
        lemma_only_added_other(s2, s3, ItemId::SilverCoin, ItemId::PlatinumCoin, n);
        lemma_only_added_other(s3, s4, ItemId::CopperCoin, ItemId::PlatinumCoin, n);
        lemma_only_added_other(s0, s1, ItemId::PlatinumCoin, ItemId::GoldCoin, n);
        lemma_only_added_other(s2, s3, ItemId::SilverCoin, ItemId::GoldCoin, n);
        lemma_only_added_other(s3, s4, ItemId::CopperCoin, ItemId::GoldCoin, n);
        lemma_only_added_other(s0, s1, ItemId::PlatinumCoin, ItemId::SilverCoin, n);
        lemma_only_added_other(s1, s2, ItemId::GoldCoin, ItemId::SilverCoin, n);
        lemma_only_added_other(s3, s4, ItemId::CopperCoin, ItemId::SilverCoin, n);
        lemma_only_added_other(s0, s1, ItemId::PlatinumCoin, ItemId::CopperCoin, n);
        lemma_only_added_other(s1, s2, ItemId::GoldCoin, ItemId::CopperCoin, n);
        lemma_only_added_other(s2, s3, ItemId::SilverCoin, ItemId::CopperCoin, n);
        lemma_stacks_extend_other(o1, o4, ItemId::PlatinumCoin);
        lemma_stacks_extend_other(o2, o4, ItemId::GoldCoin);
        lemma_stacks_extend_other(o3, o4, ItemId::SilverCoin);
        lemma_stacks_extend_other(Seq::empty(), o1, ItemId::GoldCoin);
        lemma_stacks_extend_other(Seq::empty(), o1, ItemId::SilverCoin);
        lemma_stacks_extend_other(Seq::empty(), o1, ItemId::CopperCoin);
        lemma_stacks_extend_other(o1, o2, ItemId::SilverCoin);
        lemma_stacks_extend_other(o1, o2, ItemId::CopperCoin);
        lemma_stacks_extend_other(o2, o3, ItemId::CopperCoin);
        assert(Seq::<InvSlot>::empty() =~= overflow@.take(0));
        assert(stacks_count(Seq::<InvSlot>::empty(), ItemId::PlatinumCoin) == 0);
        assert forall|k: int| 0 <= k < o4.len() implies spec_is_coin(#[trigger] o4[k].item)
            && o4[k].count >= 1 && o4[k].count <= spec_max_stack(o4[k].item) && o4[k].item
            == if k < o1.len() {
            ItemId::PlatinumCoin
        } else if k < o2.len() {
            ItemId::GoldCoin
        } else if k < o3.len() {
            ItemId::SilverCoin
        } else {
            ItemId::CopperCoin
        } by {
            if k < o1.len() {
                assert(o4[k] == o1[k]);
            } else if k < o2.len() {
                assert(o4[k] == o2[k]);
            } else if k < o3.len() {
                assert(o4[k] == o3[k]);
            }
        }
        lemma_wealth_split(s0, n);
        lemma_wealth_split(s4, n);
        lemma_stacks_split(o4);
        assert forall|j: int| 0 <= j < marks@.len() implies (marks@[j] <==> s4[j] != s0[j]) by {
            assert(s2[j] != s0[j] <==> (s1[j] != s0[j] || s2[j] != s1[j]));
            assert(s3[j] != s0[j] <==> (s2[j] != s0[j] || s3[j] != s2[j]));
            assert(s4[j] != s0[j] <==> (s3[j] != s0[j] || s4[j] != s3[j]));
        }
    }
    let changed = crate::items::marked_indices(&marks);
    proof {
        assert forall|i: int| 0 <= i < s4.len() implies (changed@.contains(i as usize) <==> s4[i]
            != s0[i]) by {
            if changed@.contains(i as usize) {
                let k = choose|k: int| 0 <= k < changed@.len() && changed@[k] == i as usize;
                assert(marks@[changed@[k] as int]);
            }
        }
    }
    (changed, overflow)
}

/// Every slot of `new` that differs from `old` is a carry slot whose stack
/// of `item` shrank or emptied.
pub open spec fn coins_removed(old: Seq<Option<InvSlot>>, new: Seq<Option<InvSlot>>, item: ItemId) -> bool {
    &&& new.len() == old.len()
    &&& forall|i: int|
        0 <= i < old.len() && new[i] != old[i] ==> {
            &&& i < carry_len(old.len() as int)
            &&& match old[i] {
                Some(os) => os.item == item && match new[i] {
                    Some(ns) => ns.item == item && ns.count < os.count,
                    None => true,
                },
                None => false,
            }
        }
}

/// `new` is `old` with stacks of `item` drained in slot order: a changed
/// slot keeps at least one coin or is emptied, and no slot changed while an
/// earlier carry stack of `item` still held coins.
pub open spec fn drained_in_order(old: Seq<Option<InvSlot>>, new: Seq<Option<InvSlot>>, item: ItemId) -> bool {
    &&& forall|i: int|
        0 <= i < old.len() && #[trigger] new[i] != old[i] && new[i] is Some ==> new[i]->Some_0.count
            >= 1
    &&& forall|a: int, b: int|
        #![trigger slot_count(old[a], item), new[b]]
        0 <= a < b < old.len() && a < carry_len(old.len() as int) && new[b] != old[b] && slot_count(
            old[a],
            item,
        ) > 0 ==> new[a] is None
}

/// `new` is `old` with coins of `item` taken in slot order, a stack at a
/// time and as many from a stack as still needed, until `need` copper is
/// covered or none are left.
pub open spec fn coin_drain(old: Seq<Option<InvSlot>>, new: Seq<Option<InvSlot>>, item: ItemId, need: int) -> bool {
    let got = spec_coin_value(item) * (carried(old, item) - carried(new, item));
    &&& coins_removed(old, new, item)
    &&& drained_in_order(old, new, item)
    &&& need <= 0 ==> new == old
    &&& need > 0 ==> got < need + spec_coin_value(item)
    &&& got < need ==> carried(new, item) == 0
}

/// `new` is `old` drained smallest coins first until `amount` copper is
/// covered.
pub open spec fn drained_smallest_first(old: Seq<Option<InvSlot>>, new: Seq<Option<InvSlot>>, amount: int) -> bool {
    exists|s1: Seq<Option<InvSlot>>, s2: Seq<Option<InvSlot>>, s3: Seq<Option<InvSlot>>|
        #![trigger coin_drain(old, s1, ItemId::CopperCoin, amount), coin_drain(s1, s2, ItemId::SilverCoin, amount - (wealth(old) - wealth(s1))), coin_drain(s2, s3, ItemId::GoldCoin, amount - (wealth(old) - wealth(s2)))]
        {
            &&& coin_drain(old, s1, ItemId::CopperCoin, amount)
            &&& coin_drain(s1, s2, ItemId::SilverCoin, amount - (wealth(old) - wealth(s1)))
            &&& coin_drain(s2, s3, ItemId::GoldCoin, amount - (wealth(old) - wealth(s2)))
            &&& coin_drain(s3, new, ItemId::PlatinumCoin, amount - (wealth(old) - wealth(s3)))
        }
}

/// `new` is `old` after paying `amount` copper: coins drained smallest
/// first until the amount is covered, then the overshoot given back as
/// change in canonical denominations.
/// `touched` lists the slots that the draining or the change changed, and
/// `spill` holds the change that found no room.
pub open spec fn paid(
    old: Seq<Option<InvSlot>>,
    new: Seq<Option<InvSlot>>,
    amount: int,
    touched: Seq<usize>,
    spill: Seq<InvSlot>,
) -> bool {
    exists|d: Seq<Option<InvSlot>>|
        #![trigger drained_smallest_first(old, d, amount)]
        {
            &&& drained_smallest_first(old, d, amount)
            &&& wealth(d) <= wealth(old) - amount
            &&& coins_granted(d, new, wealth(old) - wealth(d) - amount, spill)
            &&& forall|i: int|
                0 <= i < old.len() ==> (touched.contains(i as usize) <==> (d[i] != old[i] || new[i]
                    != d[i]))
        }
}

/// The slots that four drains changed are those changed overall.
proof fn lemma_drains_touch(
    s0: Seq<Option<InvSlot>>,
    s1: Seq<Option<InvSlot>>,
    s2: Seq<Option<InvSlot>>,
    s3: Seq<Option<InvSlot>>,
    s4: Seq<Option<InvSlot>>,
)
    requires
        coins_removed(s0, s1, ItemId::CopperCoin),
        coins_removed(s1, s2, ItemId::SilverCoin),
        coins_removed(s2, s3, ItemId::GoldCoin),
        coins_removed(s3, s4, ItemId::PlatinumCoin),
    ensures
        forall|j: int|
            0 <= j < s0.len() ==> (#[trigger] s4[j] != s0[j] <==> (s1[j] != s0[j] || s2[j] != s1[j]
                || s3[j] != s2[j] || s4[j] != s3[j])),
{
    assert forall|j: int| 0 <= j < s0.len() implies (#[trigger] s4[j] != s0[j] <==> (s1[j] != s0[j]
        || s2[j] != s1[j] || s3[j] != s2[j] || s4[j] != s3[j])) by {
        if s1[j] != s0[j] {
            assert(s2[j] == s1[j]);
            assert(s3[j] == s2[j]);
            assert(s4[j] == s3[j]);
        } else if s2[j] != s1[j] {
            assert(s3[j] == s2[j]);
            assert(s4[j] == s3[j]);
        } else if s3[j] != s2[j] {
            assert(s4[j] == s3[j]);
        }
    }
}

/// One drain pass, stated by the amounts taken before and after it, is a
/// coin drain of what was still needed.
proof fn lemma_drain_step(
    old: Seq<Option<InvSlot>>,
    new: Seq<Option<InvSlot>>,
    item: ItemId,
    t0: int,
    t1: int,
    amount: int,
)
    requires
        t0 >= amount ==> new == old && t1 == t0,
        t0 < amount ==> {
            &&& coins_removed(old, new, item)
            &&& drained_in_order(old, new, item)
            &&& t1 - t0 == spec_coin_value(item) * (carried(old, item) - carried(new, item))
            &&& t1 < amount ==> carried(new, item) == 0
            &&& t1 < amount + spec_coin_value(item)
        },
    ensures
        coin_drain(old, new, item, amount - t0),
{
}

/// Adding nothing leaves an inventory as it is.
proof fn lemma_fill_nothing(s: Seq<Option<InvSlot>>)
    ensures
        canonical_fill(s, s, 0, Seq::empty()),
{
    let n = carry_len(s.len() as int);
    crate::items::lemma_room_in_nonneg(s, ItemId::PlatinumCoin, n);
    crate::items::lemma_room_in_nonneg(s, ItemId::GoldCoin, n);
    crate::items::lemma_room_in_nonneg(s, ItemId::SilverCoin, n);
    crate::items::lemma_room_in_nonneg(s, ItemId::CopperCoin, n);
    assert(coin_fill(s, s, ItemId::PlatinumCoin, coin_digit(0, ItemId::PlatinumCoin)));
    assert(coin_fill(s, s, ItemId::GoldCoin, coin_digit(0, ItemId::GoldCoin)));
    assert(coin_fill(s, s, ItemId::SilverCoin, coin_digit(0, ItemId::SilverCoin)));
    assert(coin_fill(s, s, ItemId::CopperCoin, coin_digit(0, ItemId::CopperCoin)));
    assert(spill_of(s, ItemId::PlatinumCoin, 0) + spill_of(s, ItemId::GoldCoin, 0) + spill_of(
        s,
        ItemId::SilverCoin,
        0,
    ) + spill_of(s, ItemId::CopperCoin, 0) =~= Seq::<InvSlot>::empty());
}

/// Changing one slot changes the running coin value by the slot difference.
pub proof fn lemma_wealth_in_update(s: Seq<Option<InvSlot>>, i: int, v: Option<InvSlot>, n: int)
    requires
        0 <= i < s.len(),
        0 <= n <= s.len(),
    ensures
        wealth_in(s.update(i, v), n) == wealth_in(s, n) + (if i < n {
            slot_wealth(v) - slot_wealth(s[i])
        } else {
            0
        }),
    decreases n,
{
    if n > 0 {
        lemma_wealth_in_update(s, i, v, n - 1);
    }
}

/// No slot among the first `n` holds `item`: its count there is 0.
pub proof fn lemma_count_in_zero(s: Seq<Option<InvSlot>>, item: ItemId, n: int)
    requires
        0 <= n <= s.len(),
        forall|j: int| 0 <= j < n ==> slot_count(#[trigger] s[j], item) == 0,
    ensures
        count_in(s, item, n) == 0,
    decreases n,
{
    if n > 0 {
        lemma_count_in_zero(s, item, n - 1);
    }
}

/// Removing some of one item leaves the counts of every other item alone.
pub proof fn lemma_removed_other(
    old: Seq<Option<InvSlot>>,
    new: Seq<Option<InvSlot>>,
    item: ItemId,
    x: ItemId,
    n: int,
)
    requires
        coins_removed(old, new, item),
        x != item,
        0 <= n <= old.len(),
    ensures
        count_in(new, x, n) == count_in(old, x, n),
    decreases n,
{
    if n > 0 {
        lemma_removed_other(old, new, item, x, n - 1);
    }
}

proof fn lemma_coin_slots_trans(a: Seq<Option<InvSlot>>, b: Seq<Option<InvSlot>>, c: Seq<Option<InvSlot>>)
    requires
        only_coin_slots_changed(a, b),
        only_coin_slots_changed(b, c),
    ensures
        only_coin_slots_changed(a, c),
{
}

proof fn lemma_removed_coin_slots(a: Seq<Option<InvSlot>>, b: Seq<Option<InvSlot>>, item: ItemId)
    requires
        coins_removed(a, b, item),
        spec_is_coin(item),
    ensures
        only_coin_slots_changed(a, b),
{
}

proof fn lemma_added_coin_slots(a: Seq<Option<InvSlot>>, b: Seq<Option<InvSlot>>)
    requires
        coins_added(a, b),
    ensures
        only_coin_slots_changed(a, b),
{
    assert forall|i: int| 0 <= i < a.len() && b[i] != a[i] implies match a[i] {
        Some(os) => spec_is_coin(os.item),
        None => true,
    } by {
        let nb = b[i]->Some_0;
        assert(grown_slot(a[i], b[i], nb.item));
    }
}

proof fn lemma_ceil_div(need: u64, value: u64, want: u64)
    requires
        value > 0,
        want == need / value + (if need % value != 0 { 1u64 } else { 0u64 }),
    ensures
        want * value >= need,
        want * value < need + value,
{
    vstd::arithmetic::div_mod::lemma_fundamental_div_mod(need as int, value as int);
    assert(want * value >= need && want * value < need + value) by (nonlinear_arith)
        requires
            need == value * (need / value) + need % value,
            0 <= need % value < value,
            want == need / value + (if need % value != 0 { 1int } else { 0int }),
    ;
}

/// Takes coins of `item` (worth `value` each) from the carry slots in slot
/// order until `*taken` reaches `amount`, rounding each stack's take up to
/// whole coins.
fn drain_coins(
    slots: &mut Vec<Option<InvSlot>>,
    item: ItemId,
    value: u64,
    amount: u64,
    taken: &mut u64,
    marks: &mut Vec<bool>,
)
    requires
        spec_is_coin(item),
        value == spec_coin_value(item),
        old(marks)@.len() == old(slots)@.len(),
        *old(taken) + wealth(old(slots)@) <= 4000000000000,
    ensures
        coins_removed(old(slots)@, final(slots)@, item),
        *final(taken) + wealth(final(slots)@) == *old(taken) + wealth(old(slots)@),
        *final(taken) >= *old(taken),
        *final(taken) < amount ==> carried(final(slots)@, item) == 0,
        *final(taken) - *old(taken) == value * (carried(old(slots)@, item) - carried(final(slots)@, item)),
        *old(taken) < amount ==> *final(taken) < amount + value,
        *old(taken) >= amount ==> final(slots)@ == old(slots)@ && *final(taken) == *old(taken),
        drained_in_order(old(slots)@, final(slots)@, item),
        final(marks)@.len() == final(slots)@.len(),
        forall|j: int|
            0 <= j < final(marks)@.len() ==> (#[trigger] final(marks)@[j] == (old(marks)@[j] || (
            final(slots)@[j] != old(slots)@[j]))),
{
    let ghost s0 = slots@;
    let ghost m0 = marks@;
    let ghost t0 = *taken;
    let carry = if slots.len() < inventory::ARMOR_START {
        slots.len()
    } else {
        inventory::ARMOR_START
    };
    let mut i: usize = 0;
    while i < carry && *taken < amount
        invariant
            carry == carry_len(s0.len() as int),
            carry <= slots@.len(),
            i <= carry,
            spec_is_coin(item),
            value == spec_coin_value(item),
            t0 + wealth(s0) <= 4000000000000,
            coins_removed(s0, slots@, item),
            *taken + wealth_in(slots@, carry as int) == t0 + wealth_in(s0, carry as int),
            *taken >= t0,
            *taken - t0 == value * (count_in(s0, item, carry as int) - count_in(slots@, item, carry as int)),
            t0 < amount ==> *taken < amount + value,
            t0 >= amount ==> slots@ == s0 && *taken == t0,
            forall|j: int| i <= j < slots@.len() ==> slots@[j] == s0[j],
            drained_in_order(s0, slots@, item),
            *taken < amount ==> forall|j: int| 0 <= j < i ==> slot_count(#[trigger] slots@[j], item) == 0,
            marks@.len() == slots@.len(),
            forall|j: int|
                0 <= j < marks@.len() ==> (#[trigger] marks@[j] == (m0[j] || slots@[j] != s0[j])),
        decreases carry - i,
    {
        match slots[i] {
            Some(s) => {
                if s.item == item {
                    let need = amount - *taken;
                    let want = need / value + if need % value != 0 {
                        1
                    } else {
                        0
                    };
                    proof {
                        lemma_ceil_div(need, value, want);
                    }
                    let take: u16 = if want < s.count as u64 {
                        want as u16
                    } else {
                        s.count
                    };
                    let ghost before = slots@;
                    let nv = if s.count - take == 0 {
                        None
                    } else {
                        Some(InvSlot { item, count: s.count - take })
                    };
                    proof {
                        lemma_wealth_in_update(before, i as int, nv, carry as int);
                        lemma_wealth_nonneg(before.update(i as int, nv), carry as int);
                        crate::items::lemma_count_in_update(before, i as int, nv, item, carry as int);
                        let c0 = count_in(s0, item, carry as int);
                        let cb = count_in(before, item, carry as int);
                        assert(*taken - t0 + take * value == value * (c0 - (cb - take))) by (nonlinear_arith)
                            requires
                                *taken - t0 == value * (c0 - cb),
                        ;
                        assert(take * value <= want * value) by (nonlinear_arith)
                            requires
                                take <= want,
                        ;
                        assert(take as int * value == spec_coin_value(item) * s.count - spec_coin_value(
                            item,
                        ) * (s.count - take)) by (nonlinear_arith)
                            requires
                                value == spec_coin_value(item),
                        ;
                    }
                    *taken = *taken + take as u64 * value;
                    slots.set(i, nv);
                    marks.set(i, true);
                    proof {
                        assert forall|a: int, b: int|
                            #![trigger slot_count(s0[a], item), slots@[b]]
                            0 <= a < b < s0.len() && a < carry_len(s0.len() as int) && slots@[b]
                                != s0[b] && slot_count(s0[a], item) > 0 implies slots@[a] is None by {
                            if b == i {
                                assert(slot_count(before[a], item) == 0);
                                assert(before[a] != s0[a]);
                            } else {
                                assert(before[b] != s0[b]);
                                assert(slot_count(s0[a], item) > 0);
                            }
                        }
                        assert forall|j: int|
                            0 <= j < s0.len() && #[trigger] slots@[j] != s0[j] && slots@[j] is Some
                                implies slots@[j]->Some_0.count >= 1 by {
                            if j != i {
                                assert(before[j] != s0[j]);
                            }
                        }
                    }
                }
            },
            None => {},
        }
        i = i + 1;
    }
    proof {
        if *taken < amount {
            lemma_count_in_zero(slots@, item, carry as int);
        }
    }
}

/// Removes exactly `amount` copper worth of coins, breaking larger
/// denominations into change as needed. On success returns the changed
/// slot indices (increasing) and any change that found no room (the caller
/// drops it); returns `None`, touching nothing, when the carried total is
/// insufficient.
///
/// Strategy: drain coin stacks smallest-denomination-first until the amount
/// is covered, then re-add the overshoot as change through [`add_coins`].
#[verifier::rlimit(40)]
pub fn remove_coins(slots: &mut Vec<Option<InvSlot>>, amount: u64) -> (res: Option<
    (Vec<usize>, Vec<InvSlot>),
>)
    ensures
        res is None <==> wealth(old(slots)@) < amount,
        res is None ==> final(slots)@ == old(slots)@,
        res matches Some((changed, overflow)) ==> {
            &&& wealth(final(slots)@) + stacks_value(overflow@) == wealth(old(slots)@) - amount
            &&& only_coin_slots_changed(old(slots)@, final(slots)@)
            &&& all_coin_stacks(overflow@)
            &&& forall|a: int, b: int| 0 <= a < b < changed@.len() ==> changed@[a] < changed@[b]
            &&& forall|k: int|
                0 <= k < changed@.len() ==> #[trigger] changed@[k] < carry_len(
                    final(slots)@.len() as int,
                )
            &&& forall|i: int|
                0 <= i < final(slots)@.len() && final(slots)@[i] != old(slots)@[i]
                    ==> changed@.contains(i as usize)
            &&& paid(old(slots)@, final(slots)@, amount as int, changed@, overflow@)
            &&& forall|c: ItemId|
                spec_is_coin(c) && wealth_upto(old(slots)@, spec_coin_value(c)) >= amount
                    ==> #[trigger] larger_coins_untouched(
                    old(slots)@,
                    final(slots)@,
                    overflow@,
                    spec_coin_value(c),
                )
        },
{
    if coin_total(slots) < amount {
        return None;
    }
    let ghost s0 = slots@;
    proof {
        lemma_wealth_bound(s0, carry_len(s0.len() as int));
    }
    let mut marks = crate::items::no_marks(slots.len());
    let mut taken: u64 = 0;
    drain_coins(slots, ItemId::CopperCoin, 1, amount, &mut taken, &mut marks);
    let ghost s1 = slots@;
    let ghost t1 = taken;
    if taken < amount {
        drain_coins(slots, ItemId::SilverCoin, 100, amount, &mut taken, &mut marks);
    }
    let ghost s2 = slots@;
    let ghost t2 = taken;
    if taken < amount {
        drain_coins(slots, ItemId::GoldCoin, 10000, amount, &mut taken, &mut marks);
    }
    let ghost s3 = slots@;
    let ghost t3 = taken;
    if taken < amount {
        drain_coins(slots, ItemId::PlatinumCoin, 1000000, amount, &mut taken, &mut marks);
    }
    let ghost s4 = slots@;
    let ghost t4 = taken as int;
    proof {
        assert forall|c: ItemId|
            spec_is_coin(c) && wealth_upto(s0, spec_coin_value(c)) >= amount implies taken < amount
                + spec_coin_value(c) && #[trigger] larger_coins_untouched(
                s0,
                s4,
                Seq::empty(),
                spec_coin_value(c),
            ) by {
            lemma_drains_keep_larger(s0, s1, s2, s3, s4, t1 as int, t2 as int, t3 as int, t4, amount as int, c);
        }
    }
    proof {
        let n = carry_len(s0.len() as int);
        lemma_removed_coin_slots(s0, s1, ItemId::CopperCoin);
        if s2 != s1 {
            lemma_removed_coin_slots(s1, s2, ItemId::SilverCoin);
        } else {
            assert(only_coin_slots_changed(s1, s2));
        }
        if s3 != s2 {
            lemma_removed_coin_slots(s2, s3, ItemId::GoldCoin);
        } else {
            assert(only_coin_slots_changed(s2, s3));
        }
        if s4 != s3 {
            lemma_removed_coin_slots(s3, s4, ItemId::PlatinumCoin);
        } else {
            assert(only_coin_slots_changed(s3, s4));
        }
        lemma_coin_slots_trans(s0, s1, s2);
        lemma_coin_slots_trans(s0, s2, s3);
        lemma_coin_slots_trans(s0, s3, s4);
        if taken < amount {
            // Every denomination was drained: nothing is left, so the whole
            // wallet was taken — yet it covered `amount`.
            assert(t1 < amount && t2 < amount && t3 < amount);
            assert(coins_removed(s1, s2, ItemId::SilverCoin));
            assert(coins_removed(s2, s3, ItemId::GoldCoin));
            assert(coins_removed(s3, s4, ItemId::PlatinumCoin));
            lemma_removed_other(s1, s2, ItemId::SilverCoin, ItemId::CopperCoin, n);
            lemma_removed_other(s2, s3, ItemId::GoldCoin, ItemId::CopperCoin, n);
            lemma_removed_other(s3, s4, ItemId::PlatinumCoin, ItemId::CopperCoin, n);
            lemma_removed_other(s2, s3, ItemId::GoldCoin, ItemId::SilverCoin, n);
            lemma_removed_other(s3, s4, ItemId::PlatinumCoin, ItemId::SilverCoin, n);
            lemma_removed_other(s3, s4, ItemId::PlatinumCoin, ItemId::GoldCoin, n);
            lemma_wealth_split(s4, n);
            assert(false);
        }
    }
    assert(drained_smallest_first(s0, s4, amount as int)) by {
        lemma_drain_step(s0, s1, ItemId::CopperCoin, 0, t1 as int, amount as int);
        lemma_drain_step(s1, s2, ItemId::SilverCoin, t1 as int, t2 as int, amount as int);
        lemma_drain_step(s2, s3, ItemId::GoldCoin, t2 as int, t3 as int, amount as int);
        lemma_drain_step(s3, s4, ItemId::PlatinumCoin, t3 as int, t4, amount as int);
        assert(t1 == wealth(s0) - wealth(s1));
        assert(t2 == wealth(s0) - wealth(s2));
        assert(t3 == wealth(s0) - wealth(s3));
        assert(coin_drain(s0, s1, ItemId::CopperCoin, amount as int));
        assert(coin_drain(s1, s2, ItemId::SilverCoin, amount - (wealth(s0) - wealth(s1))));
        assert(coin_drain(s2, s3, ItemId::GoldCoin, amount - (wealth(s0) - wealth(s2))));
        assert(coin_drain(s3, s4, ItemId::PlatinumCoin, amount - (wealth(s0) - wealth(s3))));
    }
    assert forall|j: int| 0 <= j < marks@.len() implies (marks@[j] <==> s4[j] != s0[j]) by {
        assert(coins_removed(s1, s2, ItemId::SilverCoin));
        assert(coins_removed(s2, s3, ItemId::GoldCoin));
        assert(coins_removed(s3, s4, ItemId::PlatinumCoin));
        lemma_drains_touch(s0, s1, s2, s3, s4);
    }
    let mut overflow: Vec<InvSlot> = Vec::new();
    if taken == amount {
        proof {
            lemma_fill_nothing(s4);
        }
    }
    if taken > amount {
        let ghost before = slots@;
        let (idxs, spill) = add_coins(slots, taken - amount);
        proof {
            lemma_added_coin_slots(before, slots@);
            lemma_coin_slots_trans(s0, before, slots@);
            assert forall|c: ItemId|
                spec_is_coin(c) && wealth_upto(s0, spec_coin_value(c)) >= amount implies #[trigger] larger_coins_untouched(
                    s0,
                    slots@,
                    spill@,
                    spec_coin_value(c),
                ) by {
                let v = spec_coin_value(c);
                assert(larger_coins_untouched(s0, s4, Seq::empty(), v));
                lemma_change_keeps_larger(s4, slots@, spill@, (taken - amount) as int, v);
                lemma_untouched_trans(s0, s4, slots@, spill@, v);
            }
        }
        let mut k: usize = 0;
        while k < idxs.len()
            invariant
                k <= idxs@.len(),
                marks@.len() == slots@.len(),
                slots@.len() == s0.len(),
                forall|q: int| 0 <= q < idxs@.len() ==> #[trigger] idxs@[q] < slots@.len(),
                forall|j: int|
                    0 <= j < marks@.len() && marks@[j] ==> j < carry_len(s0.len() as int),
                forall|j: int|
                    0 <= j < marks@.len() && before[j] != s0[j] ==> marks@[j],
                forall|q: int| 0 <= q < k ==> marks@[#[trigger] idxs@[q] as int],
                forall|j: int|
                    0 <= j < marks@.len() && marks@[j] ==> before[j] != s0[j] || slots@[j]
                        != before[j],
                coins_added(before, slots@),
                forall|i: int|
                    0 <= i < slots@.len() ==> (idxs@.contains(i as usize) <==> slots@[i]
                        != before[i]),
            decreases idxs@.len() - k,
        {
            let j = idxs[k];
            proof {
                assert(idxs@[k as int] == j);
                assert(idxs@.contains(j));
                assert(slots@[j as int] != before[j as int]);
            }
            marks.set(j, true);
            k = k + 1;
        }
        proof {
            assert forall|j: int| 0 <= j < marks@.len() && slots@[j] != s0[j] implies marks@[j] by {
                if slots@[j] != before[j] {
                    assert(idxs@.contains(j as usize));
                    let q = choose|q: int| 0 <= q < idxs@.len() && idxs@[q] == j as usize;
                    assert(marks@[idxs@[q] as int]);
                }
            }
        }
        overflow = spill;
    }
    let changed = crate::items::marked_indices(&marks);
    proof {
        assert forall|i: int| 0 <= i < s0.len() implies (changed@.contains(i as usize) <==> (s4[i]
            != s0[i] || slots@[i] != s4[i])) by {
            if changed@.contains(i as usize) {
                let k = choose|k: int| 0 <= k < changed@.len() && changed@[k] == i as usize;
                assert(marks@[changed@[k] as int]);
            }
            if s4[i] != s0[i] || slots@[i] != s4[i] {
                assert(marks@[i]);
            }
        }
        if taken == amount {
            assert(overflow@ =~= Seq::<InvSlot>::empty());
            assert(stacks_count(overflow@, ItemId::CopperCoin) == 0);
            assert(all_coin_stacks(overflow@));
            assert(coins_granted(s4, slots@, 0, overflow@));
        }
        assert(wealth(s4) <= wealth(s0) - amount);
        assert(paid(s0, slots@, amount as int, changed@, overflow@));
        assert forall|i: int| 0 <= i < slots@.len() && slots@[i] != s0[i] implies changed@.contains(
            i as usize,
        ) by {
            assert(marks@[i]);
        }
        assert forall|k: int| 0 <= k < changed@.len() implies #[trigger] changed@[k] < carry_len(
            slots@.len() as int,
        ) by {
            assert(marks@[changed@[k] as int]);
        }
    }
    Some((changed, overflow))
}


// ---- Smallest coins first -------------------------------------------------------

/// Carried coin value in coins worth at most `v` copper each.
pub open spec fn wealth_upto(s: Seq<Option<InvSlot>>, v: int) -> int {
    carried(s, ItemId::CopperCoin) + (if v >= 100 {
        100 * carried(s, ItemId::SilverCoin)
    } else {
        0
    }) + (if v >= 10000 {
        10000 * carried(s, ItemId::GoldCoin)
    } else {
        0
    }) + (if v >= 1000000 {
        1000000 * carried(s, ItemId::PlatinumCoin)
    } else {
        0
    })
}

/// No coin worth more than `v` copper moved: each such coin's carried
/// count is unchanged, none of it spilled, and every slot that held one is
/// as it was.
pub open spec fn larger_coins_untouched(
    old: Seq<Option<InvSlot>>,
    new: Seq<Option<InvSlot>>,
    spill: Seq<InvSlot>,
    v: int,
) -> bool {
    forall|c: ItemId|
        #![trigger carried(new, c)]
        spec_is_coin(c) && spec_coin_value(c) > v ==> {
            &&& carried(new, c) == carried(old, c)
            &&& stacks_count(spill, c) == 0
            &&& forall|i: int| 0 <= i < old.len() && #[trigger] slot_count(old[i], c) > 0 ==> new[i] == old[i]
        }
}

proof fn lemma_stacks_count_nonneg(v: Seq<InvSlot>, item: ItemId)
    ensures
        stacks_count(v, item) >= 0,
    decreases v.len(),
{
    if v.len() > 0 {
        lemma_stacks_count_nonneg(v.drop_last(), item);
    }
}

/// Adding coins never lowers a coin's count, and raises it when a slot
/// that held that coin changed.
proof fn lemma_added_count(old: Seq<Option<InvSlot>>, new: Seq<Option<InvSlot>>, c: ItemId, n: int)
    requires
        coins_added(old, new),
        0 <= n <= old.len(),
    ensures
        count_in(new, c, n) >= count_in(old, c, n),
        forall|j: int|
            0 <= j < n && new[j] != old[j] && #[trigger] slot_count(old[j], c) > 0 ==> count_in(new, c, n)
                > count_in(old, c, n),
    decreases n,
{
    if n > 0 {
        lemma_added_count(old, new, c, n - 1);
        let j = n - 1;
        if new[j] != old[j] {
            let ns = new[j]->Some_0;
            assert(grown_slot(old[j], new[j], ns.item));
        }
    }
}

/// A drain of `d` leaves every other coin where it was.
proof fn lemma_removed_keeps(a: Seq<Option<InvSlot>>, b: Seq<Option<InvSlot>>, d: ItemId, c: ItemId)
    requires
        coins_removed(a, b, d),
        d != c,
    ensures
        carried(b, c) == carried(a, c),
        forall|i: int| 0 <= i < a.len() && #[trigger] slot_count(a[i], c) > 0 ==> b[i] == a[i],
{
    lemma_removed_other(a, b, d, c, carry_len(a.len() as int));
}

/// Change worth less than `v` adds no coin worth more than `v`.
proof fn lemma_change_keeps_larger(
    before: Seq<Option<InvSlot>>,
    after: Seq<Option<InvSlot>>,
    spill: Seq<InvSlot>,
    change: int,
    v: int,
)
    requires
        coins_added(before, after),
        forall|c: ItemId|
            spec_is_coin(c) ==> carried(after, c) + stacks_count(spill, c) == carried(before, c)
                + coin_digit(change, c),
        0 <= change < v,
        v == 1 || v == 100 || v == 10000 || v == 1000000,
    ensures
        larger_coins_untouched(before, after, spill, v),
{
    assert forall|c: ItemId| #![trigger carried(after, c)] spec_is_coin(c) && spec_coin_value(c) > v implies {
        &&& carried(after, c) == carried(before, c)
        &&& stacks_count(spill, c) == 0
        &&& forall|i: int| 0 <= i < before.len() && #[trigger] slot_count(before[i], c) > 0 ==> after[i] == before[i]
    } by {
        assert(coin_digit(change, c) == 0);
        lemma_stacks_count_nonneg(spill, c);
        let n = carry_len(before.len() as int);
        lemma_added_count(before, after, c, n);
        assert forall|i: int| 0 <= i < before.len() && #[trigger] slot_count(before[i], c) > 0 implies after[i] == before[i] by {
            if after[i] != before[i] {
                assert(i < n);
            }
        }
    }
}

proof fn lemma_untouched_trans(
    a: Seq<Option<InvSlot>>,
    b: Seq<Option<InvSlot>>,
    c: Seq<Option<InvSlot>>,
    spill: Seq<InvSlot>,
    v: int,
)
    requires
        a.len() == b.len(),
        larger_coins_untouched(a, b, Seq::empty(), v),
        larger_coins_untouched(b, c, spill, v),
    ensures
        larger_coins_untouched(a, c, spill, v),
{
    assert forall|x: ItemId| #![trigger carried(c, x)] spec_is_coin(x) && spec_coin_value(x) > v implies {
        &&& carried(c, x) == carried(a, x)
        &&& stacks_count(spill, x) == 0
        &&& forall|i: int| 0 <= i < a.len() && #[trigger] slot_count(a[i], x) > 0 ==> c[i] == a[i]
    } by {
        assert(carried(b, x) == carried(a, x));
        assert(carried(c, x) == carried(b, x));
        assert forall|i: int| 0 <= i < a.len() && #[trigger] slot_count(a[i], x) > 0 implies c[i] == a[i] by {
            assert(b[i] == a[i]);
            assert(slot_count(b[i], x) > 0);
        }
    }
}

/// Drains run smallest coin first and stop once the amount is covered: if
/// the coins worth at most `c` each cover `amount`, the drains overshoot it
/// by less than one `c` and touch no larger coin.
proof fn lemma_drains_keep_larger(
    s0: Seq<Option<InvSlot>>,
    s1: Seq<Option<InvSlot>>,
    s2: Seq<Option<InvSlot>>,
    s3: Seq<Option<InvSlot>>,
    s4: Seq<Option<InvSlot>>,
    t1: int,
    t2: int,
    t3: int,
    t4: int,
    amount: int,
    c: ItemId,
)
    requires
        amount >= 0,
        coins_removed(s0, s1, ItemId::CopperCoin),
        coins_removed(s1, s2, ItemId::SilverCoin),
        coins_removed(s2, s3, ItemId::GoldCoin),
        coins_removed(s3, s4, ItemId::PlatinumCoin),
        t1 < amount ==> carried(s1, ItemId::CopperCoin) == 0,
        t2 < amount ==> carried(s2, ItemId::SilverCoin) == 0,
        t3 < amount ==> carried(s3, ItemId::GoldCoin) == 0,
        t4 < amount ==> carried(s4, ItemId::PlatinumCoin) == 0,
        t1 == carried(s0, ItemId::CopperCoin) - carried(s1, ItemId::CopperCoin),
        t2 - t1 == 100 * (carried(s1, ItemId::SilverCoin) - carried(s2, ItemId::SilverCoin)),
        t3 - t2 == 10000 * (carried(s2, ItemId::GoldCoin) - carried(s3, ItemId::GoldCoin)),
        t4 - t3 == 1000000 * (carried(s3, ItemId::PlatinumCoin) - carried(s4, ItemId::PlatinumCoin)),
        0 < amount ==> t1 < amount + 1,
        t1 < amount ==> t2 < amount + 100,
        t2 < amount ==> t3 < amount + 10000,
        t3 < amount ==> t4 < amount + 1000000,
        0 >= amount ==> s1 == s0 && t1 == 0,
        t1 >= amount ==> s2 == s1 && t2 == t1,
        t2 >= amount ==> s3 == s2 && t3 == t2,
        t3 >= amount ==> s4 == s3 && t4 == t3,
        spec_is_coin(c),
        wealth_upto(s0, spec_coin_value(c)) >= amount,
    ensures
        amount <= t4 < amount + spec_coin_value(c),
        larger_coins_untouched(s0, s4, Seq::empty(), spec_coin_value(c)),
{
    let v = spec_coin_value(c);
    let cu = ItemId::CopperCoin;
    let ag = ItemId::SilverCoin;
    let au = ItemId::GoldCoin;
    let pt = ItemId::PlatinumCoin;
    lemma_removed_keeps(s0, s1, cu, ag);
    lemma_removed_keeps(s0, s1, cu, au);
    lemma_removed_keeps(s0, s1, cu, pt);
    lemma_removed_keeps(s1, s2, ag, au);
    lemma_removed_keeps(s1, s2, ag, pt);
    lemma_removed_keeps(s2, s3, au, pt);
    assert forall|x: ItemId| #![trigger carried(s4, x)] spec_is_coin(x) && spec_coin_value(x) > v implies {
        &&& carried(s4, x) == carried(s0, x)
        &&& stacks_count(Seq::<InvSlot>::empty(), x) == 0
        &&& forall|i: int| 0 <= i < s0.len() && #[trigger] slot_count(s0[i], x) > 0 ==> s4[i] == s0[i]
    } by {
        assert forall|i: int| 0 <= i < s0.len() && #[trigger] slot_count(s0[i], x) > 0 implies s4[i] == s0[i] by {
            if x == ag {
                assert(s1[i] == s0[i]);
            } else if x == au {
                assert(s1[i] == s0[i]);
                assert(slot_count(s1[i], x) > 0);
                assert(s2[i] == s1[i]);
            } else {
                assert(s1[i] == s0[i]);
                assert(slot_count(s1[i], x) > 0);
                assert(s2[i] == s1[i]);
                assert(slot_count(s2[i], x) > 0);
                assert(s3[i] == s2[i]);
            }
        }
    }
}


/// Granting coins adds their value: what the carry slots gained plus what
/// spilled is worth the amount granted.
pub proof fn lemma_granted_value(old: Seq<Option<InvSlot>>, new: Seq<Option<InvSlot>>, amount: int, spill: Seq<InvSlot>)
    requires
        coins_granted(old, new, amount, spill),
        amount >= 0,
    ensures
        wealth(new) + stacks_value(spill) == wealth(old) + amount,
{
    let n = carry_len(old.len() as int);
    lemma_wealth_split(old, n);
    lemma_wealth_split(new, n);
    lemma_stacks_split(spill);
    // Per coin, the carry slots gained its digit of `amount` but for what spilled.
    assert(carried(new, ItemId::PlatinumCoin) + stacks_count(spill, ItemId::PlatinumCoin)
        == carried(old, ItemId::PlatinumCoin) + coin_digit(amount, ItemId::PlatinumCoin));
    assert(carried(new, ItemId::GoldCoin) + stacks_count(spill, ItemId::GoldCoin) == carried(
        old,
        ItemId::GoldCoin,
    ) + coin_digit(amount, ItemId::GoldCoin));
    assert(carried(new, ItemId::SilverCoin) + stacks_count(spill, ItemId::SilverCoin) == carried(
        old,
        ItemId::SilverCoin,
    ) + coin_digit(amount, ItemId::SilverCoin));
    assert(carried(new, ItemId::CopperCoin) + stacks_count(spill, ItemId::CopperCoin) == carried(
        old,
        ItemId::CopperCoin,
    ) + coin_digit(amount, ItemId::CopperCoin));
    let r1 = amount % 1000000;
    let r2 = r1 % 10000;
    vstd::arithmetic::div_mod::lemma_fundamental_div_mod(amount, 1000000);
    vstd::arithmetic::div_mod::lemma_fundamental_div_mod(r1, 10000);
    vstd::arithmetic::div_mod::lemma_fundamental_div_mod(r2, 100);
    assert(1000000 * (amount / 1000000) + 10000 * (r1 / 10000) + 100 * (r2 / 100) + r2 % 100 == amount);
}

/// Paying back what was added restores the wealth: after coins worth
/// `amount` are granted and then `amount` is paid, the carried coins plus
/// everything that spilled on the way are worth what the inventory started
/// with.
pub proof fn lemma_add_remove_round_trip(
    s0: Seq<Option<InvSlot>>,
    s1: Seq<Option<InvSlot>>,
    s2: Seq<Option<InvSlot>>,
    amount: int,
    spill1: Seq<InvSlot>,
    touched: Seq<usize>,
    spill2: Seq<InvSlot>,
)
    requires
        amount >= 0,
        coins_granted(s0, s1, amount, spill1),
        paid(s1, s2, amount, touched, spill2),
    ensures
        wealth(s2) + stacks_value(spill1) + stacks_value(spill2) == wealth(s0),
{
    lemma_granted_value(s0, s1, amount, spill1);
    let d = choose|d: Seq<Option<InvSlot>>|
        #![trigger drained_smallest_first(s1, d, amount)]
        {
            &&& drained_smallest_first(s1, d, amount)
            &&& wealth(d) <= wealth(s1) - amount
            &&& coins_granted(d, s2, wealth(s1) - wealth(d) - amount, spill2)
            &&& forall|i: int|
                0 <= i < s1.len() ==> (touched.contains(i as usize) <==> (d[i] != s1[i] || s2[i]
                    != d[i]))
        };
    lemma_granted_value(d, s2, wealth(s1) - wealth(d) - amount, spill2);
}

} // verus!
