//! Town life on the server: per-player debuffs the Nurse clears, the
//! dialogue context built from live state, and the merchant and nurse
//! transactions over a player's inventory.

pub mod roster;
pub mod wander;

use vstd::prelude::*;

use crate::coins::{
    add_coins, coin_total, coins_granted, only_coin_slots_changed, paid, remove_coins, slot_wealth,
    spec_coin_value, spec_is_coin, stacks_value, wealth, wealth_in, lemma_wealth_in_update,
};
use crate::items::{
    add_to_inventory, carried, carry_len, carry_room, count_in, filled_in_order, grown_slot,
    inventory, lists_changes, only_added, slot_count, spec_max_stack, InvSlot, ItemId,
};
use crate::npc::{
    nurse_heal_cost, sell_price, shop_price, spec_nurse_heal_cost, spec_sell_price,
    spec_shop_price, DialogueCtx, LOW_HP_PERCENT, RICH_PLAYER_COPPER,
};
use crate::items::{marked_indices, no_marks};
use crate::npc::{merchant_shop, merchant_shop_spec, NPC_DEFENSE};
use crate::protocol::{ActiveDebuff, Debuff, ShopEntry};
use crate::tiles::TileId;
use crate::world::{World, WorldFlags, DAWN_TICK};
use crate::spec_damage;

verus! {

// ---- Debuffs --------------------------------------------------------------------

/// Number of debuffs in `s` a Nurse heal clears: all but Potion Sickness.
pub open spec fn clearable_count(s: Seq<ActiveDebuff>) -> int
    decreases s.len(),
{
    if s.len() == 0 {
        0
    } else {
        clearable_count(s.drop_last()) + if s.last().debuff == Debuff::PotionSickness {
            0int
        } else {
            1int
        }
    }
}

/// The Potion Sickness entries of `s`, in order.
pub open spec fn sickness_only(s: Seq<ActiveDebuff>) -> Seq<ActiveDebuff>
    decreases s.len(),
{
    if s.len() == 0 {
        Seq::empty()
    } else if s.last().debuff == Debuff::PotionSickness {
        sickness_only(s.drop_last()).push(s.last())
    } else {
        sickness_only(s.drop_last())
    }
}

/// After a Nurse heal nothing clearable is left, and every Potion
/// Sickness entry survives it.
pub proof fn lemma_clear_leaves_only_sickness(s: Seq<ActiveDebuff>)
    ensures
        clearable_count(sickness_only(s)) == 0,
        forall|k: int|
            0 <= k < s.len() && s[k].debuff == Debuff::PotionSickness ==> sickness_only(s).contains(
                #[trigger] s[k],
            ),
        forall|k: int|
            0 <= k < sickness_only(s).len() ==> (#[trigger] sickness_only(s)[k]).debuff
                == Debuff::PotionSickness,
    decreases s.len(),
{
    if s.len() > 0 {
        let p = s.drop_last();
        lemma_clear_leaves_only_sickness(p);
        let sp = sickness_only(p);
        let ss = sickness_only(s);
        if s.last().debuff == Debuff::PotionSickness {
            assert(ss.drop_last() =~= sp);
            assert forall|k: int| 0 <= k < s.len() && s[k].debuff == Debuff::PotionSickness implies ss.contains(#[trigger] s[k]) by {
                if k < p.len() {
                    assert(p[k] == s[k]);
                    let m = choose|m: int| 0 <= m < sp.len() && sp[m] == p[k];
                    assert(ss[m] == s[k]);
                } else {
                    assert(ss[ss.len() - 1] == s[k]);
                }
            }
            assert forall|k: int| 0 <= k < ss.len() implies (#[trigger] ss[k]).debuff == Debuff::PotionSickness by {
                if k < sp.len() {
                    assert(ss[k] == sp[k]);
                }
            }
        } else {
            assert forall|k: int| 0 <= k < s.len() && s[k].debuff == Debuff::PotionSickness implies ss.contains(#[trigger] s[k]) by {
                assert(p[k] == s[k]);
            }
        }
    }
}

/// A player's active debuffs.
#[derive(Debug)]
pub struct DebuffSet {
    active: Vec<ActiveDebuff>,
}

impl View for DebuffSet {
    type V = Seq<ActiveDebuff>;

    closed spec fn view(&self) -> Seq<ActiveDebuff> {
        self.active@
    }
}

impl Default for DebuffSet {
    fn default() -> (s: DebuffSet)
        ensures
            s@ == Seq::<ActiveDebuff>::empty(),
    {
        DebuffSet { active: Vec::new() }
    }
}

impl DebuffSet {
    pub fn has(&self, debuff: Debuff) -> (r: bool)
        ensures
            r == exists|k: int| 0 <= k < self@.len() && (#[trigger] self@[k]).debuff == debuff,
    {
        let mut i: usize = 0;
        while i < self.active.len()
            invariant
                i <= self.active@.len(),
                forall|k: int| 0 <= k < i ==> (#[trigger] self.active@[k]).debuff != debuff,
            decreases self.active@.len() - i,
        {
            if self.active[i].debuff == debuff {
                return true;
            }
            i = i + 1;
        }
        false
    }

    /// How many active debuffs a Nurse heal would clear (everything but
    /// Potion Sickness).
    pub fn nurse_clearable(&self) -> (n: u32)
        requires
            self@.len() <= u32::MAX,
        ensures
            n == clearable_count(self@),
    {
        let mut n: u32 = 0;
        let mut i: usize = 0;
        while i < self.active.len()
            invariant
                i <= self.active@.len(),
                self.active@.len() <= u32::MAX,
                n == clearable_count(self.active@.subrange(0, i as int)),
                n <= i,
            decreases self.active@.len() - i,
        {
            proof {
                assert(self.active@.subrange(0, i + 1).drop_last() =~= self.active@.subrange(0, i as int));
            }
            if self.active[i].debuff != Debuff::PotionSickness {
                n = n + 1;
            }
            i = i + 1;
        }
        proof {
            assert(self.active@.subrange(0, i as int) =~= self.active@);
        }
        n
    }

    /// Clears everything except Potion Sickness.
    pub fn clear_except_potion_sickness(&mut self)
        ensures
            final(self)@ == sickness_only(old(self)@),
    {
        let mut kept: Vec<ActiveDebuff> = Vec::new();
        let mut i: usize = 0;
        while i < self.active.len()
            invariant
                i <= self.active@.len(),
                kept@ == sickness_only(self.active@.subrange(0, i as int)),
            decreases self.active@.len() - i,
        {
            proof {
                assert(self.active@.subrange(0, i + 1).drop_last() =~= self.active@.subrange(0, i as int));
            }
            let d = self.active[i];
            if d.debuff == Debuff::PotionSickness {
                kept.push(d);
            }
            i = i + 1;
        }
        proof {
            assert(self.active@.subrange(0, i as int) =~= self.active@);
        }
        self.active = kept;
    }

    /// Wire form for the debuff broadcast.
    pub fn as_wire(&self) -> (v: Vec<ActiveDebuff>)
        ensures
            v@ == self@,
    {
        let mut v: Vec<ActiveDebuff> = Vec::new();
        let mut i: usize = 0;
        while i < self.active.len()
            invariant
                i <= self.active@.len(),
                v@ == self.active@.subrange(0, i as int),
            decreases self.active@.len() - i,
        {
            v.push(self.active[i]);
            i = i + 1;
        }
        proof {
            assert(self.active@.subrange(0, i as int) =~= self.active@);
        }
        v
    }

    /// Adds a debuff (debuffs are applied by combat; this is the seam tests
    /// use).
    pub fn insert_for_test(&mut self, debuff: Debuff, remaining_ticks: u32)
        ensures
            final(self)@ == old(self)@.push(ActiveDebuff { debuff, remaining_ticks }),
    {
        self.active.push(ActiveDebuff { debuff, remaining_ticks });
    }
}

// ---- Dialogue context -----------------------------------------------------------

/// The dialogue context for a talk: world and boss state, the talking
/// player's HP, coins and debuffs, and whether the NPC is homeless.
pub fn dialogue_ctx(
    night: bool,
    boss_alive: bool,
    flags: WorldFlags,
    hp: u32,
    max_hp: u32,
    inventory: &Vec<Option<InvSlot>>,
    debuffs: &DebuffSet,
    homeless: bool,
) -> (ctx: DialogueCtx)
    requires
        hp * 100 <= u32::MAX,
        max_hp * LOW_HP_PERCENT <= u32::MAX,
    ensures
        ctx.night == night,
        ctx.boss_alive == boss_alive,
        ctx.watcher_defeated == flags.watcher_defeated,
        ctx.slime_monarch_defeated == flags.slime_monarch_defeated,
        ctx.bone_warden_defeated == flags.bone_warden_defeated,
        ctx.low_hp == (hp * 100 < max_hp * LOW_HP_PERCENT),
        ctx.full_hp == (hp >= max_hp),
        ctx.rich == (wealth(inventory@) > RICH_PLAYER_COPPER),
        ctx.potion_sick == exists|k: int|
            0 <= k < debuffs@.len() && (#[trigger] debuffs@[k]).debuff == Debuff::PotionSickness,
        ctx.homeless == homeless,
{
    DialogueCtx {
        night,
        boss_alive,
        watcher_defeated: flags.watcher_defeated,
        slime_monarch_defeated: flags.slime_monarch_defeated,
        bone_warden_defeated: flags.bone_warden_defeated,
        low_hp: hp * 100 < max_hp * LOW_HP_PERCENT,
        full_hp: hp >= max_hp,
        rich: coin_total(inventory) > RICH_PLAYER_COPPER,
        potion_sick: debuffs.has(Debuff::PotionSickness),
        homeless,
    }
}


// ---- Merchant and Nurse -----------------------------------------------------------

/// Adding a non-coin item leaves the carried coin value alone.
pub proof fn lemma_wealth_item_added(old: Seq<Option<InvSlot>>, new: Seq<Option<InvSlot>>, item: ItemId, n: int)
    requires
        only_added(old, new, item),
        !spec_is_coin(item),
        0 <= n <= old.len(),
    ensures
        wealth_in(new, n) == wealth_in(old, n),
    decreases n,
{
    if n > 0 {
        lemma_wealth_item_added(old, new, item, n - 1);
        if new[n - 1] != old[n - 1] {
            assert(grown_slot(old[n - 1], new[n - 1], item));
        }
    }
}

/// Paying only moves coins: the count of any other item is unchanged.
pub proof fn lemma_count_coin_slots(old: Seq<Option<InvSlot>>, new: Seq<Option<InvSlot>>, item: ItemId, n: int)
    requires
        only_coin_slots_changed(old, new),
        !spec_is_coin(item),
        0 <= n <= old.len(),
    ensures
        count_in(new, item, n) == count_in(old, item, n),
    decreases n,
{
    if n > 0 {
        lemma_count_coin_slots(old, new, item, n - 1);
        if new[n - 1] != old[n - 1] {
            assert(slot_count(new[n - 1], item) == 0);
            assert(slot_count(old[n - 1], item) == 0);
        }
    }
}

/// `new` is `old` after paying `amount` copper in coins (see [`paid`];
/// `spill` is the change that found no room), then adding up to `count` of
/// `item` to the carry slots in fill order, `leftover` of them finding no
/// room. `changed` lists the slots the payment touched, then the slots the
/// goods went to, each part in slot order.
pub open spec fn paid_then_added(
    old: Seq<Option<InvSlot>>,
    new: Seq<Option<InvSlot>>,
    amount: int,
    spill: Seq<InvSlot>,
    item: ItemId,
    count: int,
    leftover: int,
    changed: Seq<usize>,
) -> bool {
    exists|p: Seq<Option<InvSlot>>, k: int|
        #![trigger paid(old, p, amount, changed.take(k), spill)]
        {
            &&& 0 <= k <= changed.len()
            &&& paid(old, p, amount, changed.take(k), spill)
            &&& only_added(p, new, item)
            &&& filled_in_order(p, new, item)
            &&& lists_changes(p, new, changed.skip(k))
            &&& leftover == if count <= carry_room(p, item) {
                0
            } else {
                count - carry_room(p, item)
            }
        }
}

/// How a purchase went.
#[derive(Debug)]
pub enum Purchase {
    /// The merchant doesn't stock the item.
    Unstocked,
    /// A count of zero or of more than one stack.
    BadCount,
    /// The buyer can't pay; nothing changed.
    TooPoor,
    /// Paid and delivered. `changed`: the slots the payment touched (in
    /// slot order), then the slots the goods went to; `change_spill`: change
    /// that found no room; `leftover`: goods that found no room. The caller
    /// drops both at the buyer.
    Bought { changed: Vec<usize>, change_spill: Vec<InvSlot>, leftover: u16 },
}

/// Buys `count` of `item` from the merchant: validates the stock and the
/// count, pays in coins (breaking larger coins into change), then delivers
/// into the carry slots.
pub fn buy(inv: &mut Vec<Option<InvSlot>>, item: ItemId, count: u16) -> (p: Purchase)
    ensures
        p is Unstocked <==> spec_shop_price(item) is None,
        p is BadCount <==> spec_shop_price(item) is Some && (count == 0 || count > spec_max_stack(item)),
        p is TooPoor <==> (spec_shop_price(item) is Some && 0 < count <= spec_max_stack(item)
            && wealth(old(inv)@) < spec_shop_price(item)->Some_0 * count),
        !(p is Bought) ==> final(inv)@ == old(inv)@,
        p matches Purchase::Bought { changed, change_spill, leftover } ==> {
            let price = spec_shop_price(item)->Some_0;
            &&& paid_then_added(old(inv)@, final(inv)@, price * count, change_spill@, item, count as int, leftover as int, changed@)
            &&& wealth(final(inv)@) + stacks_value(change_spill@) == wealth(old(inv)@) - price * count
            &&& carried(final(inv)@, item) + leftover == carried(old(inv)@, item) + count
            &&& forall|k: int| 0 <= k < changed@.len() ==> #[trigger] changed@[k] < final(inv)@.len()
            &&& forall|i: int| 0 <= i < final(inv)@.len() && final(inv)@[i] != old(inv)@[i] ==> changed@.contains(i as usize)
        },
{
    let price = match shop_price(item) {
        Some(p) => p,
        None => {
            return Purchase::Unstocked;
        },
    };
    if count == 0 || count > item.max_stack() {
        return Purchase::BadCount;
    }
    let total: u64 = price as u64 * count as u64;
    let ghost s0 = inv@;
    let (mut changed, change_spill) = match remove_coins(inv, total) {
        Some(r) => r,
        None => {
            return Purchase::TooPoor;
        },
    };
    let ghost s1 = inv@;
    let ghost c1 = changed@;
    proof {
        // The shop stocks no coins, and paying only touched coin slots.
        assert(!spec_is_coin(item));
    }
    let (added, add_changed) = add_to_inventory(inv, item, count);
    proof {
        lemma_wealth_item_added(s1, inv@, item, carry_len(s1.len() as int));
        lemma_count_coin_slots(s0, s1, item, carry_len(s0.len() as int));
    }
    let mut j: usize = 0;
    while j < add_changed.len()
        invariant
            j <= add_changed@.len(),
            changed@ == c1 + add_changed@.subrange(0, j as int),
        decreases add_changed@.len() - j,
    {
        changed.push(add_changed[j]);
        proof {
            assert(add_changed@.subrange(0, j + 1) =~= add_changed@.subrange(0, j as int).push(add_changed@[j as int]));
        }
        j = j + 1;
    }
    proof {
        assert(add_changed@.subrange(0, j as int) =~= add_changed@);
        assert forall|k: int| 0 <= k < changed@.len() implies #[trigger] changed@[k] < inv@.len() by {
            if k < c1.len() {
                assert(changed@[k] == c1[k]);
            } else {
                assert(changed@[k] == add_changed@[k - c1.len()]);
            }
        }
        assert forall|i: int| 0 <= i < inv@.len() && inv@[i] != s0[i] implies changed@.contains(i as usize) by {
            if inv@[i] != s1[i] {
                let k = choose|k: int| 0 <= k < add_changed@.len() && add_changed@[k] == i as usize;
                assert(changed@[c1.len() + k] == i as usize);
            } else {
                let k = choose|k: int| 0 <= k < c1.len() && c1[k] == i as usize;
                assert(changed@[k] == i as usize);
            }
        }
    }
    let leftover: u16 = count - added;
    proof {
        assert(only_added(s1, inv@, item));
        assert(leftover as int == if count <= carry_room(s1, item) { 0 } else { count - carry_room(s1, item) });
        assert(carried(s1, item) == carried(s0, item));
        let pr = spec_shop_price(item)->Some_0;
        assert(pr == price);
        let k = c1.len() as int;
        assert(changed@.take(k) =~= c1);
        assert(changed@.skip(k) =~= add_changed@);
        assert(paid(s0, s1, pr * count, changed@.take(k), change_spill@));
        assert(lists_changes(s1, inv@, changed@.skip(k)));
        assert(paid_then_added(s0, inv@, pr * count, change_spill@, item, count as int, leftover as int, changed@));
        assert(wealth(inv@) + stacks_value(change_spill@) == wealth(s0) - pr * count);
        assert(carried(inv@, item) + leftover == carried(s0, item) + count);
    }
    Purchase::Bought { changed, change_spill, leftover }
}


/// What a slot holds after `count` of its stack is taken.
pub open spec fn taken_from(slot: Option<InvSlot>, count: int) -> Option<InvSlot> {
    match slot {
        Some(s) => if s.count > count {
            Some(InvSlot { item: s.item, count: (s.count - count) as u16 })
        } else {
            None
        },
        None => None,
    }
}

/// A sell request names a stack in the inventory and at most its count.
pub open spec fn sale_ok(inv: Seq<Option<InvSlot>>, slot: int, count: int) -> bool {
    &&& slot < inventory::TOTAL
    &&& slot < inv.len()
    &&& inv[slot] is Some
    &&& 0 < count <= inv[slot]->Some_0.count
}

/// How a sale went.
#[derive(Debug)]
pub enum Sale {
    /// No such stack, or a count of zero or more than the stack.
    BadRequest,
    /// The merchant won't buy this item: it's worth nothing, or it's
    /// money.
    Refused(ItemId),
    /// Sold. `changed`: the slots the payment touched (in slot order),
    /// then the sold slot; `spill`: coins that found no room.
    Sold { changed: Vec<usize>, spill: Vec<InvSlot> },
}

/// Sells `count` of the stack in `slot` to the merchant at `sell_price`
/// each, paid in coins.
pub fn sell(inv: &mut Vec<Option<InvSlot>>, slot: u8, count: u16) -> (s: Sale)
    ensures
        s is BadRequest <==> !sale_ok(old(inv)@, slot as int, count as int),
        s matches Sale::Refused(it) ==> sale_ok(old(inv)@, slot as int, count as int)
            && it == old(inv)@[slot as int]->Some_0.item,
        s is Refused <==> sale_ok(old(inv)@, slot as int, count as int)
            && spec_sell_price(old(inv)@[slot as int]->Some_0.item) == 0,
        !(s is Sold) ==> final(inv)@ == old(inv)@,
        s matches Sale::Sold { changed, spill } ==> {
            let item = old(inv)@[slot as int]->Some_0.item;
            let sold = old(inv)@.update(slot as int, taken_from(old(inv)@[slot as int], count as int));
            &&& coins_granted(sold, final(inv)@, spec_sell_price(item) * count, spill@)
            &&& wealth(final(inv)@) + stacks_value(spill@) == wealth(old(inv)@) + spec_sell_price(item) * count
            &&& changed@.len() >= 1
            &&& changed@.last() == slot as usize
            &&& lists_changes(sold, final(inv)@, changed@.drop_last())
            &&& forall|k: int| 0 <= k < changed@.len() ==> #[trigger] changed@[k] < final(inv)@.len()
            &&& forall|i: int| 0 <= i < final(inv)@.len() && final(inv)@[i] != old(inv)@[i] ==> changed@.contains(i as usize)
        },
{
    let idx: usize = slot as usize;
    if idx >= inventory::TOTAL || idx >= inv.len() {
        return Sale::BadRequest;
    }
    let stack = match inv[idx] {
        Some(s) => s,
        None => {
            return Sale::BadRequest;
        },
    };
    if count == 0 || count > stack.count {
        return Sale::BadRequest;
    }
    let each = sell_price(stack.item);
    if each == 0 {
        return Sale::Refused(stack.item);
    }
    let ghost s0 = inv@;
    let left = stack.count - count;
    let rest = if left > 0 {
        Some(InvSlot::new(stack.item, left))
    } else {
        None
    };
    inv.set(idx, rest);
    proof {
        assert(inv@ == s0.update(idx as int, taken_from(s0[idx as int], count as int)));
        assert(!spec_is_coin(stack.item));
        lemma_wealth_in_update(s0, idx as int, rest, carry_len(s0.len() as int));
    }
    let ghost s1 = inv@;
    assert(each as u64 * count as u64 <= 0xffff_ffff * 0xffff) by (nonlinear_arith)
        requires
            each <= 0xffff_ffffu32,
            count <= 0xffffu16,
    ;
    let total: u64 = each as u64 * count as u64;
    let (mut changed, spill) = add_coins(inv, total);
    let ghost c1 = changed@;
    changed.push(idx);
    proof {
        assert(changed@.drop_last() =~= c1);
        assert forall|i: int| 0 <= i < inv@.len() && inv@[i] != s0[i] implies changed@.contains(i as usize) by {
            if i == idx {
                assert(changed@[c1.len() as int] == idx);
            } else {
                assert(inv@[i] != s1[i]);
                let k = choose|k: int| 0 <= k < c1.len() && c1[k] == i as usize;
                assert(changed@[k] == i as usize);
            }
        }
        assert forall|k: int| 0 <= k < changed@.len() implies #[trigger] changed@[k] < inv@.len() by {
            if k < c1.len() {
                assert(changed@[k] == c1[k]);
            }
        }
    }
    Sale::Sold { changed, spill }
}

/// The HP a heal restores: what `hp` lacks of `max_hp`.
pub open spec fn hp_missing(hp: u32, max_hp: u32) -> int {
    if hp >= max_hp {
        0
    } else {
        max_hp - hp
    }
}

/// How a Nurse heal went.
#[derive(Debug)]
pub enum Heal {
    /// Already at full health with nothing to clear: no effect and no
    /// charge.
    FullHealth,
    /// Can't pay; nothing changed.
    TooPoor,
    /// Healed to full and cleared every debuff but Potion Sickness, for
    /// `cost` copper. `changed`: the slots the payment touched (in slot
    /// order); `spill`: change that found no room.
    Healed { cost: u64, changed: Vec<usize>, spill: Vec<InvSlot> },
}

/// A Nurse heal: full restore and every debuff but Potion Sickness
/// cleared, for the cost `nurse_heal_cost` gives the HP restored and the
/// debuffs cleared. Full HP with nothing to clear is a free no-op.
pub fn nurse_heal(
    inv: &mut Vec<Option<InvSlot>>,
    hp: &mut u32,
    max_hp: u32,
    debuffs: &mut DebuffSet,
    watcher_defeated: bool,
    bone_warden_defeated: bool,
) -> (r: Heal)
    requires
        old(debuffs)@.len() <= u32::MAX,
    ensures
        r is FullHealth <==> *old(hp) >= max_hp && clearable_count(old(debuffs)@) == 0,
        r is TooPoor <==> !(*old(hp) >= max_hp && clearable_count(old(debuffs)@) == 0) && wealth(
            old(inv)@,
        ) < spec_nurse_heal_cost(
            hp_missing(*old(hp), max_hp),
            clearable_count(old(debuffs)@),
            watcher_defeated,
            bone_warden_defeated,
        ),
        !(r is Healed) ==> final(inv)@ == old(inv)@ && *final(hp) == *old(hp) && final(debuffs)@
            == old(debuffs)@,
        r matches Heal::Healed { cost, changed, spill } ==> {
            &&& cost == spec_nurse_heal_cost(
                hp_missing(*old(hp), max_hp),
                clearable_count(old(debuffs)@),
                watcher_defeated,
                bone_warden_defeated,
            )
            &&& *final(hp) == max_hp
            &&& final(debuffs)@ == sickness_only(old(debuffs)@)
            &&& paid(old(inv)@, final(inv)@, cost as int, changed@, spill@)
            &&& forall|k: int| 0 <= k < changed@.len() ==> #[trigger] changed@[k] < final(inv)@.len()
            &&& forall|i: int| 0 <= i < final(inv)@.len() && final(inv)@[i] != old(inv)@[i] ==> changed@.contains(i as usize)
        },
{
    let restored: u32 = if *hp >= max_hp {
        0
    } else {
        max_hp - *hp
    };
    let cleared = debuffs.nurse_clearable();
    if restored == 0 && cleared == 0 {
        return Heal::FullHealth;
    }
    let cost = nurse_heal_cost(restored, cleared, watcher_defeated, bone_warden_defeated);
    let (changed, spill) = match remove_coins(inv, cost) {
        Some(r) => r,
        None => {
            return Heal::TooPoor;
        },
    };
    *hp = max_hp;
    debuffs.clear_except_potion_sickness();
    Heal::Healed { cost, changed, spill }
}


// ---- Ticks, hits, beds and deltas ------------------------------------------------

/// Arrival conditions are checked at dawn and on every in-game hour
/// (3600 ticks, 60 real seconds).
pub const IN_GAME_HOUR_TICKS: u32 = 3600;

/// What a tick of day means for the town NPCs.
#[derive(Debug, Clone, Copy, PartialEq, Eq, Structural)]
pub enum TownTick {
    /// Dawn: revalidate homes, claim houses, respawn, check arrivals.
    Dawn,
    /// On the hour: check arrivals.
    Arrivals,
    /// Nothing but the NPCs' own behaviour.
    Quiet,
}

/// The town NPC event of a tick of day.
pub fn town_tick(time: u32) -> (t: TownTick)
    ensures
        t == if time == DAWN_TICK {
            TownTick::Dawn
        } else if time % IN_GAME_HOUR_TICKS == 0 {
            TownTick::Arrivals
        } else {
            TownTick::Quiet
        },
{
    if time == DAWN_TICK {
        TownTick::Dawn
    } else if time % IN_GAME_HOUR_TICKS == 0 {
        TownTick::Arrivals
    } else {
        TownTick::Quiet
    }
}

/// A town NPC's HP after an enemy's contact hit of `attack`: the damage
/// formula against NPC defense, floored at 0 (the NPC dies at 0).
pub fn npc_hp_after_hit(hp: u32, attack: u32) -> (r: u32)
    ensures
        r == if hp >= spec_damage(attack as int, NPC_DEFENSE as int) {
            hp - spec_damage(attack as int, NPC_DEFENSE as int)
        } else {
            0
        },
{
    let dmg = crate::damage_dealt(attack, NPC_DEFENSE);
    if hp >= dmg {
        hp - dmg
    } else {
        0
    }
}

/// The bed spawn a click on `(x, y)` sets: the origin of the bed there, if
/// the cell is in the world and part of a bed.
pub fn bed_origin_at(world: &World, x: u32, y: u32) -> (r: Option<(u32, u32)>)
    requires
        world.wf(),
    ensures
        r is Some <==> world.spec_in_bounds(x as int, y as int) && world.cell(x as int, y as int).id == TileId::Bed,
        r matches Some(o) ==> o == world.spec_origin(x as int, y as int),
{
    if !world.in_bounds(x, y) || !matches!(world.tile(x, y).id, TileId::Bed) {
        return None;
    }
    Some(world.multitile_origin(x, y))
}

/// A stored bed spawn still holds: the origin cell is still a bed whose
/// origin it is (checked at respawn time).
pub fn bed_still_stands(world: &World, origin: (u32, u32)) -> (r: bool)
    requires
        world.wf(),
        world.spec_in_bounds(origin.0 as int, origin.1 as int),
    ensures
        r == (world.cell(origin.0 as int, origin.1 as int).id == TileId::Bed && world.spec_origin(
            origin.0 as int,
            origin.1 as int,
        ) == origin),
{
    if !matches!(world.tile(origin.0, origin.1).id, TileId::Bed) {
        return false;
    }
    let o = world.multitile_origin(origin.0, origin.1);
    o.0 == origin.0 && o.1 == origin.1
}

/// The merchant's catalog as shop rows, in catalog order.
pub fn shop_entries() -> (v: Vec<ShopEntry>)
    ensures
        v@.len() == merchant_shop_spec().len(),
        forall|k: int|
            0 <= k < v@.len() ==> (#[trigger] v@[k]).item == merchant_shop_spec()[k].item && v@[k].price
                == merchant_shop_spec()[k].price,
{
    let shop = merchant_shop();
    let mut v: Vec<ShopEntry> = Vec::new();
    let mut i: usize = 0;
    while i < 8
        invariant
            i <= 8,
            shop@ == merchant_shop_spec(),
            v@.len() == i,
            forall|k: int|
                0 <= k < i ==> (#[trigger] v@[k]).item == shop@[k].item && v@[k].price == shop@[k].price,
        decreases 8 - i,
    {
        v.push(ShopEntry { item: shop[i].item, price: shop[i].price });
        i = i + 1;
    }
    v
}

/// The slots to report after a transaction touched `changed`: each one
/// inside an inventory of `len` slots, once, in slot order.
pub fn touched_slots(changed: &Vec<usize>, len: usize) -> (res: Vec<usize>)
    ensures
        forall|a: int, b: int| 0 <= a < b < res@.len() ==> res@[a] < res@[b],
        forall|k: int| 0 <= k < res@.len() ==> #[trigger] res@[k] < len && changed@.contains(res@[k]),
        forall|k: int| 0 <= k < changed@.len() && #[trigger] changed@[k] < len ==> res@.contains(changed@[k]),
{
    let mut marks = no_marks(len);
    let mut i: usize = 0;
    while i < changed.len()
        invariant
            i <= changed@.len(),
            marks@.len() == len,
            forall|j: int| 0 <= j < len && #[trigger] marks@[j] ==> changed@.contains(j as usize),
            forall|k: int| 0 <= k < i && #[trigger] changed@[k] < len ==> marks@[changed@[k] as int],
        decreases changed@.len() - i,
    {
        let c = changed[i];
        if c < len {
            marks.set(c, true);
            proof {
                assert(changed@[i as int] == c);
            }
        }
        i = i + 1;
    }
    let res = marked_indices(&marks);
    proof {
        assert forall|k: int| 0 <= k < changed@.len() && #[trigger] changed@[k] < len implies res@.contains(changed@[k]) by {
            assert(marks@[changed@[k] as int]);
        }
    }
    res
}

/// The slot deltas for the touched slots: each slot's index (as the wire's
/// `u8`) and what it now holds.
pub fn slot_deltas(touched: &Vec<usize>, inventory: &Vec<Option<InvSlot>>) -> (d: Vec<(u8, Option<InvSlot>)>)
    requires
        forall|k: int| 0 <= k < touched@.len() ==> #[trigger] touched@[k] < inventory@.len(),
    ensures
        d@.len() == touched@.len(),
        forall|k: int|
            0 <= k < d@.len() ==> (#[trigger] d@[k]).0 == touched@[k] as u8 && d@[k].1 == inventory@[touched@[k] as int],
{
    let mut d: Vec<(u8, Option<InvSlot>)> = Vec::new();
    let mut i: usize = 0;
    while i < touched.len()
        invariant
            i <= touched@.len(),
            forall|k: int| 0 <= k < touched@.len() ==> #[trigger] touched@[k] < inventory@.len(),
            d@.len() == i,
            forall|k: int|
                0 <= k < i ==> (#[trigger] d@[k]).0 == touched@[k] as u8 && d@[k].1 == inventory@[touched@[k] as int],
        decreases touched@.len() - i,
    {
        let t = touched[i];
        d.push((t as u8, inventory[t]));
        i = i + 1;
    }
    d
}

} // verus!
