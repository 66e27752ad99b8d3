//! Town NPC data tables: stats, arrival conditions, the merchant shop,
//! nurse pricing, and the dialogue tables with their condition tags.
//!
//! Shared because both sides need it: the server evaluates arrivals,
//! transactions, and dialogue selection authoritatively; the client renders
//! shop prices, sell-price tooltips, and the live Nurse cost preview from
//! the same numbers.

pub mod anim;

use vstd::prelude::*;

use crate::coins::{is_coin, spec_is_coin};
use crate::items::{spec_value, ItemId};
pub use crate::protocol::NpcKind;

verus! {

// ---- Stats ------------------------------------------------------------------
/// Town NPCs are passive, 250 HP, 15 defense, and fight back for 10 damage
/// when hurt.
pub const NPC_HP: u32 = 250;

pub const NPC_DEFENSE: u32 = 15;

pub const NPC_FIGHT_BACK_DAMAGE: u32 = 10;

/// Day wander leash: within 25 tiles of home.
pub const NPC_WANDER_RADIUS: u32 = 25;

/// Talk/shop/heal interaction range in tiles, player center to NPC center:
/// reach (6 tiles) plus a body-width of slack.
pub const NPC_TALK_RANGE: u32 = 7;

// ---- Arrival ----------------------------------------------------------------
/// Merchant: all players' combined inventory coins >= 50 SC.
pub const MERCHANT_ARRIVAL_COPPER: u64 = 5000;

/// Nurse: any player's max HP over 100, i.e. has used a Life Crystal.
pub const NURSE_ARRIVAL_MAX_HP: u32 = 100;

/// Every town NPC kind, in roster order.
pub const NPC_KINDS: [NpcKind; 3] = [NpcKind::Sage, NpcKind::Merchant, NpcKind::Nurse];

/// Why/when an NPC kind moves in. The variants carry the thresholds.
#[derive(Debug, Clone, Copy, PartialEq, Eq, Structural)]
pub enum ArrivalCondition {
    /// Sage: at world spawn from the start.
    WorldStart,
    /// Merchant: all players' (online and offline) combined coins >= this
    /// many copper, plus a vacant valid house.
    CombinedCoinsAtLeast(u64),
    /// Nurse: any player's (online or offline) max HP strictly over this,
    /// the Merchant present, plus a vacant valid house.
    MaxHpOverAndMerchantPresent(u32),
}

// ---- Dialogue ---------------------------------------------------------------
/// Condition tag on a dialogue line. `Default` lines are always eligible.
#[derive(Debug, Clone, Copy, PartialEq, Eq, Structural)]
pub enum DialogueCondition {
    Default,
    Night,
    /// Night, before The Watcher has been defeated.
    NightPreWatcher,
    /// Talking player's HP < 30%.
    LowHp,
    /// Talking player at full HP.
    FullHp,
    /// Any boss currently alive.
    BossAlive,
    /// The Watcher defeated (world flag).
    AfterWatcher,
    /// Any boss defeated (world flag).
    AfterAnyBoss,
    /// This NPC has no assigned house.
    Homeless,
    /// Talking player carries > 1 GC in coins.
    RichPlayer,
    /// Talking player has Potion Sickness active.
    PotionSick,
    /// Slime Monarch defeated (world flag).
    SlimeMonarchDefeated,
}

/// One dialogue line with its condition tag.
#[derive(Debug, Clone, Copy)]
pub struct DialogueLine {
    pub cond: DialogueCondition,
    pub text: &'static str,
}

pub fn line(cond: DialogueCondition, text: &'static str) -> (l: DialogueLine)
    ensures
        l.cond == cond,
        l.text == text,
{
    DialogueLine { cond, text }
}

/// Static per-NPC-kind data.
#[derive(Debug)]
pub struct NpcData {
    /// Nameplate, "<name> the <role>" style.
    pub display_name: &'static str,
    /// Kind name for announcements ("The Merchant has arrived!").
    pub kind_name: &'static str,
    pub arrival: ArrivalCondition,
    /// The dialogue table, verbatim.
    pub lines: Vec<DialogueLine>,
}

/// The live state a dialogue pick is evaluated against.
#[derive(Debug, Clone, Copy)]
pub struct DialogueCtx {
    pub night: bool,
    pub boss_alive: bool,
    pub watcher_defeated: bool,
    pub slime_monarch_defeated: bool,
    pub bone_warden_defeated: bool,
    /// Talking player's HP < 30% of max.
    pub low_hp: bool,
    /// Talking player at full HP.
    pub full_hp: bool,
    /// Talking player carries > 1 GC in coins.
    pub rich: bool,
    /// Talking player has Potion Sickness.
    pub potion_sick: bool,
    /// The NPC being talked to has no house.
    pub homeless: bool,
}

impl Default for DialogueCtx {
    fn default() -> (ctx: DialogueCtx)
        ensures
            !ctx.night && !ctx.boss_alive && !ctx.watcher_defeated && !ctx.slime_monarch_defeated
                && !ctx.bone_warden_defeated && !ctx.low_hp && !ctx.full_hp && !ctx.rich
                && !ctx.potion_sick && !ctx.homeless,
    {
        DialogueCtx {
            night: false,
            boss_alive: false,
            watcher_defeated: false,
            slime_monarch_defeated: false,
            bone_warden_defeated: false,
            low_hp: false,
            full_hp: false,
            rich: false,
            potion_sick: false,
            homeless: false,
        }
    }
}

impl DialogueCtx {
    pub open spec fn spec_any_boss_defeated(&self) -> bool {
        self.watcher_defeated || self.slime_monarch_defeated || self.bone_warden_defeated
    }

    pub fn any_boss_defeated(&self) -> (r: bool)
        ensures
            r == self.spec_any_boss_defeated(),
    {
        self.watcher_defeated || self.slime_monarch_defeated || self.bone_warden_defeated
    }
}

/// Does `cond` hold in `ctx`? (`Default` always does.)
pub open spec fn spec_condition_holds(cond: DialogueCondition, ctx: DialogueCtx) -> bool {
    match cond {
        DialogueCondition::Default => true,
        DialogueCondition::Night => ctx.night,
        DialogueCondition::NightPreWatcher => ctx.night && !ctx.watcher_defeated,
        DialogueCondition::LowHp => ctx.low_hp,
        DialogueCondition::FullHp => ctx.full_hp,
        DialogueCondition::BossAlive => ctx.boss_alive,
        DialogueCondition::AfterWatcher => ctx.watcher_defeated,
        DialogueCondition::AfterAnyBoss => ctx.spec_any_boss_defeated(),
        DialogueCondition::Homeless => ctx.homeless,
        DialogueCondition::RichPlayer => ctx.rich,
        DialogueCondition::PotionSick => ctx.potion_sick,
        DialogueCondition::SlimeMonarchDefeated => ctx.slime_monarch_defeated,
    }
}

/// Does `cond` hold in `ctx`? (`Default` always does.)
pub fn condition_holds(cond: DialogueCondition, ctx: &DialogueCtx) -> (r: bool)
    ensures
        r == spec_condition_holds(cond, *ctx),
{
    match cond {
        DialogueCondition::Default => true,
        DialogueCondition::Night => ctx.night,
        DialogueCondition::NightPreWatcher => ctx.night && !ctx.watcher_defeated,
        DialogueCondition::LowHp => ctx.low_hp,
        DialogueCondition::FullHp => ctx.full_hp,
        DialogueCondition::BossAlive => ctx.boss_alive,
        DialogueCondition::AfterWatcher => ctx.watcher_defeated,
        DialogueCondition::AfterAnyBoss => ctx.any_boss_defeated(),
        DialogueCondition::Homeless => ctx.homeless,
        DialogueCondition::RichPlayer => ctx.rich,
        DialogueCondition::PotionSick => ctx.potion_sick,
        DialogueCondition::SlimeMonarchDefeated => ctx.slime_monarch_defeated,
    }
}

/// The dialogue table of `kind`: condition tags and texts, in order.
pub open spec fn spec_lines(kind: NpcKind) -> Seq<(DialogueCondition, Seq<char>)> {
    match kind {
        NpcKind::Sage => seq![
            (DialogueCondition::Default, "You can press buttons to chop trees. Wood builds everything — start with a workbench."@),
            (DialogueCondition::Default, "If you see a pot, smash it. If you see a heart-shaped crystal, REALLY smash it."@),
            (DialogueCondition::Default, "Furnaces smelt ore into bars. Three copper ore per bar — the deeper metals cost four."@),
            (DialogueCondition::Night, "Keep your walls sealed at night. Zombies can't open doors, but they're patient."@),
            (DialogueCondition::NightPreWatcher, "Sometimes I feel an enormous gaze on the back of my neck. Probably nothing."@),
            (DialogueCondition::LowHp, "You look terrible. Gel, a mushroom, and a bottle make a healing potion — write that down."@),
            (DialogueCondition::BossAlive, "Less talking, more fighting! I'll be under this table."@),
            (DialogueCondition::AfterWatcher, "You actually beat it. The old stories say a crowned slime and a buried warden remain."@),
            (DialogueCondition::Homeless, "Build me a room — walls, a door, a light, a table, a chair. I'm not picky. That's a lie, I'm exactly that picky."@),
        ],
        NpcKind::Merchant => seq![
            (DialogueCondition::Default, "Everything's for sale, friend. Even my respect — that one's pricey."@),
            (DialogueCondition::Default, "Torches! Fifty copper! Darkness is free and look where THAT gets you."@),
            (DialogueCondition::Default, "I buy junk at a fifth of its worth. It's not a scam, it's logistics."@),
            (DialogueCondition::Night, "We're open all night. Mostly because I can't sleep with all that moaning outside."@),
            (DialogueCondition::RichPlayer, "Is that gold I smell? My prices may have just... matured."@),
            (DialogueCondition::BossAlive, "Shop's open but the refund window is CLOSED until that thing stops screaming."@),
            (DialogueCondition::LowHp, "No bleeding on the merchandise. Healing potion, three silver. A bargain, given the alternative."@),
            (DialogueCondition::SlimeMonarchDefeated, "You sold me forty units of royal gel. I respect the hustle."@),
        ],
        NpcKind::Nurse => seq![
            (DialogueCondition::Default, "Walk it off? No. Pay me, and I'll fix it properly."@),
            (DialogueCondition::Default, "I've seen every injury this world can produce. You're going to show me a new one, aren't you."@),
            (DialogueCondition::LowHp, "Sit. Down. Now. You're getting blood on the floor I just had."@),
            (DialogueCondition::FullHp, "You're fine. Stop wasting my time and go get hurt somewhere."@),
            (DialogueCondition::Night, "Night shift again. The screaming outside really completes the clinic ambiance."@),
            (DialogueCondition::BossAlive, "Triage rules: heroes first, cowards pay double. Kidding. Mostly."@),
            (DialogueCondition::AfterAnyBoss, "Fewer monsters means fewer patients. Don't take that personally."@),
            (DialogueCondition::PotionSick, "I can't purge potion sickness — your liver and I have an agreement."@),
        ],
    }
}

/// `lines` is the dialogue table `table`.
pub open spec fn lines_match(lines: Seq<DialogueLine>, table: Seq<(DialogueCondition, Seq<char>)>) -> bool {
    &&& lines.len() == table.len()
    &&& forall|k: int| 0 <= k < lines.len() ==> #[trigger] lines[k].cond == table[k].0 && lines[k].text@ == table[k].1
}

/// When each NPC kind moves in.
pub open spec fn spec_arrival(kind: NpcKind) -> ArrivalCondition {
    match kind {
        NpcKind::Sage => ArrivalCondition::WorldStart,
        NpcKind::Merchant => ArrivalCondition::CombinedCoinsAtLeast(MERCHANT_ARRIVAL_COPPER),
        NpcKind::Nurse => ArrivalCondition::MaxHpOverAndMerchantPresent(NURSE_ARRIVAL_MAX_HP),
    }
}

/// The name an NPC of `kind` is shown under.
pub open spec fn spec_display_name(kind: NpcKind) -> Seq<char> {
    match kind {
        NpcKind::Sage => "Sage the Guide"@,
        NpcKind::Merchant => "Fenwick the Merchant"@,
        NpcKind::Nurse => "Mira the Nurse"@,
    }
}

/// Static data of one NPC kind.
pub fn npc_data(kind: NpcKind) -> (d: NpcData)
    ensures
        lines_match(d.lines@, spec_lines(kind)),
        d.arrival == spec_arrival(kind),
        d.display_name@ == spec_display_name(kind),
        d.kind_name@ == match kind {
            NpcKind::Sage => "Sage"@,
            NpcKind::Merchant => "Merchant"@,
            NpcKind::Nurse => "Nurse"@,
        },
{
    let mut lines: Vec<DialogueLine> = Vec::new();
    match kind {
        NpcKind::Sage => {
            lines.push(line(DialogueCondition::Default, "You can press buttons to chop trees. Wood builds everything — start with a workbench."));
            lines.push(line(DialogueCondition::Default, "If you see a pot, smash it. If you see a heart-shaped crystal, REALLY smash it."));
            lines.push(line(DialogueCondition::Default, "Furnaces smelt ore into bars. Three copper ore per bar — the deeper metals cost four."));
            lines.push(line(DialogueCondition::Night, "Keep your walls sealed at night. Zombies can't open doors, but they're patient."));
            lines.push(line(DialogueCondition::NightPreWatcher, "Sometimes I feel an enormous gaze on the back of my neck. Probably nothing."));
            lines.push(line(DialogueCondition::LowHp, "You look terrible. Gel, a mushroom, and a bottle make a healing potion — write that down."));
            lines.push(line(DialogueCondition::BossAlive, "Less talking, more fighting! I'll be under this table."));
            lines.push(line(DialogueCondition::AfterWatcher, "You actually beat it. The old stories say a crowned slime and a buried warden remain."));
            lines.push(line(DialogueCondition::Homeless, "Build me a room — walls, a door, a light, a table, a chair. I'm not picky. That's a lie, I'm exactly that picky."));
            proof {
                assert(lines_match(lines@, spec_lines(kind)));
            }
            NpcData {
                display_name: "Sage the Guide",
                kind_name: "Sage",
                arrival: ArrivalCondition::WorldStart,
                lines,
            }
        },
        NpcKind::Merchant => {
            lines.push(line(DialogueCondition::Default, "Everything's for sale, friend. Even my respect — that one's pricey."));
            lines.push(line(DialogueCondition::Default, "Torches! Fifty copper! Darkness is free and look where THAT gets you."));
            lines.push(line(DialogueCondition::Default, "I buy junk at a fifth of its worth. It's not a scam, it's logistics."));
            lines.push(line(DialogueCondition::Night, "We're open all night. Mostly because I can't sleep with all that moaning outside."));
            lines.push(line(DialogueCondition::RichPlayer, "Is that gold I smell? My prices may have just... matured."));
            lines.push(line(DialogueCondition::BossAlive, "Shop's open but the refund window is CLOSED until that thing stops screaming."));
            lines.push(line(DialogueCondition::LowHp, "No bleeding on the merchandise. Healing potion, three silver. A bargain, given the alternative."));
            lines.push(line(DialogueCondition::SlimeMonarchDefeated, "You sold me forty units of royal gel. I respect the hustle."));
            proof {
                assert(lines_match(lines@, spec_lines(kind)));
            }
            NpcData {
                display_name: "Fenwick the Merchant",
                kind_name: "Merchant",
                arrival: ArrivalCondition::CombinedCoinsAtLeast(MERCHANT_ARRIVAL_COPPER),
                lines,
            }
        },
        NpcKind::Nurse => {
            lines.push(line(DialogueCondition::Default, "Walk it off? No. Pay me, and I'll fix it properly."));
            lines.push(line(DialogueCondition::Default, "I've seen every injury this world can produce. You're going to show me a new one, aren't you."));
            lines.push(line(DialogueCondition::LowHp, "Sit. Down. Now. You're getting blood on the floor I just had."));
            lines.push(line(DialogueCondition::FullHp, "You're fine. Stop wasting my time and go get hurt somewhere."));
            lines.push(line(DialogueCondition::Night, "Night shift again. The screaming outside really completes the clinic ambiance."));
            lines.push(line(DialogueCondition::BossAlive, "Triage rules: heroes first, cowards pay double. Kidding. Mostly."));
            lines.push(line(DialogueCondition::AfterAnyBoss, "Fewer monsters means fewer patients. Don't take that personally."));
            lines.push(line(DialogueCondition::PotionSick, "I can't purge potion sickness — your liver and I have an agreement."));
            proof {
                assert(lines_match(lines@, spec_lines(kind)));
            }
            NpcData {
                display_name: "Mira the Nurse",
                kind_name: "Nurse",
                arrival: ArrivalCondition::MaxHpOverAndMerchantPresent(NURSE_ARRIVAL_MAX_HP),
                lines,
            }
        },
    }
}

/// The texts of the first `n` lines of `table` whose condition holds in
/// `ctx`, in table order.
pub open spec fn eligible_upto(table: Seq<(DialogueCondition, Seq<char>)>, ctx: DialogueCtx, n: int) -> Seq<
    Seq<char>,
>
    decreases n,
{
    if n <= 0 {
        Seq::empty()
    } else if spec_condition_holds(table[n - 1].0, ctx) {
        eligible_upto(table, ctx, n - 1).push(table[n - 1].1)
    } else {
        eligible_upto(table, ctx, n - 1)
    }
}

/// The texts of all lines of `kind` whose condition holds in `ctx`.
pub open spec fn spec_eligible(kind: NpcKind, ctx: DialogueCtx) -> Seq<Seq<char>> {
    eligible_upto(spec_lines(kind), ctx, spec_lines(kind).len() as int)
}

/// Eligible pools only grow as more lines are considered.
pub proof fn lemma_eligible_grows(table: Seq<(DialogueCondition, Seq<char>)>, ctx: DialogueCtx, n: int)
    requires
        1 <= n,
        spec_condition_holds(table[0].0, ctx),
    ensures
        eligible_upto(table, ctx, n).len() >= 1,
    decreases n,
{
    if n > 1 {
        lemma_eligible_grows(table, ctx, n - 1);
    }
}

/// `text` is the text of one of the first `n` lines of `table` whose
/// condition holds in `ctx`.
pub open spec fn holding_line_text(table: Seq<(DialogueCondition, Seq<char>)>, ctx: DialogueCtx, n: int, text: Seq<char>) -> bool {
    exists|j: int| 0 <= j < n && spec_condition_holds((#[trigger] table[j]).0, ctx) && table[j].1 == text
}

/// The eligible pool is the table's lines whose condition holds: each pool
/// entry is the text of a line whose condition holds, every line whose
/// condition holds has its text in the pool, and the pool has no more
/// entries than lines considered.
pub proof fn lemma_eligible_is_the_holding_lines(table: Seq<(DialogueCondition, Seq<char>)>, ctx: DialogueCtx, n: int)
    requires
        0 <= n <= table.len(),
    ensures
        forall|k: int|
            0 <= k < eligible_upto(table, ctx, n).len() ==> holding_line_text(
                table,
                ctx,
                n,
                #[trigger] eligible_upto(table, ctx, n)[k],
            ),
        forall|j: int|
            0 <= j < n && spec_condition_holds((#[trigger] table[j]).0, ctx) ==> eligible_upto(table, ctx, n).contains(
                table[j].1,
            ),
        eligible_upto(table, ctx, n).len() <= n,
    decreases n,
{
    if n > 0 {
        lemma_eligible_is_the_holding_lines(table, ctx, n - 1);
        let p = eligible_upto(table, ctx, n - 1);
        let q = eligible_upto(table, ctx, n);
        assert forall|k: int| 0 <= k < p.len() implies holding_line_text(table, ctx, n, #[trigger] p[k]) by {
            assert(holding_line_text(table, ctx, n - 1, p[k]));
            let j = choose|j: int| 0 <= j < n - 1 && spec_condition_holds((#[trigger] table[j]).0, ctx) && table[j].1 == p[k];
            assert(table[j].1 == p[k]);
        }
        if spec_condition_holds(table[n - 1].0, ctx) {
            assert(q == p.push(table[n - 1].1));
            assert forall|k: int| 0 <= k < q.len() implies holding_line_text(table, ctx, n, #[trigger] q[k]) by {
                if k < p.len() {
                    assert(q[k] == p[k]);
                } else {
                    assert(q[k] == table[n - 1].1);
                    assert(table[n - 1].1 == q[k]);
                }
            }
            assert forall|j: int| 0 <= j < n && spec_condition_holds((#[trigger] table[j]).0, ctx) implies q.contains(
                table[j].1,
            ) by {
                if j < n - 1 {
                    assert(p.contains(table[j].1));
                    let m = choose|m: int| 0 <= m < p.len() && p[m] == table[j].1;
                    assert(q[m] == table[j].1);
                } else {
                    assert(q[p.len() as int] == table[j].1);
                }
            }
        } else {
            assert(q == p);
        }
    }
}

/// The pool of eligible lines is never empty: every kind's first line is a
/// `Default` line.
pub proof fn lemma_pool_never_empty(kind: NpcKind, ctx: DialogueCtx)
    ensures
        spec_eligible(kind, ctx).len() >= 1,
{
    lemma_eligible_grows(spec_lines(kind), ctx, spec_lines(kind).len() as int);
}

/// All lines of `kind` whose condition holds (`Default` always eligible —
/// the pool is never empty), in table order.
pub fn eligible_lines(kind: NpcKind, ctx: &DialogueCtx) -> (pool: Vec<&'static str>)
    ensures
        pool@.len() == spec_eligible(kind, *ctx).len(),
        forall|k: int| 0 <= k < pool@.len() ==> #[trigger] pool@[k]@ == spec_eligible(kind, *ctx)[k],
        pool@.len() >= 1,
{
    let data = npc_data(kind);
    let ghost table = spec_lines(kind);
    let mut pool: Vec<&'static str> = Vec::new();
    let mut i: usize = 0;
    while i < data.lines.len()
        invariant
            i <= data.lines@.len(),
            lines_match(data.lines@, table),
            pool@.len() == eligible_upto(table, *ctx, i as int).len(),
            forall|k: int| 0 <= k < pool@.len() ==> #[trigger] pool@[k]@ == eligible_upto(table, *ctx, i as int)[k],
        decreases data.lines@.len() - i,
    {
        let l = data.lines[i];
        if condition_holds(l.cond, ctx) {
            pool.push(l.text);
        }
        i = i + 1;
    }
    proof {
        lemma_pool_never_empty(kind, *ctx);
    }
    pool
}

/// Uniform pick among the eligible lines: `roll` is any random `u32`; the
/// caller supplies the entropy so selection stays pure and testable.
pub fn pick_line(kind: NpcKind, ctx: &DialogueCtx, roll: u32) -> (text: &'static str)
    ensures
        text@ == spec_eligible(kind, *ctx)[roll as int % spec_eligible(kind, *ctx).len() as int],
{
    let pool = eligible_lines(kind, ctx);
    let k: usize = roll as usize % pool.len();
    pool[k]
}

/// "Player coins > 1 GC" threshold for [`DialogueCondition::RichPlayer`].
pub const RICH_PLAYER_COPPER: u64 = 10000;

/// "Player HP < 30%" threshold for [`DialogueCondition::LowHp`], in percent.
pub const LOW_HP_PERCENT: u32 = 30;

// ---- Merchant shop ----------------------------------------------------------
/// One stock row. Prices are in copper and equal the item's base value.
#[derive(Debug, Clone, Copy, PartialEq, Eq, Structural)]
pub struct ShopItem {
    pub item: ItemId,
    pub price: u32,
}

/// Buy price of `item` at the merchant, if stocked.
pub open spec fn spec_shop_price(item: ItemId) -> Option<u32> {
    match item {
        ItemId::Torch => Some(50u32),
        ItemId::Bottle => Some(20u32),
        ItemId::WoodenArrow => Some(5u32),
        ItemId::LesserHealingPotion => Some(300u32),
        ItemId::CopperPickaxe => Some(500u32),
        ItemId::CopperAxe => Some(400u32),
        ItemId::Anvil => Some(5000u32),
        ItemId::MiningHelmet => Some(40000u32),
        _ => None,
    }
}

/// The merchant's stock, in catalog order.
pub fn merchant_shop() -> (shop: [ShopItem; 8])
    ensures
        shop@ == seq![
            ShopItem { item: ItemId::Torch, price: 50u32 },
            ShopItem { item: ItemId::Bottle, price: 20u32 },
            ShopItem { item: ItemId::WoodenArrow, price: 5u32 },
            ShopItem { item: ItemId::LesserHealingPotion, price: 300u32 },
            ShopItem { item: ItemId::CopperPickaxe, price: 500u32 },
            ShopItem { item: ItemId::CopperAxe, price: 400u32 },
            ShopItem { item: ItemId::Anvil, price: 5000u32 },
            ShopItem { item: ItemId::MiningHelmet, price: 40000u32 },
        ],
{
    [
        ShopItem { item: ItemId::Torch, price: 50 },
        ShopItem { item: ItemId::Bottle, price: 20 },
        ShopItem { item: ItemId::WoodenArrow, price: 5 },
        ShopItem { item: ItemId::LesserHealingPotion, price: 3 * crate::COPPER_PER_SILVER },
        ShopItem { item: ItemId::CopperPickaxe, price: 5 * crate::COPPER_PER_SILVER },
        ShopItem { item: ItemId::CopperAxe, price: 4 * crate::COPPER_PER_SILVER },
        ShopItem { item: ItemId::Anvil, price: 50 * crate::COPPER_PER_SILVER },
        ShopItem { item: ItemId::MiningHelmet, price: 4 * crate::COPPER_PER_GOLD },
    ]
}

/// Buy price of `item` at the merchant, if stocked: the price of its first
/// catalog row.
pub fn shop_price(item: ItemId) -> (p: Option<u32>)
    ensures
        p == spec_shop_price(item),
{
    let shop = merchant_shop();
    let mut i: usize = 0;
    while i < 8
        invariant
            i <= 8,
            shop@ == merchant_shop_spec(),
            forall|k: int| 0 <= k < i ==> shop@[k].item != item,
        decreases 8 - i,
    {
        if shop[i].item == item {
            return Some(shop[i].price);
        }
        i = i + 1;
    }
    None
}

/// The merchant's stock, in catalog order.
pub open spec fn merchant_shop_spec() -> Seq<ShopItem> {
    seq![
        ShopItem { item: ItemId::Torch, price: 50u32 },
        ShopItem { item: ItemId::Bottle, price: 20u32 },
        ShopItem { item: ItemId::WoodenArrow, price: 5u32 },
        ShopItem { item: ItemId::LesserHealingPotion, price: 300u32 },
        ShopItem { item: ItemId::CopperPickaxe, price: 500u32 },
        ShopItem { item: ItemId::CopperAxe, price: 400u32 },
        ShopItem { item: ItemId::Anvil, price: 5000u32 },
        ShopItem { item: ItemId::MiningHelmet, price: 40000u32 },
    ]
}

/// The merchant buys anything back at 20% of base value, rounded down. 0
/// means unsellable: items with no value, and coins (whose value *is* their
/// face value; selling money at 20% would destroy 80% of it).
pub const SELL_PRICE_PERCENT: u32 = 20;

/// Sell price of one `item`, in copper.
pub open spec fn spec_sell_price(item: ItemId) -> int {
    if spec_is_coin(item) {
        0
    } else {
        spec_value(item) * 20 / 100
    }
}

pub fn sell_price(item: ItemId) -> (p: u32)
    ensures
        p == spec_sell_price(item),
        p * 5 <= spec_value(item),
{
    if is_coin(item) {
        return 0;
    }
    let v: u32 = item.value();
    v * SELL_PRICE_PERCENT / 100
}

/// Each dialogue condition is read off the context alone: a boss condition
/// holds exactly when its own boss flag is set, the night conditions by
/// the time of day (and, before The Watcher, its flag), and the player and
/// NPC conditions by their own fields.
pub proof fn lemma_conditions_read_their_flags(ctx: DialogueCtx)
    ensures
        spec_condition_holds(DialogueCondition::Default, ctx),
        spec_condition_holds(DialogueCondition::Night, ctx) == ctx.night,
        spec_condition_holds(DialogueCondition::NightPreWatcher, ctx) == (ctx.night && !ctx.watcher_defeated),
        spec_condition_holds(DialogueCondition::LowHp, ctx) == ctx.low_hp,
        spec_condition_holds(DialogueCondition::FullHp, ctx) == ctx.full_hp,
        spec_condition_holds(DialogueCondition::BossAlive, ctx) == ctx.boss_alive,
        spec_condition_holds(DialogueCondition::AfterWatcher, ctx) == ctx.watcher_defeated,
        spec_condition_holds(DialogueCondition::AfterAnyBoss, ctx) == (ctx.watcher_defeated
            || ctx.slime_monarch_defeated || ctx.bone_warden_defeated),
        spec_condition_holds(DialogueCondition::Homeless, ctx) == ctx.homeless,
        spec_condition_holds(DialogueCondition::RichPlayer, ctx) == ctx.rich,
        spec_condition_holds(DialogueCondition::PotionSick, ctx) == ctx.potion_sick,
        spec_condition_holds(DialogueCondition::SlimeMonarchDefeated, ctx) == ctx.slime_monarch_defeated,
{
}

// ---- Nurse pricing ----------------------------------------------------------
/// Minimum charge for any (non-no-op) heal, in copper.
pub const NURSE_MIN_COST: u64 = 10;

/// 1 CC per HP restored.
pub const NURSE_COST_PER_HP: u64 = 1;

/// 1 SC per debuff cleared.
pub const NURSE_COST_PER_DEBUFF: u64 = 100;

/// Price multipliers once The Watcher / The Bone Warden are defeated. They
/// don't stack: the Bone Warden's x10 supersedes the Watcher's x3.
pub const NURSE_WATCHER_MULT: u64 = 3;

pub const NURSE_BONE_WARDEN_MULT: u64 = 10;

/// Heal cost in copper: `1 CC x HP restored + 1 SC per debuff cleared`, x3
/// once The Watcher is defeated, x10 once The Bone Warden is, minimum
/// 10 CC.
pub open spec fn spec_nurse_heal_cost(
    hp_restored: int,
    debuffs_cleared: int,
    watcher_defeated: bool,
    bone_warden_defeated: bool,
) -> int {
    let base: int = hp_restored + 100 * debuffs_cleared;
    let mult: int = if bone_warden_defeated {
        10
    } else if watcher_defeated {
        3
    } else {
        1
    };
    if base * mult >= 10 {
        base * mult
    } else {
        10
    }
}

/// The nurse's prices: with no boss defeated a heal costs its HP plus 100
/// per debuff, at least 10; each debuff cleared costs what 100 more HP
/// would; and once the base is at least 10 the Watcher triples and the
/// Bone Warden multiplies by ten the whole price, debuffs included.
pub proof fn lemma_nurse_cost_laws(h: int, d: int, watcher: bool, bone_warden: bool)
    requires
        h >= 0,
        d >= 0,
    ensures
        spec_nurse_heal_cost(h, d, false, false) == (if h + 100 * d >= 10 { h + 100 * d } else { 10 }),
        spec_nurse_heal_cost(h, d + 1, watcher, bone_warden) == spec_nurse_heal_cost(h + 100, d, watcher, bone_warden),
        h + 100 * d >= 10 ==> spec_nurse_heal_cost(h, d, true, false) == 3 * spec_nurse_heal_cost(h, d, false, false),
        h + 100 * d >= 10 ==> spec_nurse_heal_cost(h, d, watcher, true) == 10 * spec_nurse_heal_cost(h, d, false, false),
        spec_nurse_heal_cost(h, d, watcher, bone_warden) >= 10,
{
}

/// Heal cost in copper. The caller handles the full-HP no-op (no charge)
/// case itself.
pub fn nurse_heal_cost(
    hp_restored: u32,
    debuffs_cleared: u32,
    watcher_defeated: bool,
    bone_warden_defeated: bool,
) -> (cost: u64)
    ensures
        cost == spec_nurse_heal_cost(
            hp_restored as int,
            debuffs_cleared as int,
            watcher_defeated,
            bone_warden_defeated,
        ),
        cost >= NURSE_MIN_COST,
{
    let base: u64 = hp_restored as u64 * NURSE_COST_PER_HP + debuffs_cleared as u64 * NURSE_COST_PER_DEBUFF;
    let mult: u64 = if bone_warden_defeated {
        NURSE_BONE_WARDEN_MULT
    } else if watcher_defeated {
        NURSE_WATCHER_MULT
    } else {
        1
    };
    assert(base * mult <= 5000000000000) by (nonlinear_arith)
        requires
            base <= 500000000000,
            mult <= 10,
    ;
    let cost: u64 = base * mult;
    if cost >= NURSE_MIN_COST {
        cost
    } else {
        NURSE_MIN_COST
    }
}

} // verus!
