use ferraria::items::ItemId;
use ferraria::npc::{
    condition_holds, eligible_lines, merchant_shop, npc_data, pick_line, shop_price,
    DialogueCondition, DialogueCtx, NPC_KINDS,
};
use ferraria::protocol::NpcKind;

#[test]
fn shop_prices_match_design_7_3_and_item_values() {
    let expect: [(ItemId, u32); 8] = [
        (ItemId::Torch, 50),
        (ItemId::Bottle, 20),
        (ItemId::WoodenArrow, 5),
        (ItemId::LesserHealingPotion, 300),
        (ItemId::CopperPickaxe, 500),
        (ItemId::CopperAxe, 400),
        (ItemId::Anvil, 5_000),
        (ItemId::MiningHelmet, 40_000),
    ];
    let shop = merchant_shop();
    assert_eq!(shop.len(), expect.len());
    for (i, (item, price)) in expect.into_iter().enumerate() {
        assert_eq!(shop[i].item, item);
        assert_eq!(shop[i].price, price, "{item:?}");
        // These items' base values equal their shop price.
        assert_eq!(item.value(), price, "{item:?} value");
        assert_eq!(shop_price(item), Some(price));
    }
    assert_eq!(shop_price(ItemId::Dirt), None);
}

#[test]
fn default_lines_always_eligible_and_only_them_by_default() {
    for kind in NPC_KINDS {
        let ctx = DialogueCtx::default();
        let pool = eligible_lines(kind, &ctx);
        let defaults = npc_data(kind)
            .lines
            .iter()
            .filter(|l| l.cond == DialogueCondition::Default)
            .count();
        assert_eq!(pool.len(), defaults, "{kind:?} default fallback");
        assert!(!pool.is_empty());
        // pick_line covers the whole pool uniformly by roll.
        for roll in 0..pool.len() as u32 {
            assert_eq!(pick_line(kind, &ctx, roll), pool[roll as usize]);
        }
    }
}

/// Every conditional line is reachable under a ctx that satisfies exactly
/// its trigger.
#[test]
fn each_conditional_line_is_reachable() {
    let ctx_for = |cond: DialogueCondition| -> DialogueCtx {
        let mut ctx = DialogueCtx::default();
        match cond {
            DialogueCondition::Default => {}
            DialogueCondition::Night => ctx.night = true,
            DialogueCondition::NightPreWatcher => ctx.night = true,
            DialogueCondition::LowHp => ctx.low_hp = true,
            DialogueCondition::FullHp => ctx.full_hp = true,
            DialogueCondition::BossAlive => ctx.boss_alive = true,
            DialogueCondition::AfterWatcher => ctx.watcher_defeated = true,
            DialogueCondition::AfterAnyBoss => ctx.bone_warden_defeated = true,
            DialogueCondition::Homeless => ctx.homeless = true,
            DialogueCondition::RichPlayer => ctx.rich = true,
            DialogueCondition::PotionSick => ctx.potion_sick = true,
            DialogueCondition::SlimeMonarchDefeated => ctx.slime_monarch_defeated = true,
        }
        ctx
    };
    for kind in NPC_KINDS {
        for l in npc_data(kind).lines {
            let ctx = ctx_for(l.cond);
            assert!(
                eligible_lines(kind, &ctx).contains(&l.text),
                "{kind:?} line {:?} unreachable",
                l.text
            );
        }
    }
}

#[test]
fn condition_matrix() {
    let mut ctx = DialogueCtx {
        night: true,
        ..DialogueCtx::default()
    };
    assert!(condition_holds(DialogueCondition::Night, &ctx));
    assert!(condition_holds(DialogueCondition::NightPreWatcher, &ctx));
    ctx.watcher_defeated = true;
    assert!(
        !condition_holds(DialogueCondition::NightPreWatcher, &ctx),
        "pre-Watcher line retires once it's defeated"
    );
    assert!(condition_holds(DialogueCondition::AfterWatcher, &ctx));
    assert!(condition_holds(DialogueCondition::AfterAnyBoss, &ctx));
    let slime = DialogueCtx {
        slime_monarch_defeated: true,
        ..DialogueCtx::default()
    };
    assert!(condition_holds(DialogueCondition::AfterAnyBoss, &slime));
    assert!(condition_holds(DialogueCondition::SlimeMonarchDefeated, &slime));
    assert!(!condition_holds(DialogueCondition::AfterWatcher, &slime));
    assert!(!condition_holds(DialogueCondition::Night, &DialogueCtx::default()));
    assert!(!condition_holds(DialogueCondition::BossAlive, &DialogueCtx::default()));
    assert!(condition_holds(DialogueCondition::Default, &DialogueCtx::default()));
}

/// Table shape: 9 Sage lines, 8 Merchant, 8 Nurse, verbatim spot checks.
#[test]
fn line_tables_match_design_7_5() {
    assert_eq!(npc_data(NpcKind::Sage).lines.len(), 9);
    assert_eq!(npc_data(NpcKind::Merchant).lines.len(), 8);
    assert_eq!(npc_data(NpcKind::Nurse).lines.len(), 8);
    assert_eq!(
        npc_data(NpcKind::Sage).lines[6].text,
        "Less talking, more fighting! I'll be under this table."
    );
    assert_eq!(
        npc_data(NpcKind::Merchant).lines[2].text,
        "I buy junk at a fifth of its worth. It's not a scam, it's logistics."
    );
    assert_eq!(
        npc_data(NpcKind::Nurse).lines[7].text,
        "I can't purge potion sickness — your liver and I have an agreement."
    );
}

// ---- Own tests ---------------------------------------------------------------

#[test]
fn pick_line_wraps_the_roll_around_the_pool() {
    let ctx = DialogueCtx {
        night: true,
        ..DialogueCtx::default()
    };
    let pool = eligible_lines(NpcKind::Sage, &ctx);
    let n = pool.len() as u32;
    assert_eq!(pick_line(NpcKind::Sage, &ctx, n), pool[0]);
    assert_eq!(pick_line(NpcKind::Sage, &ctx, u32::MAX), pool[(u32::MAX % n) as usize]);
}

#[test]
fn any_boss_defeated_reads_every_boss_flag() {
    let mut ctx = DialogueCtx::default();
    assert!(!ctx.any_boss_defeated());
    ctx.bone_warden_defeated = true;
    assert!(ctx.any_boss_defeated());
}

#[test]
fn snapshot_state_bytes_pack_their_flags() {
    assert_eq!(ferraria::npc::anim::npc_state_byte(false, false), 0);
    assert_eq!(ferraria::npc::anim::npc_state_byte(true, false), 1);
    assert_eq!(ferraria::npc::anim::npc_state_byte(false, true), 2);
    assert_eq!(ferraria::npc::anim::npc_state_byte(true, true), 3);
    assert_eq!(ferraria::protocol::anim::player_anim_flags(true, false), 2);
    assert_eq!(ferraria::protocol::anim::player_anim_flags(false, true), 4);
    assert_eq!(ferraria::protocol::anim::player_anim_flags(true, true), 6);
    assert_eq!(ferraria::protocol::anim::player_anim_flags(false, false), 0);
}
