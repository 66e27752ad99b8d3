//! The town NPC roster as the housing rules see it: who lives where, the
//! dawn revalidation of homes (rules 1-6 per room, rule 7 one NPC per
//! room), homeless NPCs claiming houses, and arrivals and respawns moving
//! into vacant houses near the town center.

use vstd::prelude::*;

use crate::housing::{
    best_home, check_house, component, fill_too_large, fill_touches_edge, find_vacant_house,
    house_of, house_result, is_home_tile, lemma_reach_symmetric, lemma_reach_trans, nearest_in_box,
    none_vacant_in_box, open_cell, reaches, room_verdict, vacant, House, HousingError,
};
use crate::npc::{npc_data, spec_arrival, spec_display_name, ArrivalCondition, NPC_KINDS};
use crate::protocol::NpcKind;
use crate::world::World;

verus! {

/// A town NPC: its entity id, kind and home tile (`None`: homeless). A
/// roster lists the NPCs in increasing id order (see [`ids_in_order`]), so
/// "first in the roster" is "lowest id".
#[derive(Debug)]
pub struct TownNpc {
    pub id: u32,
    pub kind: NpcKind,
    pub home: Option<(u32, u32)>,
}

/// The roster's ids strictly increase along it.
pub open spec fn ids_increasing(npcs: Seq<TownNpc>) -> bool {
    forall|i: int, j: int| 0 <= i < j < npcs.len() ==> #[trigger] npcs[i].id < #[trigger] npcs[j].id
}

/// The roster's ids strictly increase along it and all lie below
/// `next_id`, the id the next new NPC gets.
pub open spec fn ids_in_order(npcs: Seq<TownNpc>, next_id: int) -> bool {
    &&& ids_increasing(npcs)
    &&& forall|i: int| 0 <= i < npcs.len() ==> #[trigger] npcs[i].id < next_id
}

/// Appending move-ins with consecutive ids from `first_id` keeps the ids in
/// order.
proof fn lemma_grown_ids(
    old: Seq<TownNpc>,
    kinds: Seq<NpcKind>,
    outcomes: Seq<Option<(u32, u32)>>,
    first_id: int,
    j: int,
)
    requires
        ids_in_order(old, first_id),
        0 <= j,
        0 <= first_id,
        first_id + j <= u32::MAX,
    ensures
        ids_in_order(
            grown(old, kinds, outcomes, first_id, j),
            first_id + grown(old, kinds, outcomes, first_id, j).len() - old.len(),
        ),
    decreases j,
{
    lemma_grown_len(old, kinds, outcomes, first_id, j);
    if j > 0 {
        lemma_grown_ids(old, kinds, outcomes, first_id, j - 1);
        lemma_grown_len(old, kinds, outcomes, first_id, j - 1);
        let prev = grown(old, kinds, outcomes, first_id, j - 1);
        let g = grown(old, kinds, outcomes, first_id, j);
        if let Some(h) = outcomes[j - 1] {
            let nid = first_id + prev.len() - old.len();
            assert(g == prev.push(TownNpc { id: nid as u32, kind: kinds[j - 1], home: Some(h) }));
            assert(g[prev.len() as int].id == nid);
            assert forall|a: int, b: int| 0 <= a < b < g.len() implies #[trigger] g[a].id < #[trigger] g[b].id by {
                if b < prev.len() {
                    assert(g[a] == prev[a] && g[b] == prev[b]);
                } else {
                    assert(g[a] == prev[a]);
                }
            }
            assert forall|a: int| 0 <= a < g.len() implies #[trigger] g[a].id < first_id + g.len() - old.len() by {
                if a < prev.len() {
                    assert(g[a] == prev[a]);
                }
            }
        }
    }
}

/// The roster at boot: the Sage alone, homeless, under entity id `sage_id`,
/// and the record of arrivals holding just the Sage. (The caller stands
/// it at the world spawn.)
pub fn boot_roster(sage_id: u32) -> (r: (Vec<TownNpc>, Vec<NpcKind>))
    ensures
        r.0@ == seq![TownNpc { id: sage_id, kind: NpcKind::Sage, home: None }],
        ids_in_order(r.0@, sage_id + 1),
        r.1@ == seq![NpcKind::Sage],
{
    let mut npcs: Vec<TownNpc> = Vec::new();
    npcs.push(TownNpc { id: sage_id, kind: NpcKind::Sage, home: None });
    let mut arrived: Vec<NpcKind> = Vec::new();
    arrived.push(NpcKind::Sage);
    (npcs, arrived)
}

/// One row of the roster that players are sent: who, what, under which
/// name, and whether housed (the caller adds the position).
#[derive(Debug)]
pub struct NpcRow {
    pub id: u32,
    pub kind: NpcKind,
    pub name: &'static str,
    pub housed: bool,
}

/// The roster's rows, in roster order.
pub fn npc_rows(npcs: &Vec<TownNpc>) -> (rows: Vec<NpcRow>)
    ensures
        rows@.len() == npcs@.len(),
        forall|k: int|
            0 <= k < rows@.len() ==> {
                &&& (#[trigger] rows@[k]).id == npcs@[k].id
                &&& rows@[k].kind == npcs@[k].kind
                &&& rows@[k].name@ == spec_display_name(npcs@[k].kind)
                &&& rows@[k].housed == npcs@[k].home is Some
            },
{
    let mut rows: Vec<NpcRow> = Vec::new();
    let mut k: usize = 0;
    while k < npcs.len()
        invariant
            k <= npcs@.len(),
            rows@.len() == k,
            forall|j: int|
                0 <= j < k ==> {
                    &&& (#[trigger] rows@[j]).id == npcs@[j].id
                    &&& rows@[j].kind == npcs@[j].kind
                    &&& rows@[j].name@ == spec_display_name(npcs@[j].kind)
                    &&& rows@[j].housed == npcs@[j].home is Some
                },
        decreases npcs@.len() - k,
    {
        let n = &npcs[k];
        let data = npc_data(n.kind);
        rows.push(NpcRow { id: n.id, kind: n.kind, name: data.display_name, housed: n.home.is_some() });
        k = k + 1;
    }
    rows
}

/// The home tiles of a roster's housed NPCs, in roster order.
pub open spec fn homes_of(npcs: Seq<TownNpc>) -> Seq<(u32, u32)>
    decreases npcs.len(),
{
    if npcs.len() == 0 {
        Seq::empty()
    } else {
        let p = homes_of(npcs.drop_last());
        match npcs.last().home {
            Some(h) => p.push(h),
            None => p,
        }
    }
}

/// Sum of the x (`axis` 0) or y coordinates of `homes`.
pub open spec fn coord_sum(homes: Seq<(u32, u32)>, axis: int) -> int
    decreases homes.len(),
{
    if homes.len() == 0 {
        0
    } else {
        coord_sum(homes.drop_last(), axis) + if axis == 0 {
            homes.last().0 as int
        } else {
            homes.last().1 as int
        }
    }
}

/// House searches center on the town: the average of the housed NPCs'
/// homes (rounded down), else the world spawn.
pub open spec fn spec_town_center(homes: Seq<(u32, u32)>, spawn: (u32, u32)) -> (u32, u32) {
    if homes.len() == 0 {
        spawn
    } else {
        ((coord_sum(homes, 0) / homes.len() as int) as u32, (coord_sum(homes, 1) / homes.len() as int) as u32)
    }
}

proof fn lemma_homes_len(npcs: Seq<TownNpc>)
    ensures
        homes_of(npcs).len() <= npcs.len(),
    decreases npcs.len(),
{
    if npcs.len() > 0 {
        lemma_homes_len(npcs.drop_last());
    }
}

proof fn lemma_coord_sum_bound(homes: Seq<(u32, u32)>, axis: int)
    ensures
        0 <= coord_sum(homes, axis) <= homes.len() * 0xffff_ffff,
    decreases homes.len(),
{
    if homes.len() > 0 {
        lemma_coord_sum_bound(homes.drop_last(), axis);
    }
}

/// The home tiles of the housed NPCs, in roster order.
pub fn occupied_homes(npcs: &Vec<TownNpc>) -> (v: Vec<(u32, u32)>)
    ensures
        v@ == homes_of(npcs@),
{
    let mut v: Vec<(u32, u32)> = Vec::new();
    let mut i: usize = 0;
    while i < npcs.len()
        invariant
            i <= npcs@.len(),
            v@ == homes_of(npcs@.subrange(0, i as int)),
        decreases npcs@.len() - i,
    {
        proof {
            assert(npcs@.subrange(0, i + 1).drop_last() =~= npcs@.subrange(0, i as int));
        }
        match npcs[i].home {
            Some(h) => v.push(h),
            None => {},
        }
        i = i + 1;
    }
    proof {
        assert(npcs@.subrange(0, i as int) =~= npcs@);
    }
    v
}

/// The town center: the average of the housed NPCs' homes, else `spawn`.
pub fn town_center(npcs: &Vec<TownNpc>, spawn: (u32, u32)) -> (c: (u32, u32))
    requires
        npcs@.len() <= u32::MAX,
    ensures
        c == spec_town_center(homes_of(npcs@), spawn),
{
    let homes = occupied_homes(npcs);
    proof {
        lemma_homes_len(npcs@);
    }
    if homes.len() == 0 {
        return spawn;
    }
    let mut sx: u64 = 0;
    let mut sy: u64 = 0;
    let mut i: usize = 0;
    while i < homes.len()
        invariant
            i <= homes@.len(),
            homes@.len() <= u32::MAX,
            sx == coord_sum(homes@.subrange(0, i as int), 0),
            sy == coord_sum(homes@.subrange(0, i as int), 1),
        decreases homes@.len() - i,
    {
        proof {
            let pre = homes@.subrange(0, i as int);
            assert(homes@.subrange(0, i + 1).drop_last() =~= pre);
            lemma_coord_sum_bound(pre, 0);
            lemma_coord_sum_bound(pre, 1);
            assert(pre.len() * 0xffff_ffff + 0xffff_ffff <= 0xffff_ffff * 0xffff_ffff + 0xffff_ffff) by (nonlinear_arith)
                requires
                    pre.len() <= 0xffff_fffe,
            ;
        }
        sx = sx + homes[i].0 as u64;
        sy = sy + homes[i].1 as u64;
        i = i + 1;
    }
    proof {
        assert(homes@.subrange(0, i as int) =~= homes@);
        lemma_coord_sum_bound(homes@, 0);
        lemma_coord_sum_bound(homes@, 1);
        let n = homes@.len() as int;
        assert(sx as int / n <= 0xffff_ffff) by (nonlinear_arith)
            requires
                sx <= n * 0xffff_ffff,
                n >= 1,
        ;
        assert(sy as int / n <= 0xffff_ffff) by (nonlinear_arith)
            requires
                sy <= n * 0xffff_ffff,
                n >= 1,
        ;
    }
    let n: u64 = homes.len() as u64;
    ((sx / n) as u32, (sy / n) as u32)
}

/// Some NPC of `kind` is alive (on the roster).
pub fn npc_alive(npcs: &Vec<TownNpc>, kind: NpcKind) -> (r: bool)
    ensures
        r == exists|k: int| 0 <= k < npcs@.len() && (#[trigger] npcs@[k]).kind == kind,
{
    let mut i: usize = 0;
    while i < npcs.len()
        invariant
            i <= npcs@.len(),
            forall|k: int| 0 <= k < i ==> (#[trigger] npcs@[k]).kind != kind,
        decreases npcs@.len() - i,
    {
        if npcs[i].kind == kind {
            return true;
        }
        i = i + 1;
    }
    false
}

/// The id of the first NPC of `kind` on the roster, if any.
pub fn npc_id_of_kind(npcs: &Vec<TownNpc>, kind: NpcKind) -> (r: Option<u32>)
    ensures
        r is None <==> forall|k: int| 0 <= k < npcs@.len() ==> (#[trigger] npcs@[k]).kind != kind,
        r matches Some(id) ==> exists|k: int|
            0 <= k < npcs@.len() && (#[trigger] npcs@[k]).kind == kind && npcs@[k].id == id
                && forall|m: int| 0 <= m < k ==> npcs@[m].kind != kind,
{
    let mut i: usize = 0;
    while i < npcs.len()
        invariant
            i <= npcs@.len(),
            forall|k: int| 0 <= k < i ==> (#[trigger] npcs@[k]).kind != kind,
        decreases npcs@.len() - i,
    {
        if npcs[i].kind == kind {
            return Some(npcs[i].id);
        }
        i = i + 1;
    }
    None
}

// ---- Dawn revalidation ---------------------------------------------------------

/// The room at `s` passes rules 1-6.
pub open spec fn room_ok(w: &World, s: (u32, u32)) -> bool {
    &&& open_cell(w, s)
    &&& !fill_too_large(w, s)
    &&& !fill_touches_edge(w, s)
    &&& room_verdict(w, component(w, s)) is Ok
}

/// Home `h` stays: its room passes rules 1-6 and holds none of the homes
/// already kept (rule 7: the first NPC of a merged room keeps it).
pub open spec fn keeps(w: &World, kept: Seq<(u32, u32)>, h: (u32, u32)) -> bool {
    &&& room_ok(w, h)
    &&& forall|k: int| 0 <= k < kept.len() ==> !component(w, h).contains(#[trigger] kept[k])
}

/// The homes kept when revalidating `npcs` in roster order.
pub open spec fn kept_homes(w: &World, npcs: Seq<TownNpc>) -> Seq<(u32, u32)>
    decreases npcs.len(),
{
    if npcs.len() == 0 {
        Seq::empty()
    } else {
        let prev = kept_homes(w, npcs.drop_last());
        match npcs.last().home {
            Some(h) => if keeps(w, prev, h) {
                prev.push(h)
            } else {
                prev
            },
            None => prev,
        }
    }
}

/// NPC `i`'s home after revalidation.
pub open spec fn revalidated(w: &World, npcs: Seq<TownNpc>, i: int) -> Option<(u32, u32)> {
    match npcs[i].home {
        Some(h) => if keeps(w, kept_homes(w, npcs.subrange(0, i)), h) {
            Some(h)
        } else {
            None
        },
        None => None,
    }
}

proof fn lemma_kept_stays(w: &World, npcs: Seq<TownNpc>, i: int, n: int)
    requires
        0 <= i < n <= npcs.len(),
        revalidated(w, npcs, i) is Some,
    ensures
        kept_homes(w, npcs.subrange(0, n)).contains(revalidated(w, npcs, i)->Some_0),
    decreases n,
{
    let h = revalidated(w, npcs, i)->Some_0;
    let pre = npcs.subrange(0, n);
    assert(pre.drop_last() =~= npcs.subrange(0, n - 1));
    let prev = kept_homes(w, npcs.subrange(0, n - 1));
    if n == i + 1 {
        assert(pre.last() == npcs[i]);
        assert(kept_homes(w, pre) == prev.push(h));
        assert(prev.push(h)[prev.len() as int] == h);
    } else {
        lemma_kept_stays(w, npcs, i, n - 1);
        let m = choose|m: int| 0 <= m < prev.len() && prev[m] == h;
        let k = kept_homes(w, pre);
        assert(k == prev || k == prev.push(pre.last().home->Some_0));
        assert(k[m] == h);
    }
}

/// After the dawn revalidation no two NPCs share a room: an NPC that kept
/// its home lives in a room holding no home kept by an NPC before it.
pub proof fn lemma_revalidated_rooms_distinct(w: &World, npcs: Seq<TownNpc>, i: int, j: int)
    requires
        0 <= i < j < npcs.len(),
        revalidated(w, npcs, i) is Some,
        revalidated(w, npcs, j) is Some,
    ensures
        !component(w, revalidated(w, npcs, j)->Some_0).contains(revalidated(w, npcs, i)->Some_0),
{
    lemma_kept_stays(w, npcs, i, j);
    let kept = kept_homes(w, npcs.subrange(0, j));
    let m = choose|m: int| 0 <= m < kept.len() && kept[m] == revalidated(w, npcs, i)->Some_0;
    assert(keeps(w, kept, npcs[j].home->Some_0));
    assert(!component(w, npcs[j].home->Some_0).contains(kept[m]));
}

/// Rule 7 on merged rooms: when the homes of two NPCs lie in one room and
/// the lower-id NPC keeps its home through revalidation, the higher-id
/// NPC loses its home.
pub proof fn lemma_merged_room_goes_to_lower_id(w: &World, npcs: Seq<TownNpc>, i: int, j: int)
    requires
        ids_increasing(npcs),
        0 <= i < npcs.len(),
        0 <= j < npcs.len(),
        npcs[i].id < npcs[j].id,
        revalidated(w, npcs, i) is Some,
        npcs[j].home is Some,
        component(w, npcs[j].home->Some_0).contains(npcs[i].home->Some_0),
    ensures
        revalidated(w, npcs, j) is None,
{
    if j < i {
        assert(npcs[j].id < npcs[i].id);
    }
    assert(i != j);
    lemma_kept_stays(w, npcs, i, j);
    let kept = kept_homes(w, npcs.subrange(0, j));
    let m = choose|m: int| 0 <= m < kept.len() && kept[m] == revalidated(w, npcs, i)->Some_0;
    assert(kept[m] == npcs[i].home->Some_0);
    assert(!keeps(w, kept, npcs[j].home->Some_0));
}

/// Whether `house` holds any of `homes`.
fn holds_any(house: &House, homes: &Vec<(u32, u32)>) -> (r: bool)
    ensures
        r == exists|k: int| 0 <= k < homes@.len() && house.interior@.contains(#[trigger] homes@[k]),
{
    let mut i: usize = 0;
    while i < homes.len()
        invariant
            i <= homes@.len(),
            forall|k: int| 0 <= k < i ==> !house.interior@.contains(#[trigger] homes@[k]),
        decreases homes@.len() - i,
    {
        if house.contains(homes[i]) {
            return true;
        }
        i = i + 1;
    }
    false
}

/// Whether the room at `home` still qualifies given the homes `kept` so
/// far.
fn still_valid(world: &World, home: (u32, u32), kept: &Vec<(u32, u32)>) -> (r: bool)
    requires
        world.wf(),
    ensures
        r == keeps(world, kept@, home),
{
    let res = check_house(world, home);
    proof {
        reveal(house_result);
    }
    match res {
        Ok(house) => {
            proof {
                assert forall|k: int| 0 <= k < kept@.len() implies (house.interior@.contains(#[trigger] kept@[k])
                    <==> component(world, home).contains(kept@[k])) by {
                    if house.interior@.contains(kept@[k]) {
                        assert(house.interior@.to_set().contains(kept@[k]));
                    }
                    if component(world, home).contains(kept@[k]) {
                        assert(house.interior@.to_set().contains(kept@[k]));
                    }
                }
            }
            !holds_any(&house, kept)
        },
        Err(_) => false,
    }
}

/// Dawn revalidation of every assigned home, in roster order: a home stays
/// while its room passes rules 1-6 and holds no home kept before it (two
/// occupied rooms merged into one keep only their first NPC); the others
/// lose their home. Returns whether anyone lost theirs.
pub fn revalidate_homes(world: &World, npcs: &mut Vec<TownNpc>) -> (changed: bool)
    requires
        world.wf(),
        ids_increasing(old(npcs)@),
    ensures
        final(npcs)@.len() == old(npcs)@.len(),
        forall|i: int|
            0 <= i < old(npcs)@.len() ==> {
                &&& (#[trigger] final(npcs)@[i]).id == old(npcs)@[i].id
                &&& final(npcs)@[i].kind == old(npcs)@[i].kind
                &&& final(npcs)@[i].home == revalidated(world, old(npcs)@, i)
            },
        changed == exists|i: int|
            0 <= i < old(npcs)@.len() && (#[trigger] old(npcs)@[i]).home is Some && revalidated(
                world,
                old(npcs)@,
                i,
            ) is None,
{
    let ghost o = npcs@;
    let mut kept: Vec<(u32, u32)> = Vec::new();
    let mut changed = false;
    let mut i: usize = 0;
    while i < npcs.len()
        invariant
            world.wf(),
            npcs@.len() == o.len(),
            i <= o.len(),
            kept@ == kept_homes(world, o.subrange(0, i as int)),
            forall|k: int| i <= k < o.len() ==> #[trigger] npcs@[k] == o[k],
            forall|k: int|
                0 <= k < i ==> {
                    &&& (#[trigger] npcs@[k]).id == o[k].id
                    &&& npcs@[k].kind == o[k].kind
                    &&& npcs@[k].home == revalidated(world, o, k)
                },
            changed == exists|k: int|
                0 <= k < i && (#[trigger] o[k]).home is Some && revalidated(world, o, k) is None,
        decreases o.len() - i,
    {
        proof {
            assert(o.subrange(0, i + 1).drop_last() =~= o.subrange(0, i as int));
        }
        match npcs[i].home {
            Some(home) => {
                if still_valid(world, home, &kept) {
                    kept.push(home);
                } else {
                    let id = npcs[i].id;
                    let kind = npcs[i].kind;
                    npcs.set(i, TownNpc { id, kind, home: None });
                    changed = true;
                }
            },
            None => {},
        }
        proof {
            assert(revalidated(world, o, i as int) == npcs@[i as int].home);
        }
        i = i + 1;
    }
    proof {
        assert(o.subrange(0, i as int) =~= o);
    }
    changed
}


// ---- Moving into houses ---------------------------------------------------------

/// `house` is what a vacant-house search around `center` may return: the
/// nearest vacant house of the smallest search box (radius 100, 200, 400)
/// that has one.
pub open spec fn found_house(w: &World, center: (u32, u32), homes: Seq<(u32, u32)>, house: House) -> bool {
    ||| nearest_in_box(w, center, homes, 100, house)
    ||| none_vacant_in_box(w, center, homes, 100) && nearest_in_box(w, center, homes, 200, house)
    ||| none_vacant_in_box(w, center, homes, 100) && none_vacant_in_box(w, center, homes, 200)
        && nearest_in_box(w, center, homes, 400, house)
}

/// `r` is the outcome of a house search for a roster whose housed NPCs
/// live at `homes`: around the town center, the home of a found house, or
/// `None` when no search box holds a vacant house.
pub open spec fn search_result(w: &World, homes: Seq<(u32, u32)>, spawn: (u32, u32), r: Option<(u32, u32)>) -> bool {
    let c = spec_town_center(homes, spawn);
    &&& r is None ==> {
        &&& none_vacant_in_box(w, c, homes, 100)
        &&& none_vacant_in_box(w, c, homes, 200)
        &&& none_vacant_in_box(w, c, homes, 400)
    }
    &&& r matches Some(h) ==> exists|house: House| #[trigger] found_house(w, c, homes, house) && house.home == h
}

/// The home of the nearest vacant valid house around the roster's town
/// center, if any.
pub fn search_home(world: &World, npcs: &Vec<TownNpc>, spawn: (u32, u32)) -> (r: Option<(u32, u32)>)
    requires
        world.wf(),
        npcs@.len() <= u32::MAX,
    ensures
        search_result(world, homes_of(npcs@), spawn, r),
{
    let center = town_center(npcs, spawn);
    let occupied = occupied_homes(npcs);
    match find_vacant_house(world, center, occupied.as_slice()) {
        Some(house) => {
            proof {
                assert(found_house(world, center, homes_of(npcs@), house));
            }
            Some(house.home)
        },
        None => None,
    }
}

/// The roster while NPC `i` is processed: the entries before `i` as they
/// ended up, the rest as they were.
pub open spec fn roster_at(old: Seq<TownNpc>, new: Seq<TownNpc>, i: int) -> Seq<TownNpc> {
    new.subrange(0, i) + old.subrange(i, old.len() as int)
}

/// Homeless NPCs, in roster order, each claim the nearest vacant valid
/// house around the town center as the roster stands at their turn.
/// Returns whether anyone moved in.
pub fn claim_homes(world: &World, npcs: &mut Vec<TownNpc>, spawn: (u32, u32)) -> (changed: bool)
    requires
        world.wf(),
        ids_increasing(old(npcs)@),
        old(npcs)@.len() <= u32::MAX,
    ensures
        final(npcs)@.len() == old(npcs)@.len(),
        forall|i: int|
            0 <= i < old(npcs)@.len() ==> {
                &&& (#[trigger] final(npcs)@[i]).id == old(npcs)@[i].id
                &&& final(npcs)@[i].kind == old(npcs)@[i].kind
                &&& old(npcs)@[i].home is Some ==> final(npcs)@[i].home == old(npcs)@[i].home
                &&& old(npcs)@[i].home is None ==> search_result(
                    world,
                    homes_of(roster_at(old(npcs)@, final(npcs)@, i)),
                    spawn,
                    final(npcs)@[i].home,
                )
            },
        changed == exists|i: int|
            0 <= i < old(npcs)@.len() && (#[trigger] old(npcs)@[i]).home is None && final(npcs)@[i].home is Some,
{
    let ghost o = npcs@;
    let mut changed = false;
    let mut i: usize = 0;
    while i < npcs.len()
        invariant
            world.wf(),
            npcs@.len() == o.len(),
            o.len() <= u32::MAX,
            i <= o.len(),
            forall|k: int| i <= k < o.len() ==> #[trigger] npcs@[k] == o[k],
            forall|k: int|
                0 <= k < i ==> {
                    &&& (#[trigger] npcs@[k]).id == o[k].id
                    &&& npcs@[k].kind == o[k].kind
                    &&& o[k].home is Some ==> npcs@[k].home == o[k].home
                    &&& o[k].home is None ==> search_result(
                        world,
                        homes_of(roster_at(o, npcs@, k)),
                        spawn,
                        npcs@[k].home,
                    )
                },
            changed == exists|k: int| 0 <= k < i && (#[trigger] o[k]).home is None && npcs@[k].home is Some,
        decreases o.len() - i,
    {
        if npcs[i].home.is_none() {
            proof {
                assert(npcs@ =~= roster_at(o, npcs@, i as int));
            }
            let ghost before = npcs@;
            let found = search_home(world, npcs, spawn);
            match found {
                Some(h) => {
                    let id = npcs[i].id;
                    let kind = npcs[i].kind;
                    npcs.set(i, TownNpc { id, kind, home: Some(h) });
                    changed = true;
                },
                None => {},
            }
            proof {
                assert(roster_at(o, npcs@, i as int) =~= roster_at(o, before, i as int));
                assert forall|k: int| 0 <= k < i implies roster_at(o, npcs@, k) =~= roster_at(o, before, k) by {
                }
            }
        }
        i = i + 1;
    }
    changed
}


/// Some NPC of `kind` is on the roster.
pub open spec fn alive(npcs: Seq<TownNpc>, kind: NpcKind) -> bool {
    exists|k: int| 0 <= k < npcs.len() && (#[trigger] npcs[k]).kind == kind
}

/// The roster after the first `j` candidates of a move-in pass: every
/// candidate that found a house is appended as a new NPC living there,
/// with the next entity id from `first_id` on.
pub open spec fn grown(
    old: Seq<TownNpc>,
    kinds: Seq<NpcKind>,
    outcomes: Seq<Option<(u32, u32)>>,
    first_id: int,
    j: int,
) -> Seq<TownNpc>
    decreases j,
{
    if j <= 0 {
        old
    } else {
        let prev = grown(old, kinds, outcomes, first_id, j - 1);
        match outcomes[j - 1] {
            Some(h) => prev.push(
                TownNpc { id: (first_id + prev.len() - old.len()) as u32, kind: kinds[j - 1], home: Some(h) },
            ),
            None => prev,
        }
    }
}

proof fn lemma_grown_len(
    old: Seq<TownNpc>,
    kinds: Seq<NpcKind>,
    outcomes: Seq<Option<(u32, u32)>>,
    first_id: int,
    j: int,
)
    requires
        0 <= j,
    ensures
        old.len() <= grown(old, kinds, outcomes, first_id, j).len() <= old.len() + j,
    decreases j,
{
    if j > 0 {
        lemma_grown_len(old, kinds, outcomes, first_id, j - 1);
    }
}

/// One move-in: the NPC of `kind` gets the nearest vacant valid house
/// around the town center and joins the roster as entity `id`, when there
/// is one.
fn move_in(world: &World, npcs: &mut Vec<TownNpc>, kind: NpcKind, spawn: (u32, u32), id: u32) -> (r: Option<(u32, u32)>)
    requires
        world.wf(),
        old(npcs)@.len() < u32::MAX,
    ensures
        search_result(world, homes_of(old(npcs)@), spawn, r),
        final(npcs)@ == match r {
            Some(h) => old(npcs)@.push(TownNpc { id, kind, home: Some(h) }),
            None => old(npcs)@,
        },
{
    let r = search_home(world, npcs, spawn);
    match r {
        Some(h) => {
            npcs.push(TownNpc { id, kind, home: Some(h) });
        },
        None => {},
    }
    r
}

/// The arrived kinds with no NPC on the roster, in arrival order.
pub open spec fn dead_kinds(npcs: Seq<TownNpc>, arrived: Seq<NpcKind>) -> Seq<NpcKind>
    decreases arrived.len(),
{
    if arrived.len() == 0 {
        Seq::empty()
    } else {
        let p = dead_kinds(npcs, arrived.drop_last());
        if alive(npcs, arrived.last()) {
            p
        } else {
            p.push(arrived.last())
        }
    }
}

/// The kinds a dawn brings back are exactly the arrived kinds of which no
/// NPC is on the roster: a kind is among them if and only if it has
/// arrived and no roster entry is of that kind.
pub proof fn lemma_dead_kinds_are_arrived_and_missing(npcs: Seq<TownNpc>, arrived: Seq<NpcKind>, k: NpcKind)
    ensures
        dead_kinds(npcs, arrived).contains(k) <==> (arrived.contains(k) && !(exists|i: int|
            0 <= i < npcs.len() && (#[trigger] npcs[i]).kind == k)),
    decreases arrived.len(),
{
    if arrived.len() > 0 {
        let pre = arrived.drop_last();
        lemma_dead_kinds_are_arrived_and_missing(npcs, pre, k);
        let p = dead_kinds(npcs, pre);
        let last = arrived.last();
        assert(arrived == pre.push(last));
        assert(arrived.contains(k) <==> (pre.contains(k) || last == k)) by {
            if arrived.contains(k) {
                let j = choose|j: int| 0 <= j < arrived.len() && arrived[j] == k;
                if j < pre.len() {
                    assert(pre[j] == k);
                }
            }
            if pre.contains(k) {
                let j = choose|j: int| 0 <= j < pre.len() && pre[j] == k;
                assert(arrived[j] == k);
            }
            if last == k {
                assert(arrived[arrived.len() - 1] == k);
            }
        }
        if !alive(npcs, last) {
            let q = p.push(last);
            assert(q.contains(k) <==> (p.contains(k) || last == k)) by {
                if q.contains(k) {
                    let j = choose|j: int| 0 <= j < q.len() && q[j] == k;
                    if j < p.len() {
                        assert(p[j] == k);
                    }
                }
                if p.contains(k) {
                    let j = choose|j: int| 0 <= j < p.len() && p[j] == k;
                    assert(q[j] == k);
                }
                if last == k {
                    assert(q[q.len() - 1] == k);
                }
            }
        }
    }
}

proof fn lemma_dead_len(npcs: Seq<TownNpc>, arrived: Seq<NpcKind>)
    ensures
        dead_kinds(npcs, arrived).len() <= arrived.len(),
    decreases arrived.len(),
{
    if arrived.len() > 0 {
        lemma_dead_len(npcs, arrived.drop_last());
    }
}

/// Dawn respawns: every kind that once arrived but has no living NPC
/// moves back into the nearest vacant valid house, in arrival order, as the
/// roster stands at its turn. New NPCs take consecutive entity ids from
/// `next_id`. Returns each dead kind's new home (`None`: no vacant house).
pub fn respawn_dead(
    world: &World,
    npcs: &mut Vec<TownNpc>,
    arrived: &Vec<NpcKind>,
    spawn: (u32, u32),
    next_id: &mut u32,
) -> (outcomes: Vec<Option<(u32, u32)>>)
    requires
        world.wf(),
        old(npcs)@.len() + arrived@.len() < u32::MAX,
        *old(next_id) + arrived@.len() <= u32::MAX,
    ensures
        ({
            let dead = dead_kinds(old(npcs)@, arrived@);
            &&& outcomes@.len() == dead.len()
            &&& final(npcs)@ == grown(old(npcs)@, dead, outcomes@, *old(next_id) as int, dead.len() as int)
            &&& forall|j: int|
                0 <= j < dead.len() ==> search_result(
                    world,
                    homes_of(#[trigger] grown(old(npcs)@, dead, outcomes@, *old(next_id) as int, j)),
                    spawn,
                    outcomes@[j],
                )
            &&& *final(next_id) == *old(next_id) + final(npcs)@.len() - old(npcs)@.len()
            &&& ids_in_order(old(npcs)@, *old(next_id) as int) ==> ids_in_order(
                final(npcs)@,
                *final(next_id) as int,
            )
        }),
{
    let ghost o = npcs@;
    let ghost id0 = *next_id as int;
    // Kinds with no living NPC as the pass starts.
    let mut dead: Vec<NpcKind> = Vec::new();
    let mut a: usize = 0;
    while a < arrived.len()
        invariant
            a <= arrived@.len(),
            npcs@ == o,
            dead@ == dead_kinds(o, arrived@.subrange(0, a as int)),
        decreases arrived@.len() - a,
    {
        proof {
            assert(arrived@.subrange(0, a + 1).drop_last() =~= arrived@.subrange(0, a as int));
        }
        if !npc_alive(npcs, arrived[a]) {
            dead.push(arrived[a]);
        }
        a = a + 1;
    }
    proof {
        assert(arrived@.subrange(0, a as int) =~= arrived@);
        lemma_dead_len(o, arrived@);
    }
    let mut outcomes: Vec<Option<(u32, u32)>> = Vec::new();
    let mut j: usize = 0;
    while j < dead.len()
        invariant
            world.wf(),
            j <= dead@.len(),
            dead@.len() <= arrived@.len(),
            o.len() + arrived@.len() < u32::MAX,
            id0 + arrived@.len() <= u32::MAX,
            outcomes@.len() == j,
            npcs@ == grown(o, dead@, outcomes@, id0, j as int),
            *next_id == id0 + npcs@.len() - o.len(),
            forall|k: int|
                0 <= k < j ==> search_result(
                    world,
                    homes_of(#[trigger] grown(o, dead@, outcomes@, id0, k)),
                    spawn,
                    outcomes@[k],
                ),
        decreases dead@.len() - j,
    {
        proof {
            lemma_grown_len(o, dead@, outcomes@, id0, j as int);
        }
        let ghost before = outcomes@;
        let ghost roster = npcs@;
        let r = move_in(world, npcs, dead[j], spawn, *next_id);
        outcomes.push(r);
        proof {
            assert forall|k: int| 0 <= k <= j implies grown(o, dead@, outcomes@, id0, k) == grown(o, dead@, before, id0, k) by {
                lemma_grown_prefix(o, dead@, before, outcomes@, id0, k);
            }
            assert forall|k: int| 0 <= k < j + 1 implies search_result(
                world,
                homes_of(#[trigger] grown(o, dead@, outcomes@, id0, k)),
                spawn,
                outcomes@[k],
            ) by {
                assert(grown(o, dead@, outcomes@, id0, k) == grown(o, dead@, before, id0, k));
                if k < j {
                    assert(outcomes@[k] == before[k]);
                } else {
                    assert(grown(o, dead@, before, id0, k) == roster);
                }
            }
        }
        if r.is_some() {
            *next_id = *next_id + 1;
        }
        j = j + 1;
    }
    proof {
        if ids_in_order(o, id0) {
            lemma_grown_ids(o, dead@, outcomes@, id0, dead@.len() as int);
        }
    }
    outcomes
}

/// `grown` only reads the outcomes before `j`.
proof fn lemma_grown_prefix(
    old: Seq<TownNpc>,
    kinds: Seq<NpcKind>,
    a: Seq<Option<(u32, u32)>>,
    b: Seq<Option<(u32, u32)>>,
    first_id: int,
    j: int,
)
    requires
        0 <= j <= a.len(),
        j <= b.len(),
        forall|k: int| 0 <= k < j ==> a[k] == b[k],
    ensures
        grown(old, kinds, a, first_id, j) == grown(old, kinds, b, first_id, j),
    decreases j,
{
    if j > 0 {
        lemma_grown_prefix(old, kinds, a, b, first_id, j - 1);
    }
}


/// An arrival condition holds, given all players' combined coins, the
/// highest max HP among them, and whether the Merchant lives.
pub open spec fn condition_met(cond: ArrivalCondition, coins: int, max_hp: int, merchant_alive: bool) -> bool {
    match cond {
        ArrivalCondition::WorldStart => false,
        ArrivalCondition::CombinedCoinsAtLeast(c) => coins >= c,
        ArrivalCondition::MaxHpOverAndMerchantPresent(hp) => max_hp > hp && merchant_alive,
    }
}

/// The kinds an arrival pass considers, in order.
pub open spec fn arrival_order() -> Seq<NpcKind> {
    seq![NpcKind::Sage, NpcKind::Merchant, NpcKind::Nurse]
}

/// The arrived kinds after the first `j` candidates of an arrival pass.
pub open spec fn arrived_after(
    arrived: Seq<NpcKind>,
    kinds: Seq<NpcKind>,
    outcomes: Seq<Option<(u32, u32)>>,
    j: int,
) -> Seq<NpcKind>
    decreases j,
{
    if j <= 0 {
        arrived
    } else {
        let p = arrived_after(arrived, kinds, outcomes, j - 1);
        if outcomes[j - 1] is Some {
            p.push(kinds[j - 1])
        } else {
            p
        }
    }
}

proof fn lemma_arrived_after(
    arrived: Seq<NpcKind>,
    kinds: Seq<NpcKind>,
    outcomes: Seq<Option<(u32, u32)>>,
    j: int,
    x: NpcKind,
)
    requires
        0 <= j <= kinds.len(),
        forall|k: int| 0 <= k < j ==> kinds[k] != x,
    ensures
        arrived_after(arrived, kinds, outcomes, j).contains(x) == arrived.contains(x),
    decreases j,
{
    if j > 0 {
        lemma_arrived_after(arrived, kinds, outcomes, j - 1, x);
        let p = arrived_after(arrived, kinds, outcomes, j - 1);
        if outcomes[j - 1] is Some {
            let q = p.push(kinds[j - 1]);
            if q.contains(x) {
                let m = choose|m: int| 0 <= m < q.len() && #[trigger] q[m] == x;
                if m < p.len() {
                    assert(p[m] == x);
                }
            }
            if p.contains(x) {
                let m = choose|m: int| 0 <= m < p.len() && #[trigger] p[m] == x;
                assert(q[m] == x);
            }
        }
    }
}

proof fn lemma_arrived_after_prefix(
    arrived: Seq<NpcKind>,
    kinds: Seq<NpcKind>,
    a: Seq<Option<(u32, u32)>>,
    b: Seq<Option<(u32, u32)>>,
    j: int,
)
    requires
        0 <= j <= a.len(),
        j <= b.len(),
        forall|k: int| 0 <= k < j ==> a[k] == b[k],
    ensures
        arrived_after(arrived, kinds, a, j) == arrived_after(arrived, kinds, b, j),
    decreases j,
{
    if j > 0 {
        lemma_arrived_after_prefix(arrived, kinds, a, b, j - 1);
    }
}

/// Candidate `j` of an arrival pass: when it hadn't arrived and its
/// condition holds on the roster as it stood at its turn, its outcome is
/// that roster's house search; otherwise nothing.
pub open spec fn arrival_step(
    w: &World,
    old: Seq<TownNpc>,
    arrived: Seq<NpcKind>,
    outcomes: Seq<Option<(u32, u32)>>,
    first_id: int,
    spawn: (u32, u32),
    coins: int,
    max_hp: int,
    j: int,
) -> bool {
    let kinds = arrival_order();
    let r = grown(old, kinds, outcomes, first_id, j);
    let eligible = !arrived.contains(kinds[j]) && condition_met(
        spec_arrival(kinds[j]),
        coins,
        max_hp,
        alive(r, NpcKind::Merchant),
    );
    &&& eligible ==> search_result(w, homes_of(r), spawn, outcomes[j])
    &&& !eligible ==> outcomes[j] is None
}

/// Whether `kind` has arrived.
fn has_arrived(arrived: &Vec<NpcKind>, kind: NpcKind) -> (r: bool)
    ensures
        r == arrived@.contains(kind),
{
    let mut i: usize = 0;
    while i < arrived.len()
        invariant
            i <= arrived@.len(),
            forall|k: int| 0 <= k < i ==> arrived@[k] != kind,
        decreases arrived@.len() - i,
    {
        if arrived[i] == kind {
            assert(arrived@[i as int] == kind);
            return true;
        }
        i = i + 1;
    }
    false
}

/// Arrival checks: every kind that hasn't arrived yet and whose arrival
/// condition holds (the Nurse's reads the roster as it stands, so a
/// Merchant who just arrived counts) moves into the nearest vacant valid
/// house and is recorded as arrived. New NPCs take consecutive entity ids
/// from `next_id`. Returns each kind's new home in `NPC_KINDS` order.
pub fn arrivals(
    world: &World,
    npcs: &mut Vec<TownNpc>,
    arrived: &mut Vec<NpcKind>,
    spawn: (u32, u32),
    combined_coins: u64,
    max_hp: u32,
    next_id: &mut u32,
) -> (outcomes: Vec<Option<(u32, u32)>>)
    requires
        world.wf(),
        old(npcs)@.len() + 3 < u32::MAX,
        *old(next_id) + 3 <= u32::MAX,
    ensures
        outcomes@.len() == 3,
        final(npcs)@ == grown(old(npcs)@, arrival_order(), outcomes@, *old(next_id) as int, 3),
        final(arrived)@ == arrived_after(old(arrived)@, arrival_order(), outcomes@, 3),
        forall|j: int|
            0 <= j < 3 ==> #[trigger] arrival_step(
                world,
                old(npcs)@,
                old(arrived)@,
                outcomes@,
                *old(next_id) as int,
                spawn,
                combined_coins as int,
                max_hp as int,
                j,
            ),
        *final(next_id) == *old(next_id) + final(npcs)@.len() - old(npcs)@.len(),
        ids_in_order(old(npcs)@, *old(next_id) as int) ==> ids_in_order(final(npcs)@, *final(next_id) as int),
{
    let ghost o = npcs@;
    let ghost a0 = arrived@;
    let ghost id0 = *next_id as int;
    let ghost kinds = arrival_order();
    let order: [NpcKind; 3] = NPC_KINDS;
    assert(order@ =~= kinds);
    let mut outcomes: Vec<Option<(u32, u32)>> = Vec::new();
    let mut j: usize = 0;
    while j < 3
        invariant
            world.wf(),
            j <= 3,
            order@ == kinds,
            kinds == arrival_order(),
            o.len() + 3 < u32::MAX,
            id0 + 3 <= u32::MAX,
            outcomes@.len() == j,
            npcs@ == grown(o, kinds, outcomes@, id0, j as int),
            arrived@ == arrived_after(a0, kinds, outcomes@, j as int),
            *next_id == id0 + npcs@.len() - o.len(),
            forall|k: int|
                0 <= k < j ==> #[trigger] arrival_step(
                    world,
                    o,
                    a0,
                    outcomes@,
                    id0,
                    spawn,
                    combined_coins as int,
                    max_hp as int,
                    k,
                ),
        decreases 3 - j,
    {
        proof {
            lemma_grown_len(o, kinds, outcomes@, id0, j as int);
            lemma_arrived_after(a0, kinds, outcomes@, j as int, kinds[j as int]);
        }
        let kind = order[j];
        let ghost before = outcomes@;
        let ghost roster = npcs@;
        let mut r: Option<(u32, u32)> = None;
        if !has_arrived(arrived, kind) {
            let met = match npc_data(kind).arrival {
                ArrivalCondition::WorldStart => false,
                ArrivalCondition::CombinedCoinsAtLeast(c) => combined_coins >= c,
                ArrivalCondition::MaxHpOverAndMerchantPresent(hp) => max_hp > hp && npc_alive(
                    npcs,
                    NpcKind::Merchant,
                ),
            };
            if met {
                r = move_in(world, npcs, kind, spawn, *next_id);
                if r.is_some() {
                    *next_id = *next_id + 1;
                    arrived.push(kind);
                }
            }
        }
        outcomes.push(r);
        proof {
            assert forall|k: int| 0 <= k <= j implies grown(o, kinds, outcomes@, id0, k) == grown(o, kinds, before, id0, k) by {
                lemma_grown_prefix(o, kinds, before, outcomes@, id0, k);
            }
            lemma_arrived_after_prefix(a0, kinds, before, outcomes@, j as int);
            assert forall|k: int| 0 <= k < j + 1 implies #[trigger] arrival_step(
                world,
                o,
                a0,
                outcomes@,
                id0,
                spawn,
                combined_coins as int,
                max_hp as int,
                k,
            ) by {
                assert(grown(o, kinds, outcomes@, id0, k) == grown(o, kinds, before, id0, k));
                if k < j {
                    assert(outcomes@[k] == before[k]);
                    assert(arrival_step(world, o, a0, before, id0, spawn, combined_coins as int, max_hp as int, k));
                } else {
                    assert(grown(o, kinds, before, id0, k) == roster);
                }
            }
        }
        j = j + 1;
    }
    proof {
        if ids_in_order(o, id0) {
            lemma_grown_ids(o, kinds, outcomes@, id0, 3);
        }
    }
    outcomes
}


// ---- Dawn -------------------------------------------------------------------------

/// `new` is `old` after the dawn revalidation; `changed`: someone lost
/// their home.
pub open spec fn revalidation(w: &World, old: Seq<TownNpc>, new: Seq<TownNpc>, changed: bool) -> bool {
    &&& new.len() == old.len()
    &&& forall|i: int|
        0 <= i < old.len() ==> {
            &&& (#[trigger] new[i]).id == old[i].id
            &&& new[i].kind == old[i].kind
            &&& new[i].home == revalidated(w, old, i)
        }
    &&& changed == exists|i: int|
        0 <= i < old.len() && (#[trigger] old[i]).home is Some && revalidated(w, old, i) is None
}

/// `new` is `old` after the homeless claimed houses; `changed`: someone
/// moved in.
pub open spec fn claiming(w: &World, old: Seq<TownNpc>, new: Seq<TownNpc>, spawn: (u32, u32), changed: bool) -> bool {
    &&& new.len() == old.len()
    &&& forall|i: int|
        0 <= i < old.len() ==> {
            &&& (#[trigger] new[i]).id == old[i].id
            &&& new[i].kind == old[i].kind
            &&& old[i].home is Some ==> new[i].home == old[i].home
            &&& old[i].home is None ==> search_result(w, homes_of(roster_at(old, new, i)), spawn, new[i].home)
        }
    &&& changed == exists|i: int| 0 <= i < old.len() && (#[trigger] old[i]).home is None && new[i].home is Some
}

/// `new` is `old` after the dead arrived kinds moved back in, taking ids
/// `id0` up to `id1`, with per-kind outcomes `outcomes`.
pub open spec fn respawning(
    w: &World,
    old: Seq<TownNpc>,
    new: Seq<TownNpc>,
    arrived: Seq<NpcKind>,
    spawn: (u32, u32),
    id0: int,
    id1: int,
    outcomes: Seq<Option<(u32, u32)>>,
) -> bool {
    let dead = dead_kinds(old, arrived);
    &&& outcomes.len() == dead.len()
    &&& new == grown(old, dead, outcomes, id0, dead.len() as int)
    &&& forall|j: int|
        0 <= j < dead.len() ==> search_result(w, homes_of(#[trigger] grown(old, dead, outcomes, id0, j)), spawn, outcomes[j])
    &&& id1 == id0 + new.len() - old.len()
}

/// `new` and `a_new` are `old` and `a_old` after an arrival pass, taking ids
/// `id0` up to `id1`, with per-kind outcomes `outcomes`.
pub open spec fn arriving(
    w: &World,
    old: Seq<TownNpc>,
    new: Seq<TownNpc>,
    a_old: Seq<NpcKind>,
    a_new: Seq<NpcKind>,
    spawn: (u32, u32),
    coins: int,
    max_hp: int,
    id0: int,
    id1: int,
    outcomes: Seq<Option<(u32, u32)>>,
) -> bool {
    &&& outcomes.len() == 3
    &&& new == grown(old, arrival_order(), outcomes, id0, 3)
    &&& a_new == arrived_after(a_old, arrival_order(), outcomes, 3)
    &&& forall|j: int| 0 <= j < 3 ==> #[trigger] arrival_step(w, old, a_old, outcomes, id0, spawn, coins, max_hp, j)
    &&& id1 == id0 + new.len() - old.len()
}

/// Some outcome moved an NPC in.
pub open spec fn any_moved_in(outcomes: Seq<Option<(u32, u32)>>) -> bool {
    exists|j: int| 0 <= j < outcomes.len() && (#[trigger] outcomes[j]) is Some
}

/// What a dawn pass did.
#[derive(Debug)]
pub struct DawnReport {
    /// Per dead arrived kind (in arrival order), the home it moved back
    /// into.
    pub respawned: Vec<Option<(u32, u32)>>,
    /// Per kind (in `NPC_KINDS` order), the home it arrived in.
    pub arrivals: Vec<Option<(u32, u32)>>,
    /// The roster changed and no arrival already announced it: broadcast
    /// the roster.
    pub broadcast: bool,
}

/// A dawn pass from roster `npcs0` and arrived kinds `arrived0` to `npcs1`
/// and `arrived1`, ids `id0` up to `id1`: revalidation, then the homeless
/// claim houses, then the dead move back in, then the arrival checks.
pub open spec fn dawn_pass(
    w: &World,
    npcs0: Seq<TownNpc>,
    npcs1: Seq<TownNpc>,
    arrived0: Seq<NpcKind>,
    arrived1: Seq<NpcKind>,
    spawn: (u32, u32),
    coins: int,
    max_hp: int,
    id0: int,
    id1: int,
    report: DawnReport,
) -> bool {
    exists|r1: Seq<TownNpc>, r2: Seq<TownNpc>, r3: Seq<TownNpc>, c1: bool, c2: bool, i2: int|
        #[trigger] revalidation(w, npcs0, r1, c1) && #[trigger] claiming(w, r1, r2, spawn, c2) && #[trigger] respawning(
            w,
            r2,
            r3,
            arrived0,
            spawn,
            id0,
            i2,
            report.respawned@,
        ) && arriving(w, r3, npcs1, arrived0, arrived1, spawn, coins, max_hp, i2, id1, report.arrivals@)
            && report.broadcast == ((c1 || c2 || any_moved_in(report.respawned@)) && !any_moved_in(
            report.arrivals@,
        ))
}

/// The dawn pass over the town roster: homes are revalidated (rules 1-7),
/// homeless NPCs claim the nearest vacant houses, arrived kinds with no
/// living NPC move back in, and the arrival conditions are checked. New
/// NPCs take consecutive entity ids from `next_id`.
pub fn npc_dawn(
    world: &World,
    npcs: &mut Vec<TownNpc>,
    arrived: &mut Vec<NpcKind>,
    spawn: (u32, u32),
    combined_coins: u64,
    max_hp: u32,
    next_id: &mut u32,
) -> (report: DawnReport)
    requires
        world.wf(),
        old(npcs)@.len() + old(arrived)@.len() + 3 < u32::MAX,
        *old(next_id) + old(arrived)@.len() + 3 <= u32::MAX,
        ids_in_order(old(npcs)@, *old(next_id) as int),
    ensures
        ids_in_order(final(npcs)@, *final(next_id) as int),
        dawn_pass(
            world,
            old(npcs)@,
            final(npcs)@,
            old(arrived)@,
            final(arrived)@,
            spawn,
            combined_coins as int,
            max_hp as int,
            *old(next_id) as int,
            *final(next_id) as int,
            report,
        ),
{
    let ghost n0 = npcs@;
    let ghost a0 = arrived@;
    let ghost id0 = *next_id as int;
    let c1 = revalidate_homes(world, npcs);
    let ghost r1 = npcs@;
    let c2 = claim_homes(world, npcs, spawn);
    let ghost r2 = npcs@;
    proof {
        lemma_dead_len(r2, a0);
    }
    let respawned = respawn_dead(world, npcs, arrived, spawn, next_id);
    let ghost r3 = npcs@;
    let ghost i2 = *next_id as int;
    let mut any_respawn = false;
    let mut j: usize = 0;
    while j < respawned.len()
        invariant
            j <= respawned@.len(),
            any_respawn == exists|k: int| 0 <= k < j && (#[trigger] respawned@[k]) is Some,
        decreases respawned@.len() - j,
    {
        if respawned[j].is_some() {
            any_respawn = true;
        }
        j = j + 1;
    }
    proof {
        lemma_grown_len(r2, dead_kinds(r2, a0), respawned@, id0, dead_kinds(r2, a0).len() as int);
    }
    let arrivals = arrivals(world, npcs, arrived, spawn, combined_coins, max_hp, next_id);
    let any_arrival = arrivals[0].is_some() || arrivals[1].is_some() || arrivals[2].is_some();
    let report = DawnReport {
        respawned,
        arrivals,
        broadcast: (c1 || c2 || any_respawn) && !any_arrival,
    };
    proof {
        assert(revalidation(world, n0, r1, c1));
        assert(claiming(world, r1, r2, spawn, c2));
        assert(respawning(world, r2, r3, a0, spawn, id0, i2, report.respawned@));
        assert(any_arrival == any_moved_in(report.arrivals@));
    }
    report
}

// ---- One NPC per room ----------------------------------------------------------------

/// No two housed NPCs of `npcs` live in one room (rule 7).
pub open spec fn rooms_apart(w: &World, npcs: Seq<TownNpc>) -> bool {
    forall|i: int, j: int|
        #![trigger npcs[i], npcs[j]]
        0 <= i < npcs.len() && 0 <= j < npcs.len() && i != j && npcs[i].home is Some
            && npcs[j].home is Some ==> !component(w, npcs[i].home->Some_0).contains(
            npcs[j].home->Some_0,
        )
}

/// A housed NPC's home is among the roster's homes.
proof fn lemma_homes_of_has(npcs: Seq<TownNpc>, i: int)
    requires
        0 <= i < npcs.len(),
        npcs[i].home is Some,
    ensures
        homes_of(npcs).contains(npcs[i].home->Some_0),
    decreases npcs.len(),
{
    let p = homes_of(npcs.drop_last());
    if i == npcs.len() - 1 {
        assert(homes_of(npcs) == p.push(npcs[i].home->Some_0));
        assert(homes_of(npcs)[p.len() as int] == npcs[i].home->Some_0);
    } else {
        lemma_homes_of_has(npcs.drop_last(), i);
        let m = choose|m: int| 0 <= m < p.len() && p[m] == npcs[i].home->Some_0;
        assert(homes_of(npcs)[m] == p[m]);
    }
}

/// A house search's home lies in a room that holds none of the homes it
/// was searched against, and none of their rooms holds it.
pub proof fn lemma_found_home_apart(w: &World, homes: Seq<(u32, u32)>, spawn: (u32, u32), h: (u32, u32), o: (u32, u32))
    requires
        search_result(w, homes, spawn, Some(h)),
        homes.contains(o),
    ensures
        !component(w, h).contains(o),
        !component(w, o).contains(h),
{
    let c = spec_town_center(homes, spawn);
    let house = choose|house: House| #[trigger] found_house(w, c, homes, house) && house.home == h;
    let r: u32 = if nearest_in_box(w, c, homes, 100, house) {
        100
    } else if nearest_in_box(w, c, homes, 200, house) {
        200
    } else {
        400
    };
    assert(nearest_in_box(w, c, homes, r, house));
    let c2 = choose|c2: (u32, u32)|
        crate::housing::is_candidate(w, c2) && crate::housing::in_box(w, c, r, c2) && #[trigger] house_of(
            w,
            homes,
            c2,
            house,
        ) && crate::housing::first_nearest(w, c, homes, r, c2, house);
    reveal(vacant);
    assert(vacant(w, homes, c2));
    assert(best_home(w, component(w, c2), h));
    assert(is_home_tile(w, component(w, c2), h));
    assert(reaches(w, c2, h));
    let k = choose|k: int| 0 <= k < homes.len() && homes[k] == o;
    assert(!component(w, c2).contains(homes[k]));
    if reaches(w, h, o) {
        lemma_reach_trans(w, c2, h, o);
    }
    if reaches(w, o, h) {
        lemma_reach_symmetric(w, o, h);
        lemma_reach_trans(w, c2, h, o);
    }
}

/// Every housed NPC's home lies in a room that passes rules 1-6.
pub open spec fn homes_valid(w: &World, npcs: Seq<TownNpc>) -> bool {
    forall|i: int| 0 <= i < npcs.len() && (#[trigger] npcs[i]).home is Some ==> room_ok(w, npcs[i].home->Some_0)
}

/// A house search's home lies in a room that passes rules 1-6.
pub proof fn lemma_found_home_ok(w: &World, homes: Seq<(u32, u32)>, spawn: (u32, u32), h: (u32, u32))
    requires
        search_result(w, homes, spawn, Some(h)),
    ensures
        room_ok(w, h),
{
    let c = spec_town_center(homes, spawn);
    let house = choose|house: House| #[trigger] found_house(w, c, homes, house) && house.home == h;
    let r: u32 = if nearest_in_box(w, c, homes, 100, house) {
        100
    } else if nearest_in_box(w, c, homes, 200, house) {
        200
    } else {
        400
    };
    assert(nearest_in_box(w, c, homes, r, house));
    let c2 = choose|c2: (u32, u32)|
        crate::housing::is_candidate(w, c2) && crate::housing::in_box(w, c, r, c2) && #[trigger] house_of(
            w,
            homes,
            c2,
            house,
        ) && crate::housing::first_nearest(w, c, homes, r, c2, house);
    reveal(vacant);
    assert(vacant(w, homes, c2));
    assert(best_home(w, component(w, c2), h));
    assert(is_home_tile(w, component(w, c2), h));
    assert(reaches(w, c2, h));
    crate::housing::lemma_same_region(w, c2, h);
    let p = choose|p: Seq<(u32, u32)>| crate::housing::is_path(w, p) && p[0] == c2 && #[trigger] p[p.len() - 1] == h;
    assert(open_cell(w, p[p.len() - 1]));
}

/// A room that passes rules 1-6 is accepted by the house check.
pub proof fn lemma_room_ok_checks(w: &World, h: (u32, u32), res: Result<House, HousingError>)
    requires
        room_ok(w, h),
        house_result(w, h, res),
    ensures
        res is Ok,
        res->Ok_0.home == room_verdict(w, component(w, h))->Ok_0,
{
    reveal(house_result);
}

/// An NPC that moves into a found house keeps the rooms apart.
proof fn lemma_move_in_apart(w: &World, npcs: Seq<TownNpc>, spawn: (u32, u32), n: TownNpc)
    requires
        rooms_apart(w, npcs),
        homes_valid(w, npcs),
        n.home is Some,
        search_result(w, homes_of(npcs), spawn, n.home),
    ensures
        rooms_apart(w, npcs.push(n)),
        homes_valid(w, npcs.push(n)),
{
    lemma_found_home_ok(w, homes_of(npcs), spawn, n.home->Some_0);
    assert forall|i: int| 0 <= i < npcs.push(n).len() && (#[trigger] npcs.push(n)[i]).home is Some implies room_ok(
        w,
        npcs.push(n)[i].home->Some_0,
    ) by {
        if i < npcs.len() {
            assert(npcs.push(n)[i] == npcs[i]);
        }
    }
    let q = npcs.push(n);
    let h = n.home->Some_0;
    assert forall|i: int, j: int|
        #![trigger q[i], q[j]]
        0 <= i < q.len() && 0 <= j < q.len() && i != j && q[i].home is Some && q[j].home is Some
            implies !component(w, q[i].home->Some_0).contains(q[j].home->Some_0) by {
        if i == npcs.len() {
            lemma_homes_of_has(npcs, j);
            lemma_found_home_apart(w, homes_of(npcs), spawn, h, npcs[j].home->Some_0);
        } else if j == npcs.len() {
            lemma_homes_of_has(npcs, i);
            lemma_found_home_apart(w, homes_of(npcs), spawn, h, npcs[i].home->Some_0);
        } else {
            assert(q[i] == npcs[i] && q[j] == npcs[j]);
        }
    }
}

/// Move-ins in turn, each into a house found for the roster as it stood,
/// keep the rooms apart.
proof fn lemma_grown_apart(
    w: &World,
    old: Seq<TownNpc>,
    kinds: Seq<NpcKind>,
    outcomes: Seq<Option<(u32, u32)>>,
    first_id: int,
    spawn: (u32, u32),
    j: int,
)
    requires
        rooms_apart(w, old),
        homes_valid(w, old),
        0 <= j <= outcomes.len(),
        forall|k: int|
            0 <= k < j && outcomes[k] is Some ==> search_result(
                w,
                homes_of(#[trigger] grown(old, kinds, outcomes, first_id, k)),
                spawn,
                outcomes[k],
            ),
    ensures
        rooms_apart(w, grown(old, kinds, outcomes, first_id, j)),
        homes_valid(w, grown(old, kinds, outcomes, first_id, j)),
    decreases j,
{
    if j > 0 {
        lemma_grown_apart(w, old, kinds, outcomes, first_id, spawn, j - 1);
        let prev = grown(old, kinds, outcomes, first_id, j - 1);
        if let Some(h) = outcomes[j - 1] {
            let n = TownNpc { id: (first_id + prev.len() - old.len()) as u32, kind: kinds[j - 1], home: Some(h) };
            assert(search_result(w, homes_of(prev), spawn, outcomes[j - 1]));
            lemma_move_in_apart(w, prev, spawn, n);
        }
    }
}

/// Homeless NPCs claiming found houses keep the rooms apart.
proof fn lemma_claiming_apart(w: &World, r1: Seq<TownNpc>, r2: Seq<TownNpc>, spawn: (u32, u32), changed: bool)
    requires
        claiming(w, r1, r2, spawn, changed),
        rooms_apart(w, r1),
        homes_valid(w, r1),
    ensures
        rooms_apart(w, r2),
        homes_valid(w, r2),
{
    assert forall|i: int| 0 <= i < r2.len() && (#[trigger] r2[i]).home is Some implies room_ok(
        w,
        r2[i].home->Some_0,
    ) by {
        if r1[i].home is Some {
            assert(r2[i].home == r1[i].home);
        } else {
            assert(search_result(w, homes_of(roster_at(r1, r2, i)), spawn, r2[i].home));
            lemma_found_home_ok(w, homes_of(roster_at(r1, r2, i)), spawn, r2[i].home->Some_0);
        }
    }
    assert forall|i: int, j: int|
        #![trigger r2[i], r2[j]]
        0 <= i < r2.len() && 0 <= j < r2.len() && i != j && r2[i].home is Some && r2[j].home is Some
            implies !component(w, r2[i].home->Some_0).contains(r2[j].home->Some_0) by {
        let ci = r1[i].home is None;
        let cj = r1[j].home is None;
        assert(r2[i] == r2[i] && r1[i] == r1[i] && r1[j] == r1[j]);
        if !ci && !cj {
            assert(r2[i].home == r1[i].home && r2[j].home == r1[j].home);
        } else {
            let (m, o) = if ci && (!cj || j < i) {
                (i, j)
            } else {
                (j, i)
            };
            let ra = roster_at(r1, r2, m);
            assert(search_result(w, homes_of(ra), spawn, r2[m].home));
            assert(ra[o] == if o < m {
                r2[o]
            } else {
                r1[o]
            });
            if o > m {
                assert(r1[o].home == r2[o].home);
            }
            lemma_homes_of_has(ra, o);
            lemma_found_home_apart(w, homes_of(ra), spawn, r2[m].home->Some_0, r2[o].home->Some_0);
        }
    }
}

/// The dawn revalidation leaves no two NPCs in one room.
proof fn lemma_revalidation_apart(w: &World, r0: Seq<TownNpc>, r1: Seq<TownNpc>, changed: bool)
    requires
        revalidation(w, r0, r1, changed),
    ensures
        rooms_apart(w, r1),
        homes_valid(w, r1),
{
    assert forall|i: int| 0 <= i < r1.len() && (#[trigger] r1[i]).home is Some implies room_ok(
        w,
        r1[i].home->Some_0,
    ) by {
        assert(r1[i].home == revalidated(w, r0, i));
    }
    assert forall|i: int, j: int|
        #![trigger r1[i], r1[j]]
        0 <= i < r1.len() && 0 <= j < r1.len() && i != j && r1[i].home is Some && r1[j].home is Some
            implies !component(w, r1[i].home->Some_0).contains(r1[j].home->Some_0) by {
        let hi = r1[i].home->Some_0;
        let hj = r1[j].home->Some_0;
        assert(r1[i].home == revalidated(w, r0, i) && r1[j].home == revalidated(w, r0, j));
        if i < j {
            lemma_revalidated_rooms_distinct(w, r0, i, j);
            if reaches(w, hi, hj) {
                lemma_reach_symmetric(w, hi, hj);
            }
        } else {
            lemma_revalidated_rooms_distinct(w, r0, j, i);
        }
    }
}

/// After every dawn pass the housing rules hold across the roster: no two
/// NPCs live in one room (rule 7), and every home lies in a room that
/// passes rules 1-6.
proof fn lemma_dawn_housing(
    w: &World,
    npcs0: Seq<TownNpc>,
    npcs1: Seq<TownNpc>,
    arrived0: Seq<NpcKind>,
    arrived1: Seq<NpcKind>,
    spawn: (u32, u32),
    coins: int,
    max_hp: int,
    id0: int,
    id1: int,
    report: DawnReport,
)
    requires
        dawn_pass(w, npcs0, npcs1, arrived0, arrived1, spawn, coins, max_hp, id0, id1, report),
    ensures
        rooms_apart(w, npcs1),
        homes_valid(w, npcs1),
{
    let (r1, r2, r3, c1, c2, i2) = choose|r1: Seq<TownNpc>, r2: Seq<TownNpc>, r3: Seq<TownNpc>, c1: bool, c2: bool, i2: int|
        #[trigger] revalidation(w, npcs0, r1, c1) && #[trigger] claiming(w, r1, r2, spawn, c2) && #[trigger] respawning(
            w,
            r2,
            r3,
            arrived0,
            spawn,
            id0,
            i2,
            report.respawned@,
        ) && arriving(w, r3, npcs1, arrived0, arrived1, spawn, coins, max_hp, i2, id1, report.arrivals@)
            && report.broadcast == ((c1 || c2 || any_moved_in(report.respawned@)) && !any_moved_in(
            report.arrivals@,
        ));
    lemma_revalidation_apart(w, npcs0, r1, c1);
    lemma_claiming_apart(w, r1, r2, spawn, c2);
    let dead = dead_kinds(r2, arrived0);
    lemma_grown_apart(w, r2, dead, report.respawned@, id0, spawn, dead.len() as int);
    let outs = report.arrivals@;
    assert forall|k: int| 0 <= k < 3 && outs[k] is Some implies search_result(
        w,
        homes_of(#[trigger] grown(r3, arrival_order(), outs, i2, k)),
        spawn,
        outs[k],
    ) by {
        assert(arrival_step(w, r3, arrived0, outs, i2, spawn, coins, max_hp, k));
    }
    lemma_grown_apart(w, r3, arrival_order(), outs, i2, spawn, 3);
}

/// Rule 7 holds after every dawn pass: once homes are revalidated, the
/// homeless have claimed, the dead have moved back in and the new arrivals
/// have come, no two NPCs live in one room.
pub proof fn lemma_dawn_one_npc_per_room(
    w: &World,
    npcs0: Seq<TownNpc>,
    npcs1: Seq<TownNpc>,
    arrived0: Seq<NpcKind>,
    arrived1: Seq<NpcKind>,
    spawn: (u32, u32),
    coins: int,
    max_hp: int,
    id0: int,
    id1: int,
    report: DawnReport,
)
    requires
        dawn_pass(w, npcs0, npcs1, arrived0, arrived1, spawn, coins, max_hp, id0, id1, report),
    ensures
        rooms_apart(w, npcs1),
{
    lemma_dawn_housing(w, npcs0, npcs1, arrived0, arrived1, spawn, coins, max_hp, id0, id1, report);
}

/// Rules 1-6 hold after every dawn pass: every NPC that has a home
/// afterwards lives in a room that passes them, so the house check accepts
/// it from the home tile.
pub proof fn lemma_dawn_homes_pass_the_rules(
    w: &World,
    npcs0: Seq<TownNpc>,
    npcs1: Seq<TownNpc>,
    arrived0: Seq<NpcKind>,
    arrived1: Seq<NpcKind>,
    spawn: (u32, u32),
    coins: int,
    max_hp: int,
    id0: int,
    id1: int,
    report: DawnReport,
)
    requires
        dawn_pass(w, npcs0, npcs1, arrived0, arrived1, spawn, coins, max_hp, id0, id1, report),
    ensures
        homes_valid(w, npcs1),
        forall|i: int, res: Result<House, HousingError>|
            0 <= i < npcs1.len() && npcs1[i].home is Some && #[trigger] house_result(
                w,
                npcs1[i].home->Some_0,
                res,
            ) ==> res is Ok,
{
    lemma_dawn_housing(w, npcs0, npcs1, arrived0, arrived1, spawn, coins, max_hp, id0, id1, report);
    assert forall|i: int, res: Result<House, HousingError>|
        0 <= i < npcs1.len() && npcs1[i].home is Some && #[trigger] house_result(
            w,
            npcs1[i].home->Some_0,
            res,
        ) implies res is Ok by {
        assert(room_ok(w, npcs1[i].home->Some_0));
        lemma_room_ok_checks(w, npcs1[i].home->Some_0, res);
    }
}

} // verus!
