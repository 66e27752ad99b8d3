//! The bright-to-dark bucket flood behind `LightEngine::recompute`, and
//! what its result is: the light field that every seed bounds from below,
//! that loses no more than the attenuation per step, and whose every level
//! is a seed or is carried from a brighter neighbour.

use vstd::prelude::*;

use vstd::arithmetic::div_mod::lemma_fundamental_div_mod_converse;

use crate::tiles::{
    spec_id_light, spec_solid, LiquidKind, Tile, LAVA_LIGHT, LIGHT_ATTEN_AIR, LIGHT_ATTEN_SOLID,
    LIGHT_MAX,
};
use crate::world::{cell_index, lemma_cell_index, lemma_cell_index_inj};

use super::DynamicSource;

verus! {

/// Light of cell `(x, y)` in a row-major field `w` wide.
pub open spec fn lvl(light: Seq<u8>, w: int, x: int, y: int) -> int {
    light[cell_index(w, x, y)] as int
}

/// `(x, y)` lies in the inclusive rectangle `e = (x0, y0, x1, y1)`.
pub open spec fn in_rect(e: (u32, u32, u32, u32), x: int, y: int) -> bool {
    e.0 <= x <= e.2 && e.1 <= y <= e.3
}

/// 4-neighbours.
pub open spec fn neighbours(x1: int, y1: int, x2: int, y2: int) -> bool {
    ||| x1 == x2 && (y1 == y2 + 1 || y2 == y1 + 1)
    ||| y1 == y2 && (x1 == x2 + 1 || x2 == x1 + 1)
}

/// Light lost stepping into tile `t`.
pub open spec fn spec_atten(t: Tile) -> int {
    if spec_solid(t) {
        LIGHT_ATTEN_SOLID as int
    } else {
        LIGHT_ATTEN_AIR as int
    }
}

/// What a tile emits by itself: its kind's light, at least lava's inside
/// lava, and the sky light for a dry, non-solid, sky-exposed cell when
/// that is brighter.
pub open spec fn tile_seed(t: Tile, sky: int, exposed: bool) -> int {
    let s0 = spec_id_light(t.id) as int;
    let s1 = if t.liquid.kind == Some(LiquidKind::Lava) && s0 < LAVA_LIGHT {
        LAVA_LIGHT as int
    } else {
        s0
    };
    if s1 < sky && !spec_solid(t) && t.liquid.kind is None && exposed {
        sky
    } else {
        s1
    }
}

/// A cell holding liquid is never lit by the sky: its seed is its tile's
/// own light (raised to `LAVA_LIGHT` in lava), whatever the sky level and
/// exposure. A dry, non-solid, exposed cell is seeded at least at the sky
/// level, and no seed is below the tile's own light.
pub proof fn lemma_seed_sources(t: Tile, sky: int, exposed: bool, sky2: int, exposed2: bool)
    ensures
        t.liquid.kind is Some ==> tile_seed(t, sky, exposed) == tile_seed(t, sky2, exposed2),
        t.liquid.kind == Some(LiquidKind::Water) ==> tile_seed(t, sky, exposed) == spec_id_light(t.id),
        t.liquid.kind == Some(LiquidKind::Lava) ==> tile_seed(t, sky, exposed) == (if spec_id_light(t.id) < LAVA_LIGHT {
            LAVA_LIGHT as int
        } else {
            spec_id_light(t.id) as int
        }),
        t.liquid.kind is None && !spec_solid(t) && exposed ==> tile_seed(t, sky, exposed) == (if spec_id_light(t.id) < sky {
            sky
        } else {
            spec_id_light(t.id) as int
        }),
        (t.liquid.kind is None && (spec_solid(t) || !exposed)) ==> tile_seed(t, sky, exposed) == spec_id_light(t.id),
        tile_seed(t, sky, exposed) >= spec_id_light(t.id),
{
}

/// Brightest dynamic source standing on `(x, y)` (0 when none does).
pub open spec fn source_max(sources: Seq<DynamicSource>, x: int, y: int) -> int
    decreases sources.len(),
{
    if sources.len() == 0 {
        0
    } else {
        let prev = source_max(sources.drop_last(), x, y);
        let s = sources.last();
        if s.x == x && s.y == y && s.level > prev {
            s.level as int
        } else {
            prev
        }
    }
}

/// No source standing on `(x, y)` is brighter than `LIGHT_MAX`, so neither
/// is their maximum.
pub proof fn lemma_source_max_bound(sources: Seq<DynamicSource>, x: int, y: int)
    requires
        forall|k: int|
            0 <= k < sources.len() && sources[k].x == x && sources[k].y == y
                ==> #[trigger] sources[k].level <= LIGHT_MAX,
    ensures
        0 <= source_max(sources, x, y) <= LIGHT_MAX,
    decreases sources.len(),
{
    if sources.len() > 0 {
        let p = sources.drop_last();
        assert forall|k: int| 0 <= k < p.len() && p[k].x == x && p[k].y == y implies #[trigger] p[k].level <= LIGHT_MAX by {
            assert(p[k] == sources[k]);
        }
        lemma_source_max_bound(p, x, y);
        assert(sources.last() == sources[sources.len() - 1]);
    }
}

/// Every 4-neighbour inside `e` holds at least this cell's light minus the
/// step into it.
pub open spec fn settled(light: Seq<u8>, tiles: Seq<Tile>, w: int, e: (u32, u32, u32, u32), x: int, y: int) -> bool {
    forall|nx: int, ny: int|
        #[trigger] neighbours(x, y, nx, ny) && in_rect(e, nx, ny) ==> lvl(light, w, nx, ny) >= lvl(
            light,
            w,
            x,
            y,
        ) - spec_atten(tiles[cell_index(w, nx, ny)])
}

/// The cell holds its seed, or a neighbour inside `e` at least `floor`
/// bright carries exactly its light into it.
pub open spec fn justified(
    light: Seq<u8>,
    base: Seq<u8>,
    tiles: Seq<Tile>,
    w: int,
    e: (u32, u32, u32, u32),
    x: int,
    y: int,
    floor: int,
) -> bool {
    ||| lvl(light, w, x, y) == lvl(base, w, x, y)
    ||| exists|nx: int, ny: int|
        #[trigger] neighbours(x, y, nx, ny) && in_rect(e, nx, ny) && lvl(light, w, nx, ny) == lvl(
            light,
            w,
            x,
            y,
        ) + spec_atten(tiles[cell_index(w, x, y)]) && lvl(light, w, nx, ny) >= floor
}

/// The rectangle is inside a `w` x `h` grid (it may be empty).
pub open spec fn rect_in(e: (u32, u32, u32, u32), w: int, h: int) -> bool {
    e.2 < w && e.3 < h
}

/// Bucket entries name cells of `e`.
pub open spec fn entry_ok(w: int, e: (u32, u32, u32, u32), i: u32) -> bool {
    in_rect(e, i as int % w, i as int / w)
}

pub proof fn lemma_coords(w: int, h: int, x: int, y: int)
    requires
        0 <= x < w,
        0 <= y < h,
    ensures
        cell_index(w, x, y) % w == x,
        cell_index(w, x, y) / w == y,
        0 <= cell_index(w, x, y) < w * h,
{
    lemma_cell_index(w, h, x, y);
    lemma_fundamental_div_mod_converse(cell_index(w, x, y), w, y, x);
}

pub proof fn lemma_entry(w: int, h: int, e: (u32, u32, u32, u32), i: u32)
    requires
        w >= 1,
        rect_in(e, w, h),
        entry_ok(w, e, i),
    ensures
        i == cell_index(w, i as int % w, i as int / w),
        0 <= i as int % w < w,
        0 <= i as int / w < h,
        (i as int) < w * h,
{
    vstd::arithmetic::div_mod::lemma_fundamental_div_mod(i as int, w);
    let x = i as int % w;
    let y = i as int / w;
    assert(i == y * w + x) by (nonlinear_arith)
        requires
            i == w * (i as int / w) + i as int % w,
            x == i as int % w,
            y == i as int / w,
    ;
    lemma_cell_index(w, h, x, y);
}

/// After writing `v` into cell `(x0, y0)` every other cell is unchanged.
pub proof fn lemma_write(light: Seq<u8>, w: int, h: int, x0: int, y0: int, v: u8)
    requires
        light.len() == w * h,
        0 <= x0 < w,
        0 <= y0 < h,
    ensures
        forall|x: int, y: int|
            0 <= x < w && 0 <= y < h ==> #[trigger] lvl(
                light.update(cell_index(w, x0, y0), v),
                w,
                x,
                y,
            ) == if x == x0 && y == y0 {
                v as int
            } else {
                lvl(light, w, x, y)
            },
{
    assert forall|x: int, y: int| 0 <= x < w && 0 <= y < h implies #[trigger] lvl(
        light.update(cell_index(w, x0, y0), v),
        w,
        x,
        y,
    ) == if x == x0 && y == y0 {
        v as int
    } else {
        lvl(light, w, x, y)
    } by {
        lemma_cell_index(w, h, x, y);
        lemma_cell_index(w, h, x0, y0);
        if cell_index(w, x, y) == cell_index(w, x0, y0) {
            lemma_cell_index_inj(w, x, y, x0, y0);
        }
    }
}

// ---- The flood's loop states --------------------------------------------------

/// Shape facts every state shares.
pub open spec fn grid_ok(
    light: Seq<u8>,
    tiles: Seq<Tile>,
    w: int,
    h: int,
    e: (u32, u32, u32, u32),
) -> bool {
    &&& w >= 1
    &&& h >= 1
    &&& w * h <= u32::MAX
    &&& light.len() == w * h
    &&& tiles.len() == w * h
    &&& rect_in(e, w, h)
}

/// Inside `e` every cell holds between its seed and `LIGHT_MAX`; outside
/// `e` nothing moved.
pub open spec fn bounded(light: Seq<u8>, base: Seq<u8>, w: int, h: int, e: (u32, u32, u32, u32)) -> bool {
    &&& forall|x: int, y: int|
        in_rect(e, x, y) ==> lvl(base, w, x, y) <= #[trigger] lvl(light, w, x, y) <= LIGHT_MAX
    &&& forall|x: int, y: int|
        0 <= x < w && 0 <= y < h && !in_rect(e, x, y) ==> #[trigger] lvl(light, w, x, y) == lvl(
            base,
            w,
            x,
            y,
        )
}

pub open spec fn all_justified(
    light: Seq<u8>,
    base: Seq<u8>,
    tiles: Seq<Tile>,
    w: int,
    e: (u32, u32, u32, u32),
    floor: int,
) -> bool {
    forall|x: int, y: int|
        in_rect(e, x, y) ==> #[trigger] justified(light, base, tiles, w, e, x, y, floor)
}

/// Cells brighter than `lv` are settled.
pub open spec fn settled_above(
    light: Seq<u8>,
    tiles: Seq<Tile>,
    w: int,
    e: (u32, u32, u32, u32),
    lv: int,
) -> bool {
    forall|x: int, y: int|
        in_rect(e, x, y) && lvl(light, w, x, y) > lv ==> #[trigger] settled(light, tiles, w, e, x, y)
}

/// The first `j` queue entries that still hold `lv` are settled.
pub open spec fn settled_queue(
    light: Seq<u8>,
    tiles: Seq<Tile>,
    w: int,
    e: (u32, u32, u32, u32),
    lv: int,
    q: Seq<u32>,
    j: int,
) -> bool {
    forall|k: int|
        0 <= k < j && lvl(light, w, #[trigger] q[k] as int % w, q[k] as int / w) == lv ==> settled(
            light,
            tiles,
            w,
            e,
            q[k] as int % w,
            q[k] as int / w,
        )
}

/// Every lit cell of `e` no brighter than `top` waits in its level's
/// bucket (`strict`: only those below `top`).
pub open spec fn queued(
    light: Seq<u8>,
    w: int,
    e: (u32, u32, u32, u32),
    bk: Seq<Vec<u32>>,
    top: int,
) -> bool {
    forall|x: int, y: int|
        in_rect(e, x, y) && 0 < #[trigger] lvl(light, w, x, y) <= top ==> bk[lvl(
            light,
            w,
            x,
            y,
        )]@.contains(cell_index(w, x, y) as u32)
}

pub open spec fn buckets_ok(w: int, e: (u32, u32, u32, u32), bk: Seq<Vec<u32>>) -> bool {
    &&& bk.len() == LIGHT_MAX + 1
    &&& forall|k: int, m: int|
        0 <= k <= LIGHT_MAX && 0 <= m < bk[k]@.len() ==> entry_ok(w, e, #[trigger] bk[k]@[m])
}

/// Between levels: everything brighter than `lv` is settled, every cell is
/// justified by a neighbour brighter than `lv`, and the rest is queued.
pub open spec fn level_state(
    light: Seq<u8>,
    base: Seq<u8>,
    tiles: Seq<Tile>,
    w: int,
    h: int,
    e: (u32, u32, u32, u32),
    bk: Seq<Vec<u32>>,
    lv: int,
) -> bool {
    &&& grid_ok(light, tiles, w, h, e)
    &&& bounded(light, base, w, h, e)
    &&& all_justified(light, base, tiles, w, e, lv + 1)
    &&& settled_above(light, tiles, w, e, lv)
    &&& queued(light, w, e, bk, lv)
    &&& buckets_ok(w, e, bk)
}

/// Inside level `lv`, after `j` of the `q` entries.
pub open spec fn step_state(
    light: Seq<u8>,
    base: Seq<u8>,
    tiles: Seq<Tile>,
    w: int,
    h: int,
    e: (u32, u32, u32, u32),
    bk: Seq<Vec<u32>>,
    lv: int,
    q: Seq<u32>,
    j: int,
) -> bool {
    &&& grid_ok(light, tiles, w, h, e)
    &&& 1 <= lv <= LIGHT_MAX
    &&& 0 <= j <= q.len()
    &&& bounded(light, base, w, h, e)
    &&& all_justified(light, base, tiles, w, e, lv)
    &&& settled_above(light, tiles, w, e, lv)
    &&& settled_queue(light, tiles, w, e, lv, q, j)
    &&& queued(light, w, e, bk, lv - 1)
    &&& forall|x: int, y: int|
        in_rect(e, x, y) && #[trigger] lvl(light, w, x, y) == lv ==> q.contains(
            cell_index(w, x, y) as u32,
        )
    &&& buckets_ok(w, e, bk)
    &&& forall|m: int| 0 <= m < q.len() ==> entry_ok(w, e, #[trigger] q[m])
}


// ---- Lemmas over the loop states ----------------------------------------------

/// Pushing `c` onto bucket `k0` keeps every queued entry and queues `c`.
pub proof fn lemma_push_keeps(bk: Seq<Vec<u32>>, bk2: Seq<Vec<u32>>, k0: int, c: u32)
    requires
        bk2.len() == bk.len(),
        0 <= k0 < bk.len(),
        bk2[k0]@ == bk[k0]@.push(c),
        forall|k: int| 0 <= k < bk.len() && k != k0 ==> bk2[k]@ == bk[k]@,
    ensures
        forall|k: int, v: u32| 0 <= k < bk.len() && #[trigger] bk[k]@.contains(v) ==> bk2[k]@.contains(v),
        bk2[k0]@.contains(c),
{
    assert forall|k: int, v: u32| 0 <= k < bk.len() && #[trigger] bk[k]@.contains(v) implies bk2[k]@.contains(v) by {
        let m = choose|m: int| 0 <= m < bk[k]@.len() && bk[k]@[m] == v;
        assert(bk2[k]@[m] == v);
    }
    assert(bk2[k0]@[bk[k0]@.len() as int] == c);
}

/// Pushing an entry of `e` keeps the buckets well-formed.
pub proof fn lemma_push_entries(w: int, e: (u32, u32, u32, u32), bk: Seq<Vec<u32>>, bk2: Seq<Vec<u32>>, k0: int, c: u32)
    requires
        buckets_ok(w, e, bk),
        entry_ok(w, e, c),
        bk2.len() == bk.len(),
        0 <= k0 < bk.len(),
        bk2[k0]@ == bk[k0]@.push(c),
        forall|k: int| 0 <= k < bk.len() && k != k0 ==> bk2[k]@ == bk[k]@,
    ensures
        buckets_ok(w, e, bk2),
{
    assert forall|k: int, m: int| 0 <= k <= LIGHT_MAX && 0 <= m < bk2[k]@.len() implies entry_ok(w, e, #[trigger] bk2[k]@[m]) by {
        if k == k0 && m == bk[k0]@.len() {
        } else {
            assert(bk2[k]@[m] == bk[k]@[m]);
        }
    }
}

/// A settled cell stays settled when its own light is unchanged and no
/// cell of `e` gets dimmer.
pub proof fn lemma_settled_keep(
    light: Seq<u8>,
    light2: Seq<u8>,
    tiles: Seq<Tile>,
    w: int,
    e: (u32, u32, u32, u32),
    x: int,
    y: int,
)
    requires
        settled(light, tiles, w, e, x, y),
        lvl(light2, w, x, y) == lvl(light, w, x, y),
        forall|px: int, py: int| in_rect(e, px, py) ==> #[trigger] lvl(light2, w, px, py) >= lvl(light, w, px, py),
    ensures
        settled(light2, tiles, w, e, x, y),
{
    assert forall|nx: int, ny: int| #[trigger] neighbours(x, y, nx, ny) && in_rect(e, nx, ny) implies lvl(light2, w, nx, ny) >= lvl(light2, w, x, y) - spec_atten(tiles[cell_index(w, nx, ny)]) by {
        assert(lvl(light2, w, nx, ny) >= lvl(light, w, nx, ny));
    }
}

/// A cell justified above `floor + 1` is justified above `floor`.
pub proof fn lemma_justified_weaken(
    light: Seq<u8>,
    base: Seq<u8>,
    tiles: Seq<Tile>,
    w: int,
    e: (u32, u32, u32, u32),
    x: int,
    y: int,
    floor: int,
    floor2: int,
)
    requires
        justified(light, base, tiles, w, e, x, y, floor),
        floor2 <= floor,
    ensures
        justified(light, base, tiles, w, e, x, y, floor2),
{
    if lvl(light, w, x, y) != lvl(base, w, x, y) {
        let (nx, ny) = choose|nx: int, ny: int|
            #[trigger] neighbours(x, y, nx, ny) && in_rect(e, nx, ny) && lvl(light, w, nx, ny) == lvl(light, w, x, y) + spec_atten(tiles[cell_index(w, x, y)]) && lvl(light, w, nx, ny) >= floor;
        assert(neighbours(x, y, nx, ny));
    }
}

/// Raising a dimmer neighbour `(nx, ny)` of a level-`lv` cell `(x, y)` to
/// what it carries across, and queueing it, keeps the step state.
pub proof fn lemma_raise(
    light: Seq<u8>,
    light2: Seq<u8>,
    base: Seq<u8>,
    tiles: Seq<Tile>,
    w: int,
    h: int,
    e: (u32, u32, u32, u32),
    bk: Seq<Vec<u32>>,
    bk2: Seq<Vec<u32>>,
    lv: int,
    q: Seq<u32>,
    j: int,
    x: int,
    y: int,
    nx: int,
    ny: int,
    nl: u8,
)
    requires
        step_state(light, base, tiles, w, h, e, bk, lv, q, j),
        in_rect(e, x, y),
        in_rect(e, nx, ny),
        neighbours(x, y, nx, ny),
        lvl(light, w, x, y) == lv,
        nl as int == lv - spec_atten(tiles[cell_index(w, nx, ny)]),
        lvl(light, w, nx, ny) < nl,
        light2 == light.update(cell_index(w, nx, ny), nl),
        bk2.len() == bk.len(),
        bk2[nl as int]@ == bk[nl as int]@.push(cell_index(w, nx, ny) as u32),
        forall|k: int| 0 <= k < bk.len() && k != nl ==> bk2[k]@ == bk[k]@,
    ensures
        step_state(light2, base, tiles, w, h, e, bk2, lv, q, j),
{
    let c = cell_index(w, nx, ny);
    lemma_write(light, w, h, nx, ny, nl);
    lemma_coords(w, h, nx, ny);
    lemma_push_keeps(bk, bk2, nl as int, c as u32);
    lemma_push_entries(w, e, bk, bk2, nl as int, c as u32);
    assert forall|px: int, py: int| in_rect(e, px, py) implies #[trigger] lvl(light2, w, px, py) >= lvl(light, w, px, py) by {
    }
    // bounded
    assert forall|px: int, py: int| in_rect(e, px, py) implies lvl(base, w, px, py) <= #[trigger] lvl(light2, w, px, py) <= LIGHT_MAX by {
        assert(lvl(base, w, px, py) <= lvl(light, w, px, py) <= LIGHT_MAX);
    }
    assert forall|px: int, py: int| 0 <= px < w && 0 <= py < h && !in_rect(e, px, py) implies #[trigger] lvl(light2, w, px, py) == lvl(base, w, px, py) by {
        assert(lvl(light, w, px, py) == lvl(base, w, px, py));
    }
    // justified
    assert forall|px: int, py: int| in_rect(e, px, py) implies #[trigger] justified(light2, base, tiles, w, e, px, py, lv) by {
        if px == nx && py == ny {
            assert(neighbours(nx, ny, x, y));
            assert(lvl(light2, w, x, y) == lv);
        } else {
            assert(justified(light, base, tiles, w, e, px, py, lv));
            if lvl(light, w, px, py) != lvl(base, w, px, py) {
                let (qx, qy) = choose|qx: int, qy: int|
                    #[trigger] neighbours(px, py, qx, qy) && in_rect(e, qx, qy) && lvl(light, w, qx, qy) == lvl(light, w, px, py) + spec_atten(tiles[cell_index(w, px, py)]) && lvl(light, w, qx, qy) >= lv;
                assert(lvl(light2, w, qx, qy) == lvl(light, w, qx, qy));
                assert(neighbours(px, py, qx, qy));
            }
        }
    }
    // settled above lv
    assert forall|px: int, py: int| in_rect(e, px, py) && lvl(light2, w, px, py) > lv implies #[trigger] settled(light2, tiles, w, e, px, py) by {
        assert(lvl(light, w, px, py) > lv);
        lemma_settled_keep(light, light2, tiles, w, e, px, py);
    }
    // settled queue
    assert forall|k: int| 0 <= k < j && lvl(light2, w, #[trigger] q[k] as int % w, q[k] as int / w) == lv implies settled(light2, tiles, w, e, q[k] as int % w, q[k] as int / w) by {
        let px = q[k] as int % w;
        let py = q[k] as int / w;
        assert(entry_ok(w, e, q[k]));
        assert(lvl(light, w, px, py) == lv);
        lemma_settled_keep(light, light2, tiles, w, e, px, py);
    }
    // queued below lv
    assert forall|px: int, py: int| in_rect(e, px, py) && 0 < #[trigger] lvl(light2, w, px, py) <= lv - 1 implies bk2[lvl(light2, w, px, py)]@.contains(cell_index(w, px, py) as u32) by {
        if px == nx && py == ny {
        } else {
            assert(bk[lvl(light, w, px, py)]@.contains(cell_index(w, px, py) as u32));
        }
    }
    assert forall|px: int, py: int| in_rect(e, px, py) && #[trigger] lvl(light2, w, px, py) == lv implies q.contains(cell_index(w, px, py) as u32) by {
        assert(lvl(light, w, px, py) == lv);
    }
}

/// Taking bucket `lv` out as the queue starts the level.
pub proof fn lemma_enter(
    light: Seq<u8>,
    base: Seq<u8>,
    tiles: Seq<Tile>,
    w: int,
    h: int,
    e: (u32, u32, u32, u32),
    bk: Seq<Vec<u32>>,
    bk2: Seq<Vec<u32>>,
    lv: int,
    q: Seq<u32>,
)
    requires
        level_state(light, base, tiles, w, h, e, bk, lv),
        1 <= lv <= LIGHT_MAX,
        q == bk[lv]@,
        bk2.len() == bk.len(),
        bk2[lv]@ == Seq::<u32>::empty(),
        forall|k: int| 0 <= k < bk.len() && k != lv ==> bk2[k]@ == bk[k]@,
    ensures
        step_state(light, base, tiles, w, h, e, bk2, lv, q, 0),
{
    assert forall|x: int, y: int| in_rect(e, x, y) implies #[trigger] justified(light, base, tiles, w, e, x, y, lv) by {
        assert(justified(light, base, tiles, w, e, x, y, lv + 1));
        lemma_justified_weaken(light, base, tiles, w, e, x, y, lv + 1, lv);
    }
    assert forall|x: int, y: int| in_rect(e, x, y) && 0 < #[trigger] lvl(light, w, x, y) <= lv - 1 implies bk2[lvl(light, w, x, y)]@.contains(cell_index(w, x, y) as u32) by {
        assert(bk[lvl(light, w, x, y)]@.contains(cell_index(w, x, y) as u32));
    }
    assert forall|x: int, y: int| in_rect(e, x, y) && #[trigger] lvl(light, w, x, y) == lv implies q.contains(cell_index(w, x, y) as u32) by {
    }
    assert forall|k: int, m: int| 0 <= k <= LIGHT_MAX && 0 <= m < bk2[k]@.len() implies entry_ok(w, e, #[trigger] bk2[k]@[m]) by {
        assert(bk2[k]@[m] == bk[k]@[m]);
    }
    assert forall|m: int| 0 <= m < q.len() implies entry_ok(w, e, #[trigger] q[m]) by {
        assert(q[m] == bk[lv]@[m]);
    }
}

/// With the whole queue processed, every cell of level `lv` is settled.
pub proof fn lemma_leave(
    light: Seq<u8>,
    base: Seq<u8>,
    tiles: Seq<Tile>,
    w: int,
    h: int,
    e: (u32, u32, u32, u32),
    bk: Seq<Vec<u32>>,
    lv: int,
    q: Seq<u32>,
)
    requires
        step_state(light, base, tiles, w, h, e, bk, lv, q, q.len() as int),
    ensures
        level_state(light, base, tiles, w, h, e, bk, lv - 1),
{
    assert forall|x: int, y: int| in_rect(e, x, y) && lvl(light, w, x, y) > lv - 1 implies #[trigger] settled(light, tiles, w, e, x, y) by {
        if lvl(light, w, x, y) == lv {
            let c = cell_index(w, x, y) as u32;
            assert(q.contains(c));
            let k = choose|k: int| 0 <= k < q.len() && q[k] == c;
            lemma_coords(w, h, x, y);
            assert(q[k] as int % w == x);
        }
    }
}

/// What the flood leaves behind.
pub open spec fn flooded(
    light: Seq<u8>,
    base: Seq<u8>,
    tiles: Seq<Tile>,
    w: int,
    h: int,
    e: (u32, u32, u32, u32),
) -> bool {
    &&& light.len() == base.len()
    &&& bounded(light, base, w, h, e)
    &&& forall|x: int, y: int| in_rect(e, x, y) ==> #[trigger] settled(light, tiles, w, e, x, y)
    &&& all_justified(light, base, tiles, w, e, 0)
}

/// Below level 1 everything is settled.
pub proof fn lemma_finish(
    light: Seq<u8>,
    base: Seq<u8>,
    tiles: Seq<Tile>,
    w: int,
    h: int,
    e: (u32, u32, u32, u32),
    bk: Seq<Vec<u32>>,
)
    requires
        level_state(light, base, tiles, w, h, e, bk, 0),
        base.len() == w * h,
    ensures
        flooded(light, base, tiles, w, h, e),
{
    assert forall|x: int, y: int| in_rect(e, x, y) implies #[trigger] settled(light, tiles, w, e, x, y) by {
        if lvl(light, w, x, y) == 0 {
            assert forall|nx: int, ny: int| #[trigger] neighbours(x, y, nx, ny) && in_rect(e, nx, ny) implies lvl(light, w, nx, ny) >= lvl(light, w, x, y) - spec_atten(tiles[cell_index(w, nx, ny)]) by {
                assert(lvl(light, w, nx, ny) >= 0);
            }
        }
    }
    assert forall|x: int, y: int| in_rect(e, x, y) implies #[trigger] justified(light, base, tiles, w, e, x, y, 0) by {
        assert(justified(light, base, tiles, w, e, x, y, 1));
        lemma_justified_weaken(light, base, tiles, w, e, x, y, 1, 0);
    }
}


// ---- The flood ----------------------------------------------------------------

/// Carries level `lv` from `(x, y)` into its neighbour `(nx, ny)`: raises
/// the neighbour when that makes it brighter, and queues it at its new
/// level.
fn spread(
    light: &mut Vec<u8>,
    tiles: &Vec<Tile>,
    w: u32,
    e: (u32, u32, u32, u32),
    lv: u8,
    x: u32,
    y: u32,
    nx: u32,
    ny: u32,
    buckets: &mut Vec<Vec<u32>>,
    Ghost(base): Ghost<Seq<u8>>,
    Ghost(h): Ghost<int>,
    Ghost(q): Ghost<Seq<u32>>,
    Ghost(j): Ghost<int>,
)
    requires
        step_state(old(light)@, base, tiles@, w as int, h, e, old(buckets)@, lv as int, q, j),
        in_rect(e, x as int, y as int),
        in_rect(e, nx as int, ny as int),
        neighbours(x as int, y as int, nx as int, ny as int),
        lvl(old(light)@, w as int, x as int, y as int) == lv,
    ensures
        step_state(final(light)@, base, tiles@, w as int, h, e, final(buckets)@, lv as int, q, j),
        lvl(final(light)@, w as int, nx as int, ny as int) >= lv - spec_atten(
            tiles@[cell_index(w as int, nx as int, ny as int)],
        ),
        forall|px: int, py: int|
            0 <= px < w && 0 <= py < h ==> #[trigger] lvl(final(light)@, w as int, px, py) >= lvl(
                old(light)@,
                w as int,
                px,
                py,
            ),
        forall|px: int, py: int|
            0 <= px < w && 0 <= py < h && lvl(old(light)@, w as int, px, py) >= lv
                ==> #[trigger] lvl(final(light)@, w as int, px, py) == lvl(old(light)@, w as int, px, py),
{
    proof {
        lemma_coords(w as int, h, nx as int, ny as int);
        lemma_cell_index(w as int, h, x as int, y as int);
    }
    let ni: usize = ny as usize * w as usize + nx as usize;
    let atten: u8 = if tiles[ni].is_solid() {
        LIGHT_ATTEN_SOLID
    } else {
        LIGHT_ATTEN_AIR
    };
    let nl: u8 = if lv > atten {
        lv - atten
    } else {
        0
    };
    if nl > light[ni] {
        let ghost l0 = light@;
        let ghost b0 = buckets@;
        light.set(ni, nl);
        buckets[nl as usize].push(ni as u32);
        proof {
            lemma_raise(
                l0,
                light@,
                base,
                tiles@,
                w as int,
                h,
                e,
                b0,
                buckets@,
                lv as int,
                q,
                j,
                x as int,
                y as int,
                nx as int,
                ny as int,
                nl,
            );
            lemma_write(l0, w as int, h, nx as int, ny as int, nl);
        }
    }
}


/// Spreads a level-`lv` cell, the `j`-th queue entry, into its neighbours
/// inside `e`.
fn spread_cell(
    light: &mut Vec<u8>,
    tiles: &Vec<Tile>,
    w: u32,
    e: (u32, u32, u32, u32),
    lv: u8,
    x: u32,
    y: u32,
    buckets: &mut Vec<Vec<u32>>,
    Ghost(base): Ghost<Seq<u8>>,
    Ghost(h): Ghost<int>,
    Ghost(q): Ghost<Seq<u32>>,
    Ghost(j): Ghost<int>,
)
    requires
        step_state(old(light)@, base, tiles@, w as int, h, e, old(buckets)@, lv as int, q, j),
        j < q.len(),
        q[j] == cell_index(w as int, x as int, y as int),
        in_rect(e, x as int, y as int),
        lvl(old(light)@, w as int, x as int, y as int) == lv,
    ensures
        step_state(final(light)@, base, tiles@, w as int, h, e, final(buckets)@, lv as int, q, j + 1),
{
    let ghost wi = w as int;
    let ghost l0 = light@;
    if x > e.0 {
        spread(light, tiles, w, e, lv, x, y, x - 1, y, buckets, Ghost(base), Ghost(h), Ghost(q), Ghost(j));
    }
    let ghost l1 = light@;
    if x < e.2 {
        spread(light, tiles, w, e, lv, x, y, x + 1, y, buckets, Ghost(base), Ghost(h), Ghost(q), Ghost(j));
    }
    let ghost l2 = light@;
    if y > e.1 {
        spread(light, tiles, w, e, lv, x, y, x, y - 1, buckets, Ghost(base), Ghost(h), Ghost(q), Ghost(j));
    }
    let ghost l3 = light@;
    if y < e.3 {
        spread(light, tiles, w, e, lv, x, y, x, y + 1, buckets, Ghost(base), Ghost(h), Ghost(q), Ghost(j));
    }
    proof {
        let l4 = light@;
        let xi = x as int;
        let yi = y as int;
        assert(lvl(l4, wi, xi, yi) == lv);
        assert forall|nx: int, ny: int| #[trigger] neighbours(xi, yi, nx, ny) && in_rect(e, nx, ny) implies lvl(l4, wi, nx, ny) >= lvl(l4, wi, xi, yi) - spec_atten(tiles@[cell_index(wi, nx, ny)]) by {
            assert(lvl(l4, wi, nx, ny) >= lvl(l3, wi, nx, ny));
            assert(lvl(l3, wi, nx, ny) >= lvl(l2, wi, nx, ny));
            assert(lvl(l2, wi, nx, ny) >= lvl(l1, wi, nx, ny));
        }
        assert(settled(l4, tiles@, wi, e, xi, yi));
        lemma_coords(wi, h, xi, yi);
        assert forall|k: int| 0 <= k < j + 1 && lvl(l4, wi, #[trigger] q[k] as int % wi, q[k] as int / wi) == lv implies settled(l4, tiles@, wi, e, q[k] as int % wi, q[k] as int / wi) by {
            if k < j {
            }
        }
    }
}

/// Settles level `lv`: every cell still holding `lv` carries its light to
/// its neighbours, queueing those it brightens.
fn flood_level(
    light: &mut Vec<u8>,
    tiles: &Vec<Tile>,
    w: u32,
    e: (u32, u32, u32, u32),
    lv: u8,
    buckets: &mut Vec<Vec<u32>>,
    Ghost(base): Ghost<Seq<u8>>,
    Ghost(h): Ghost<int>,
)
    requires
        level_state(old(light)@, base, tiles@, w as int, h, e, old(buckets)@, lv as int),
        1 <= lv <= LIGHT_MAX,
    ensures
        level_state(final(light)@, base, tiles@, w as int, h, e, final(buckets)@, lv - 1),
{
    let ghost wi = w as int;
    let mut q: Vec<u32> = Vec::new();
    let ghost b0 = buckets@;
    std::mem::swap(&mut q, &mut buckets[lv as usize]);
    proof {
        lemma_enter(light@, base, tiles@, wi, h, e, b0, buckets@, lv as int, q@);
    }
    let mut j: usize = 0;
    while j < q.len()
        invariant
            step_state(light@, base, tiles@, wi, h, e, buckets@, lv as int, q@, j as int),
            wi == w,
            1 <= lv <= LIGHT_MAX,
        decreases q.len() - j,
    {
        let iu: u32 = q[j];
        proof {
            assert(entry_ok(wi, e, q@[j as int]));
            lemma_entry(wi, h, e, iu);
        }
        let x: u32 = iu % w;
        let y: u32 = iu / w;
        let i: usize = iu as usize;
        if light[i] == lv {
            spread_cell(light, tiles, w, e, lv, x, y, buckets, Ghost(base), Ghost(h), Ghost(q@), Ghost(j as int));
        } else {
            proof {
                let l = light@;
                assert forall|k: int| 0 <= k < j + 1 && lvl(l, wi, #[trigger] q@[k] as int % wi, q@[k] as int / wi) == lv implies settled(l, tiles@, wi, e, q@[k] as int % wi, q@[k] as int / wi) by {
                    if k < j {
                    }
                }
            }
        }
        j = j + 1;
    }
    proof {
        lemma_leave(light@, base, tiles@, wi, h, e, buckets@, lv as int, q@);
    }
}

/// Floods the seeded field, brightest level first: each cell settles at
/// its final level the first time it is taken from the queue, since light
/// only ever moves into strictly dimmer buckets.
pub fn flood(
    light: &mut Vec<u8>,
    tiles: &Vec<Tile>,
    w: u32,
    e: (u32, u32, u32, u32),
    buckets: &mut Vec<Vec<u32>>,
    Ghost(h): Ghost<int>,
)
    requires
        level_state(old(light)@, old(light)@, tiles@, w as int, h, e, old(buckets)@, LIGHT_MAX as int),
    ensures
        flooded(final(light)@, old(light)@, tiles@, w as int, h, e),
{
    let ghost base = light@;
    let mut lv: u8 = LIGHT_MAX;
    while lv >= 1
        invariant
            level_state(light@, base, tiles@, w as int, h, e, buckets@, lv as int),
            lv <= LIGHT_MAX,
            base.len() == w * h,
        decreases lv,
    {
        flood_level(light, tiles, w, e, lv, buckets, Ghost(base), Ghost(h));
        lv = lv - 1;
    }
    proof {
        lemma_finish(light@, base, tiles@, w as int, h, e, buckets@);
    }
}


// ---- Seeding ------------------------------------------------------------------

/// Cell `(px, py)` of `e` comes before `(x, y)` in row-major order.
pub open spec fn before(e: (u32, u32, u32, u32), x: int, y: int, px: int, py: int) -> bool {
    in_rect(e, px, py) && (py < y || (py == y && px < x))
}

/// Seeds every cell of `e` with what its tile emits (see [`tile_seed`]),
/// sky exposure read from the column tops `top`, and queues the lit ones.
pub fn seed_tiles(
    light: &mut Vec<u8>,
    tiles: &Vec<Tile>,
    top: &Vec<u32>,
    w: u32,
    e: (u32, u32, u32, u32),
    sky: u8,
    buckets: &mut Vec<Vec<u32>>,
    Ghost(h): Ghost<int>,
)
    requires
        grid_ok(old(light)@, tiles@, w as int, h, e),
        top@.len() == w,
        sky <= LIGHT_MAX,
        buckets_ok(w as int, e, old(buckets)@),
    ensures
        grid_ok(final(light)@, tiles@, w as int, h, e),
        forall|x: int, y: int|
            in_rect(e, x, y) ==> #[trigger] lvl(final(light)@, w as int, x, y) == tile_seed(
                tiles@[cell_index(w as int, x, y)],
                sky as int,
                y < top@[x],
            ),
        forall|x: int, y: int|
            0 <= x < w && 0 <= y < h && !in_rect(e, x, y) ==> #[trigger] lvl(
                final(light)@,
                w as int,
                x,
                y,
            ) == lvl(old(light)@, w as int, x, y),
        queued(final(light)@, w as int, e, final(buckets)@, LIGHT_MAX as int),
        buckets_ok(w as int, e, final(buckets)@),
{
    let ghost wi = w as int;
    let ghost l0 = light@;
    proof {
        assert(h <= wi * h) by (nonlinear_arith)
            requires
                wi >= 1,
                h >= 1,
        ;
    }
    let mut y: u32 = e.1;
    while y <= e.3
        invariant
            grid_ok(light@, tiles@, wi, h, e),
            wi == w,
            top@.len() == w,
            sky <= LIGHT_MAX,
            h <= wi * h,
            e.1 <= y,
            y == e.1 || y <= e.3 + 1,
            forall|px: int, py: int|
                before(e, e.0 as int, y as int, px, py) ==> #[trigger] lvl(light@, wi, px, py)
                    == tile_seed(tiles@[cell_index(wi, px, py)], sky as int, py < top@[px]),
            forall|px: int, py: int|
                0 <= px < w && 0 <= py < h && !before(e, e.0 as int, y as int, px, py)
                    ==> #[trigger] lvl(light@, wi, px, py) == lvl(l0, wi, px, py),
            forall|px: int, py: int|
                before(e, e.0 as int, y as int, px, py) && 0 < #[trigger] lvl(light@, wi, px, py)
                    ==> buckets@[lvl(light@, wi, px, py)]@.contains(cell_index(wi, px, py) as u32),
            buckets_ok(wi, e, buckets@),
        decreases e.3 + 1 - y,
    {
        let mut x: u32 = e.0;
        while x <= e.2
            invariant
                grid_ok(light@, tiles@, wi, h, e),
                wi == w,
                top@.len() == w,
                sky <= LIGHT_MAX,
                e.1 <= y <= e.3,
                e.0 <= x,
                x == e.0 || x <= e.2 + 1,
                forall|px: int, py: int|
                    before(e, x as int, y as int, px, py) ==> #[trigger] lvl(light@, wi, px, py)
                        == tile_seed(tiles@[cell_index(wi, px, py)], sky as int, py < top@[px]),
                forall|px: int, py: int|
                    0 <= px < w && 0 <= py < h && !before(e, x as int, y as int, px, py)
                        ==> #[trigger] lvl(light@, wi, px, py) == lvl(l0, wi, px, py),
                forall|px: int, py: int|
                    before(e, x as int, y as int, px, py) && 0 < #[trigger] lvl(light@, wi, px, py)
                        ==> buckets@[lvl(light@, wi, px, py)]@.contains(
                        cell_index(wi, px, py) as u32,
                    ),
                buckets_ok(wi, e, buckets@),
            decreases e.2 + 1 - x,
        {
            proof {
                lemma_coords(wi, h, x as int, y as int);
            }
            let i: usize = y as usize * w as usize + x as usize;
            let t: Tile = tiles[i];
            let mut s: u8 = t.id.light();
            if matches!(t.liquid.kind, Some(LiquidKind::Lava)) && s < LAVA_LIGHT {
                s = LAVA_LIGHT;
            }
            if s < sky && !t.is_solid() && t.liquid.kind.is_none() && y < top[x as usize] {
                s = sky;
            }
            assert(s == tile_seed(tiles@[cell_index(wi, x as int, y as int)], sky as int, y < top@[x as int]));
            let ghost la = light@;
            let ghost ba = buckets@;
            light.set(i, s);
            proof {
                lemma_write(la, wi, h, x as int, y as int, s);
            }
            if s > 0 {
                buckets[s as usize].push(i as u32);
                proof {
                    lemma_push_keeps(ba, buckets@, s as int, i as u32);
                    lemma_push_entries(wi, e, ba, buckets@, s as int, i as u32);
                }
            }
            proof {
                assert forall|px: int, py: int|
                    before(e, x + 1, y as int, px, py) && 0 < #[trigger] lvl(light@, wi, px, py)
                        implies buckets@[lvl(light@, wi, px, py)]@.contains(
                        cell_index(wi, px, py) as u32,
                    ) by {
                    if px == x && py == y {
                    } else {
                        assert(before(e, x as int, y as int, px, py));
                        assert(ba[lvl(la, wi, px, py)]@.contains(cell_index(wi, px, py) as u32));
                    }
                }
            }
            x = x + 1;
        }
        proof {
            assert forall|px: int, py: int| before(e, e.0 as int, y + 1, px, py) <==> before(e, x as int, y as int, px, py) by {
            }
        }
        y = y + 1;
    }
    proof {
        assert forall|px: int, py: int| in_rect(e, px, py) implies before(e, e.0 as int, y as int, px, py) by {
        }
    }
}

/// Raises every cell of `e` to the brightest dynamic source standing on it
/// and queues the raised ones; sources outside `e` are ignored.
pub fn seed_sources(
    light: &mut Vec<u8>,
    w: u32,
    e: (u32, u32, u32, u32),
    sources: &[DynamicSource],
    buckets: &mut Vec<Vec<u32>>,
    Ghost(tiles): Ghost<Seq<Tile>>,
    Ghost(h): Ghost<int>,
)
    requires
        grid_ok(old(light)@, tiles, w as int, h, e),
        forall|k: int|
            0 <= k < sources@.len() && in_rect(e, sources@[k].x as int, sources@[k].y as int)
                ==> #[trigger] sources@[k].level <= LIGHT_MAX,
        queued(old(light)@, w as int, e, old(buckets)@, LIGHT_MAX as int),
        buckets_ok(w as int, e, old(buckets)@),
    ensures
        grid_ok(final(light)@, tiles, w as int, h, e),
        forall|x: int, y: int|
            in_rect(e, x, y) ==> #[trigger] lvl(final(light)@, w as int, x, y) == if lvl(
                old(light)@,
                w as int,
                x,
                y,
            ) >= source_max(sources@, x, y) {
                lvl(old(light)@, w as int, x, y)
            } else {
                source_max(sources@, x, y)
            },
        forall|x: int, y: int|
            0 <= x < w && 0 <= y < h && !in_rect(e, x, y) ==> #[trigger] lvl(
                final(light)@,
                w as int,
                x,
                y,
            ) == lvl(old(light)@, w as int, x, y),
        queued(final(light)@, w as int, e, final(buckets)@, LIGHT_MAX as int),
        buckets_ok(w as int, e, final(buckets)@),
{
    let ghost wi = w as int;
    let ghost l0 = light@;
    let mut k: usize = 0;
    while k < sources.len()
        invariant
            grid_ok(light@, tiles, wi, h, e),
            wi == w,
            k <= sources@.len(),
            forall|m: int|
                0 <= m < sources@.len() && in_rect(e, sources@[m].x as int, sources@[m].y as int)
                    ==> #[trigger] sources@[m].level <= LIGHT_MAX,
            forall|x: int, y: int|
                in_rect(e, x, y) ==> #[trigger] lvl(light@, wi, x, y) == if lvl(l0, wi, x, y)
                    >= source_max(sources@.subrange(0, k as int), x, y) {
                    lvl(l0, wi, x, y)
                } else {
                    source_max(sources@.subrange(0, k as int), x, y)
                },
            forall|x: int, y: int|
                0 <= x < w && 0 <= y < h && !in_rect(e, x, y) ==> #[trigger] lvl(light@, wi, x, y)
                    == lvl(l0, wi, x, y),
            queued(light@, wi, e, buckets@, LIGHT_MAX as int),
            buckets_ok(wi, e, buckets@),
        decreases sources@.len() - k,
    {
        let src = sources[k];
        let ghost pre = sources@.subrange(0, k as int);
        let ghost post = sources@.subrange(0, k + 1);
        proof {
            assert(post.drop_last() =~= pre);
            assert(post.last() == src);
        }
        let ghost la = light@;
        let sx: i64 = src.x as i64;
        let sy: i64 = src.y as i64;
        if sx >= e.0 as i64 && sx <= e.2 as i64 && sy >= e.1 as i64 && sy <= e.3 as i64 {
            let x: u32 = src.x as u32;
            let y: u32 = src.y as u32;
            proof {
                lemma_coords(wi, h, x as int, y as int);
                assert(src.level <= LIGHT_MAX);
            }
            let i: usize = y as usize * w as usize + x as usize;
            if src.level > light[i] {
                let ghost ba = buckets@;
                light.set(i, src.level);
                buckets[src.level as usize].push(i as u32);
                proof {
                    lemma_write(la, wi, h, x as int, y as int, src.level);
                    lemma_push_keeps(ba, buckets@, src.level as int, i as u32);
                    lemma_push_entries(wi, e, ba, buckets@, src.level as int, i as u32);
                    assert forall|px: int, py: int|
                        in_rect(e, px, py) && 0 < #[trigger] lvl(light@, wi, px, py) <= LIGHT_MAX
                            implies buckets@[lvl(light@, wi, px, py)]@.contains(
                            cell_index(wi, px, py) as u32,
                        ) by {
                        if px == x && py == y {
                        } else {
                            assert(ba[lvl(la, wi, px, py)]@.contains(cell_index(wi, px, py) as u32));
                        }
                    }
                }
            }
        }
        proof {
            assert forall|px: int, py: int| in_rect(e, px, py) implies #[trigger] lvl(light@, wi, px, py) == if lvl(l0, wi, px, py)
                >= source_max(post, px, py) {
                lvl(l0, wi, px, py)
            } else {
                source_max(post, px, py)
            } by {
                assert(source_max(post, px, py) == if src.x == px && src.y == py && src.level > source_max(pre, px, py) {
                    src.level as int
                } else {
                    source_max(pre, px, py)
                });
                assert(lvl(la, wi, px, py) == if lvl(l0, wi, px, py) >= source_max(pre, px, py) {
                    lvl(l0, wi, px, py)
                } else {
                    source_max(pre, px, py)
                });
            }
        }
        k = k + 1;
    }
    proof {
        assert(sources@.subrange(0, k as int) =~= sources@);
    }
}

} // verus!
