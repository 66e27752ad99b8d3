//! Flood-fill lighting over the tile world, and the day/night sky-light
//! ramp.
//!
//! Per-tile light runs 0..=32. Sources are tile emissions, lava cells,
//! sky-exposed dry air cells at the current sky light, and dynamic sources
//! (player glow, Mining Helmet). Light spreads 4-directionally, losing 2 per
//! step into a non-solid cell and 6 into a solid one; overlapping fields
//! combine by maximum. Recomputes are gated by 32x32 light chunks that tile
//! edits mark dirty, and cover the visible area plus two chunks and a
//! 16-tile source margin.

pub mod flood;

use vstd::prelude::*;

use crate::tiles::{spec_solid, LIGHT_MAX, SKY_LIGHT_DAY, SKY_LIGHT_NIGHT, SKY_LIGHT_RAMP_TICKS};
use crate::world::{
    cell_index, lemma_cell_index, lemma_cell_index_inj, World, CHUNK_SIZE, DAWN_TICK, DUSK_TICK,
};

use self::flood::{
    flood, flooded, grid_ok, in_rect, justified, level_state, lemma_source_max_bound, lvl,
    neighbours, queued, seed_sources, seed_tiles, settled, source_max, spec_atten, tile_seed,
};

verus! {

/// Light chunks are 32x32 tiles.
pub const LIGHT_CHUNK: u32 = 32;

/// Recomputes cover the visible area plus this many light chunks on every
/// side.
pub const REGION_PAD_CHUNKS: u32 = 2;

/// Sources this far outside the recomputed area still shine into it: the
/// brightest source (32) fades by 2 per air tile.
pub const SOURCE_MARGIN: u32 = 16;

/// While a dawn/dusk ramp moves, sky-exposed areas re-light at least this
/// often, in ticks.
pub const SKY_REFRESH_TICKS: u64 = 10;

// ---- Day/night sky light ----------------------------------------------------

pub open spec fn clamp(v: int, lo: int, hi: int) -> int {
    if v < lo {
        lo
    } else if v > hi {
        hi
    } else {
        v
    }
}

/// How far the day has brightened, in ticks of the ramp: 0 at full night,
/// `SKY_LIGHT_RAMP_TICKS` at full day, linear across the ramps centred on
/// dawn and dusk.
pub open spec fn spec_daylight_ticks(time: int) -> int {
    let ramp = SKY_LIGHT_RAMP_TICKS as int;
    let half = ramp / 2;
    let rise = clamp(time - (DAWN_TICK - half), 0, ramp);
    let fall = clamp(time - (DUSK_TICK - half), 0, ramp);
    clamp(rise - fall, 0, ramp)
}

/// Sky light: night level plus the day share of the night-to-day span,
/// rounded to the nearest level.
pub open spec fn spec_sky_light(time: int) -> int {
    let ramp = SKY_LIGHT_RAMP_TICKS as int;
    let span = SKY_LIGHT_DAY - SKY_LIGHT_NIGHT;
    SKY_LIGHT_NIGHT + (2 * span * spec_daylight_ticks(time) + ramp) / (2 * ramp)
}

/// Inside a dawn or dusk ramp window (bounds included).
pub open spec fn spec_in_ramp(time: int) -> bool {
    let half = SKY_LIGHT_RAMP_TICKS / 2;
    ||| DAWN_TICK - half <= time <= DAWN_TICK + half
    ||| DUSK_TICK - half <= time <= DUSK_TICK + half
}

/// How far the day has brightened at a tick of day, in ramp ticks
/// (daylight fraction = result / `SKY_LIGHT_RAMP_TICKS`).
pub fn daylight_ticks(time: u32) -> (d: u32)
    ensures
        d == spec_daylight_ticks(time as int),
        d <= SKY_LIGHT_RAMP_TICKS,
{
    let ramp = SKY_LIGHT_RAMP_TICKS;
    let half = ramp / 2;
    let a = DAWN_TICK - half;
    let b = DUSK_TICK - half;
    let rise: u32 = if time < a {
        0
    } else if time - a > ramp {
        ramp
    } else {
        time - a
    };
    let fall: u32 = if time < b {
        0
    } else if time - b > ramp {
        ramp
    } else {
        time - b
    };
    if rise < fall {
        0
    } else {
        rise - fall
    }
}

/// Sky-light level for a tick of day: 32 at full day, 8 at full night,
/// linear across the dawn/dusk ramps.
pub fn sky_light(time: u32) -> (s: u8)
    ensures
        s == spec_sky_light(time as int),
        SKY_LIGHT_NIGHT <= s <= SKY_LIGHT_DAY,
{
    let d = daylight_ticks(time);
    let span: u32 = (SKY_LIGHT_DAY - SKY_LIGHT_NIGHT) as u32;
    let ramp = SKY_LIGHT_RAMP_TICKS;
    let step: u32 = (2 * span * d + ramp) / (2 * ramp);
    assert(step <= 24) by (nonlinear_arith)
        requires
            step == (48 * d + 1800) / 3600,
            d <= 1800,
    ;
    SKY_LIGHT_NIGHT + step as u8
}

/// Whether the sky light is ramping (inside a dawn/dusk window).
pub fn in_ramp(time: u32) -> (r: bool)
    ensures
        r == spec_in_ramp(time as int),
{
    let half = SKY_LIGHT_RAMP_TICKS / 2;
    (time >= DAWN_TICK - half && time <= DAWN_TICK + half) || (time >= DUSK_TICK - half && time
        <= DUSK_TICK + half)
}

// ---- Engine -----------------------------------------------------------------

/// A non-tile light source for the current frame (player glow 4, Mining
/// Helmet 20 at the wearer's head), in tile coordinates.
#[derive(Debug, Clone, Copy, PartialEq, Eq, Structural)]
pub struct DynamicSource {
    pub x: i32,
    pub y: i32,
    pub level: u8,
}

/// Light state of the visible world.
pub struct LightEngine {
    pub width: u32,
    pub height: u32,
    /// Per-tile light 0..=32, row-major like `World::tiles`. Only cells of
    /// the last recomputed region are current.
    pub light: Vec<u8>,
    /// Per column, the row of its topmost solid tile (`height` when the
    /// column is open): `y < top_solid[x]` is sky-exposed.
    pub top_solid: Vec<u32>,
    /// Light-chunk grid (row-major, `chunk_grid` wide): chunks awaiting a
    /// recompute that covers them.
    pub dirty: Vec<bool>,
    /// What the last recompute ran with, to tell when another is due.
    pub last_sources: Vec<DynamicSource>,
    pub last_sky: u8,
    pub last_region: (u32, u32, u32, u32),
    pub last_sky_refresh: u64,
    pub computed_once: bool,
}

/// Number of light chunks covering `n` tiles.
pub open spec fn spec_chunks(n: int) -> int {
    (n + LIGHT_CHUNK - 1) / (LIGHT_CHUNK as int)
}

/// `v - 1`, stopping at 0.
pub open spec fn dec_sat(v: int) -> int {
    if v >= 1 {
        v - 1
    } else {
        0
    }
}

/// Chunk `(a, b)` lies in the 3x3 block around chunk `(cx, cy)`, clipped to
/// a `cw` x `ch` grid.
pub open spec fn in_block(cx: int, cy: int, cw: int, ch: int, a: int, b: int) -> bool {
    &&& dec_sat(cx) <= a <= cx + 1
    &&& a <= cw - 1
    &&& dec_sat(cy) <= b <= cy + 1
    &&& b <= ch - 1
}

impl LightEngine {
    pub open spec fn cw(&self) -> int {
        spec_chunks(self.width as int)
    }

    pub open spec fn ch(&self) -> int {
        spec_chunks(self.height as int)
    }

    /// Well-formed: non-empty dimensions that fit `i32`, a light cell per
    /// tile, a column top per column and a flag per light chunk.
    pub open spec fn wf(&self) -> bool {
        &&& 1 <= self.width <= i32::MAX
        &&& 1 <= self.height <= i32::MAX
        &&& self.width * self.height <= u32::MAX
        &&& self.light@.len() == self.width * self.height
        &&& self.top_solid@.len() == self.width
        &&& self.dirty@.len() == self.cw() * self.ch()
    }

    /// Light at an in-world tile.
    pub open spec fn at(&self, x: int, y: int) -> int {
        self.light@[cell_index(self.width as int, x, y)] as int
    }

    /// Light chunk `(a, b)` is marked dirty (never outside the grid).
    pub open spec fn is_dirty(&self, a: int, b: int) -> bool {
        &&& 0 <= a < self.cw()
        &&& 0 <= b < self.ch()
        &&& self.dirty@[cell_index(self.cw(), a, b)]
    }

    /// Everything but the dirty flags is the same.
    pub open spec fn same_but_dirty(&self, other: &LightEngine) -> bool {
        &&& self.width == other.width
        &&& self.height == other.height
        &&& self.light@ == other.light@
        &&& self.top_solid@ == other.top_solid@
        &&& self.last_sources@ == other.last_sources@
        &&& self.last_sky == other.last_sky
        &&& self.last_region == other.last_region
        &&& self.last_sky_refresh == other.last_sky_refresh
        &&& self.computed_once == other.computed_once
    }
}

proof fn lemma_chunks(n: int)
    requires
        n >= 1,
    ensures
        1 <= spec_chunks(n) <= n,
        n <= spec_chunks(n) * 32,
        (spec_chunks(n) - 1) * 32 < n,
{
}

proof fn lemma_grid_fits(w: int, h: int)
    requires
        w >= 1,
        h >= 1,
        w * h <= u32::MAX,
    ensures
        spec_chunks(w) * spec_chunks(h) <= w * h,
{
    lemma_chunks(w);
    lemma_chunks(h);
    assert(spec_chunks(w) * spec_chunks(h) <= w * h) by (nonlinear_arith)
        requires
            1 <= spec_chunks(w) <= w,
            1 <= spec_chunks(h) <= h,
    ;
}

impl LightEngine {
    /// A dark engine for a `width` x `height` world, every column open to
    /// the sky and nothing dirty. (An empty world gives an empty engine,
    /// which has no tile to read.)
    pub fn new(width: u32, height: u32) -> (e: LightEngine)
        requires
            width <= i32::MAX,
            height <= i32::MAX,
            width * height <= u32::MAX,
        ensures
            width >= 1 && height >= 1 ==> e.wf(),
            e.width == width,
            e.height == height,
            e.light@.len() == width * height,
            e.top_solid@.len() == width,
            e.dirty@.len() == e.cw() * e.ch(),
            forall|i: int| 0 <= i < e.light@.len() ==> e.light@[i] == 0,
            forall|x: int| 0 <= x < width ==> e.top_solid@[x] == height,
            forall|a: int, b: int| !e.is_dirty(a, b),
            e.last_sources@.len() == 0,
            e.last_sky == 0,
            e.last_region == (u32::MAX, u32::MAX, u32::MAX, u32::MAX),
            e.last_sky_refresh == 0,
            !e.computed_once,
    {
        let n: usize = width as usize * height as usize;
        let mut light: Vec<u8> = Vec::new();
        while light.len() < n
            invariant
                light@.len() <= n,
                forall|i: int| 0 <= i < light@.len() ==> light@[i] == 0,
            decreases n - light@.len(),
        {
            light.push(0);
        }
        let mut top_solid: Vec<u32> = Vec::new();
        while top_solid.len() < width as usize
            invariant
                top_solid@.len() <= width,
                forall|x: int| 0 <= x < top_solid@.len() ==> top_solid@[x] == height,
            decreases width - top_solid@.len(),
        {
            top_solid.push(height);
        }
        let cw: u32 = width / LIGHT_CHUNK + if width % LIGHT_CHUNK != 0 { 1 } else { 0 };
        let ch: u32 = height / LIGHT_CHUNK + if height % LIGHT_CHUNK != 0 { 1 } else { 0 };
        proof {
            assert(cw == spec_chunks(width as int));
            assert(ch == spec_chunks(height as int));
            if width >= 1 && height >= 1 {
                lemma_grid_fits(width as int, height as int);
            } else if width == 0 {
                assert(cw * ch == 0) by (nonlinear_arith)
                    requires
                        cw == 0,
                ;
            } else {
                assert(cw * ch == 0) by (nonlinear_arith)
                    requires
                        ch == 0,
                ;
            }
            assert(cw * ch <= u32::MAX);
        }
        let m: usize = cw as usize * ch as usize;
        let mut dirty: Vec<bool> = Vec::new();
        while dirty.len() < m
            invariant
                dirty@.len() <= m,
                forall|i: int| 0 <= i < dirty@.len() ==> !dirty@[i],
            decreases m - dirty@.len(),
        {
            dirty.push(false);
        }
        let e = LightEngine {
            width,
            height,
            light,
            top_solid,
            dirty,
            last_sources: Vec::new(),
            last_sky: 0,
            last_region: (u32::MAX, u32::MAX, u32::MAX, u32::MAX),
            last_sky_refresh: 0,
            computed_once: false,
        };
        proof {
            assert forall|a: int, b: int| !e.is_dirty(a, b) by {
                if 0 <= a < e.cw() && 0 <= b < e.ch() {
                    lemma_cell_index(e.cw(), e.ch(), a, b);
                }
            }
        }
        e
    }

    /// Row-major index of an in-world tile.
    fn idx(&self, x: u32, y: u32) -> (i: usize)
        requires
            self.wf(),
            x < self.width,
            y < self.height,
        ensures
            i == cell_index(self.width as int, x as int, y as int),
            i < self.light@.len(),
    {
        proof {
            lemma_cell_index(self.width as int, self.height as int, x as int, y as int);
        }
        y as usize * self.width as usize + x as usize
    }

    /// Light level at a tile, the coordinates clamped into the world.
    pub fn light_at_tile(&self, x: i32, y: i32) -> (l: u8)
        requires
            self.wf(),
        ensures
            l == self.at(
                clamp(x as int, 0, self.width - 1),
                clamp(y as int, 0, self.height - 1),
            ),
    {
        let xm: i32 = (self.width - 1) as i32;
        let ym: i32 = (self.height - 1) as i32;
        let cx: u32 = if x < 0 {
            0
        } else if x > xm {
            xm as u32
        } else {
            x as u32
        };
        let cy: u32 = if y < 0 {
            0
        } else if y > ym {
            ym as u32
        } else {
            y as u32
        };
        let i = self.idx(cx, cy);
        self.light[i]
    }

    /// Sky-exposed: no solid tile anywhere above.
    pub fn sky_exposed(&self, x: u32, y: u32) -> (r: bool)
        requires
            self.wf(),
        ensures
            r == (x < self.width && y < self.top_solid@[x as int]),
    {
        x < self.width && y < self.top_solid[x as usize]
    }

    /// Light chunks across and down the world.
    pub fn chunk_grid(&self) -> (g: (u32, u32))
        requires
            self.wf(),
        ensures
            g.0 == self.cw(),
            g.1 == self.ch(),
            1 <= g.0 <= self.width,
            1 <= g.1 <= self.height,
    {
        proof {
            lemma_chunks(self.width as int);
            lemma_chunks(self.height as int);
        }
        (
            self.width / LIGHT_CHUNK + if self.width % LIGHT_CHUNK != 0 { 1 } else { 0 },
            self.height / LIGHT_CHUNK + if self.height % LIGHT_CHUNK != 0 { 1 } else { 0 },
        )
    }

    /// Marks light chunk `(a, b)` dirty.
    fn set_dirty(&mut self, a: u32, b: u32)
        requires
            old(self).wf(),
            a < old(self).cw(),
            b < old(self).ch(),
        ensures
            final(self).wf(),
            final(self).same_but_dirty(old(self)),
            forall|p: int, q: int|
                #[trigger] final(self).is_dirty(p, q) == (old(self).is_dirty(p, q) || (p == a
                    && q == b)),
    {
        let (cw, ch) = self.chunk_grid();
        proof {
            lemma_grid_fits(self.width as int, self.height as int);
            lemma_cell_index(cw as int, ch as int, a as int, b as int);
        }
        let i: usize = b as usize * cw as usize + a as usize;
        self.dirty.set(i, true);
        proof {
            assert forall|p: int, q: int|
                #[trigger] self.is_dirty(p, q) == (old(self).is_dirty(p, q) || (p == a && q
                    == b)) by {
                if 0 <= p < cw && 0 <= q < ch {
                    lemma_cell_index(cw as int, ch as int, p, q);
                    if cell_index(cw as int, p, q) == i {
                        lemma_cell_index_inj(cw as int, p, q, a as int, b as int);
                    }
                }
            }
        }
    }

    /// Marks light chunk `(cx, cy)` and its 8 neighbours dirty (clipped to
    /// the grid).
    fn mark_chunk_3x3(&mut self, cx: u32, cy: u32)
        requires
            old(self).wf(),
            cx < u32::MAX,
            cy < u32::MAX,
        ensures
            final(self).wf(),
            final(self).same_but_dirty(old(self)),
            forall|p: int, q: int|
                #[trigger] final(self).is_dirty(p, q) == (old(self).is_dirty(p, q) || in_block(
                    cx as int,
                    cy as int,
                    old(self).cw(),
                    old(self).ch(),
                    p,
                    q,
                )),
    {
        let (cw, ch) = self.chunk_grid();
        let ghost cwi = cw as int;
        let ghost chi = ch as int;
        let y0: u32 = if cy >= 1 { cy - 1 } else { 0 };
        let y1: u32 = if cy + 1 < ch - 1 { cy + 1 } else { ch - 1 };
        let x0: u32 = if cx >= 1 { cx - 1 } else { 0 };
        let x1: u32 = if cx + 1 < cw - 1 { cx + 1 } else { cw - 1 };
        let mut ny: u32 = y0;
        while ny <= y1
            invariant
                self.wf(),
                self.same_but_dirty(old(self)),
                cw == self.cw(),
                ch == self.ch(),
                cwi == cw,
                chi == ch,
                y0 == dec_sat(cy as int),
                x0 == dec_sat(cx as int),
                y1 == if cy + 1 < ch - 1 { cy + 1 } else { ch - 1 },
                x1 == if cx + 1 < cw - 1 { cx + 1 } else { cw - 1 },
                y1 < ch,
                x1 < cw,
                y0 <= ny,
                ny == y0 || ny <= y1 + 1,
                forall|p: int, q: int|
                    #[trigger] self.is_dirty(p, q) == (old(self).is_dirty(p, q) || (in_block(
                        cx as int,
                        cy as int,
                        cwi,
                        chi,
                        p,
                        q,
                    ) && q < ny)),
            decreases y1 + 1 - ny,
        {
            let mut nx: u32 = x0;
            while nx <= x1
                invariant
                    self.wf(),
                    self.same_but_dirty(old(self)),
                    cw == self.cw(),
                    ch == self.ch(),
                    cwi == cw,
                    chi == ch,
                    y0 == dec_sat(cy as int),
                    x0 == dec_sat(cx as int),
                    y1 == if cy + 1 < ch - 1 { cy + 1 } else { ch - 1 },
                    x1 == if cx + 1 < cw - 1 { cx + 1 } else { cw - 1 },
                    y1 < ch,
                    x1 < cw,
                    y0 <= ny <= y1,
                    x0 <= nx,
                    nx == x0 || nx <= x1 + 1,
                    forall|p: int, q: int|
                        #[trigger] self.is_dirty(p, q) == (old(self).is_dirty(p, q) || (in_block(
                            cx as int,
                            cy as int,
                            cwi,
                            chi,
                            p,
                            q,
                        ) && (q < ny || (q == ny && p < nx)))),
                decreases x1 + 1 - nx,
            {
                self.set_dirty(nx, ny);
                nx = nx + 1;
            }
            ny = ny + 1;
        }
    }

    /// Dirties the 3x3 light-chunk neighbourhood around tile `(x, y)`.
    pub fn mark_dirty_around(&mut self, x: u32, y: u32)
        requires
            old(self).wf(),
        ensures
            final(self).wf(),
            final(self).same_but_dirty(old(self)),
            forall|p: int, q: int|
                #[trigger] final(self).is_dirty(p, q) == (old(self).is_dirty(p, q) || in_block(
                    (x / 32) as int,
                    (y / 32) as int,
                    old(self).cw(),
                    old(self).ch(),
                    p,
                    q,
                )),
    {
        self.mark_chunk_3x3(x / LIGHT_CHUNK, y / LIGHT_CHUNK);
    }
}


/// What cell `(x, y)` is seeded with: the larger of what its tile emits and
/// the brightest dynamic source standing on it.
pub open spec fn seed_at(
    world: &World,
    top: Seq<u32>,
    sky: int,
    sources: Seq<DynamicSource>,
    x: int,
    y: int,
) -> int {
    let t = tile_seed(world.cell(x, y), sky, y < top[x]);
    let s = source_max(sources, x, y);
    if t >= s {
        t
    } else {
        s
    }
}

/// The light field a recompute over region `e` leaves: outside `e` the
/// light from `before`; inside `e` every cell at least its seed and at most
/// `LIGHT_MAX`, no 4-neighbour in `e` dimmer than the cell's light minus
/// the step into that neighbour, and every level either the cell's seed or
/// carried in from a brighter neighbour in `e`.
pub open spec fn lit_field(
    after: Seq<u8>,
    before: Seq<u8>,
    world: &World,
    top: Seq<u32>,
    sky: int,
    sources: Seq<DynamicSource>,
    e: (u32, u32, u32, u32),
) -> bool {
    let w = world.width as int;
    let h = world.height as int;
    &&& after.len() == before.len()
    &&& forall|x: int, y: int|
        0 <= x < w && 0 <= y < h && !in_rect(e, x, y) ==> #[trigger] lvl(after, w, x, y) == lvl(
            before,
            w,
            x,
            y,
        )
    &&& forall|x: int, y: int|
        in_rect(e, x, y) ==> seed_at(world, top, sky, sources, x, y) <= #[trigger] lvl(
            after,
            w,
            x,
            y,
        ) <= LIGHT_MAX
    &&& forall|x: int, y: int| in_rect(e, x, y) ==> #[trigger] settled(after, world.tiles@, w, e, x, y)
    &&& forall|x: int, y: int|
        in_rect(e, x, y) ==> #[trigger] lvl(after, w, x, y) == seed_at(world, top, sky, sources, x, y)
            || exists|nx: int, ny: int|
            #[trigger] neighbours(x, y, nx, ny) && in_rect(e, nx, ny) && lvl(after, w, nx, ny) == lvl(
                after,
                w,
                x,
                y,
            ) + spec_atten(world.cell(x, y))
}

/// `rect` grown by `SOURCE_MARGIN` on every side, clamped to a
/// `width` x `height` world.
pub open spec fn spec_expanded(width: int, height: int, rect: (u32, u32, u32, u32)) -> (u32, u32, u32, u32) {
    (
        (if rect.0 >= SOURCE_MARGIN { rect.0 - SOURCE_MARGIN } else { 0 }) as u32,
        (if rect.1 >= SOURCE_MARGIN { rect.1 - SOURCE_MARGIN } else { 0 }) as u32,
        (if rect.2 + SOURCE_MARGIN <= width - 1 { rect.2 + SOURCE_MARGIN } else { width - 1 }) as u32,
        (if rect.3 + SOURCE_MARGIN <= height - 1 { rect.3 + SOURCE_MARGIN } else { height - 1 }) as u32,
    )
}

impl LightEngine {
    /// Everything but the light field is the same.
    pub open spec fn same_but_light(&self, other: &LightEngine) -> bool {
        &&& self.width == other.width
        &&& self.height == other.height
        &&& self.top_solid@ == other.top_solid@
        &&& self.dirty@ == other.dirty@
        &&& self.last_sources@ == other.last_sources@
        &&& self.last_sky == other.last_sky
        &&& self.last_region == other.last_region
        &&& self.last_sky_refresh == other.last_sky_refresh
        &&& self.computed_once == other.computed_once
    }

    /// `rect` (inclusive tile bounds) grown by `SOURCE_MARGIN` on every
    /// side, clamped to the world: exactly the area `recompute` floods, and
    /// so the only area whose sources can reach `rect`.
    pub fn expanded(&self, rect: (u32, u32, u32, u32)) -> (r: (u32, u32, u32, u32))
        requires
            self.wf(),
            rect.2 + SOURCE_MARGIN <= u32::MAX,
            rect.3 + SOURCE_MARGIN <= u32::MAX,
        ensures
            r == spec_expanded(self.width as int, self.height as int, rect),
            r.2 < self.width,
            r.3 < self.height,
    {
        let x0: u32 = if rect.0 >= SOURCE_MARGIN { rect.0 - SOURCE_MARGIN } else { 0 };
        let y0: u32 = if rect.1 >= SOURCE_MARGIN { rect.1 - SOURCE_MARGIN } else { 0 };
        let x1: u32 = if rect.2 + SOURCE_MARGIN <= self.width - 1 {
            rect.2 + SOURCE_MARGIN
        } else {
            self.width - 1
        };
        let y1: u32 = if rect.3 + SOURCE_MARGIN <= self.height - 1 {
            rect.3 + SOURCE_MARGIN
        } else {
            self.height - 1
        };
        (x0, y0, x1, y1)
    }

    /// One full flood over `rect` grown by `SOURCE_MARGIN`: seeds tile
    /// emissions, lava, sky-exposed air and the dynamic sources inside it,
    /// then spreads light brightest level first.
    pub fn recompute(
        &mut self,
        world: &World,
        rect: (u32, u32, u32, u32),
        sky: u8,
        sources: &[DynamicSource],
    )
        requires
            old(self).wf(),
            world.wf(),
            world.width == old(self).width,
            world.height == old(self).height,
            rect.2 + SOURCE_MARGIN <= u32::MAX,
            rect.3 + SOURCE_MARGIN <= u32::MAX,
            sky <= LIGHT_MAX,
            forall|k: int|
                0 <= k < sources@.len() && in_rect(
                    spec_expanded(old(self).width as int, old(self).height as int, rect),
                    sources@[k].x as int,
                    sources@[k].y as int,
                ) ==> #[trigger] sources@[k].level <= LIGHT_MAX,
        ensures
            final(self).wf(),
            final(self).same_but_light(old(self)),
            lit_field(
                final(self).light@,
                old(self).light@,
                world,
                old(self).top_solid@,
                sky as int,
                sources@,
                spec_expanded(old(self).width as int, old(self).height as int, rect),
            ),
    {
        let e = self.expanded(rect);
        let w = self.width;
        let ghost h = self.height as int;
        let ghost wi = w as int;
        let ghost l0 = self.light@;
        let mut buckets: Vec<Vec<u32>> = Vec::new();
        while buckets.len() <= LIGHT_MAX as usize
            invariant
                buckets@.len() <= LIGHT_MAX + 1,
                forall|k: int| 0 <= k < buckets@.len() ==> (#[trigger] buckets@[k])@.len() == 0,
            decreases LIGHT_MAX + 1 - buckets@.len(),
        {
            buckets.push(Vec::new());
        }
        seed_tiles(&mut self.light, &world.tiles, &self.top_solid, w, e, sky, &mut buckets, Ghost(h));
        let ghost l1 = self.light@;
        seed_sources(&mut self.light, w, e, sources, &mut buckets, Ghost(world.tiles@), Ghost(h));
        let ghost base = self.light@;
        proof {
            assert forall|x: int, y: int| in_rect(e, x, y) implies lvl(base, wi, x, y) == seed_at(world, self.top_solid@, sky as int, sources@, x, y) && #[trigger] lvl(base, wi, x, y) <= LIGHT_MAX by {
                assert(lvl(l1, wi, x, y) == tile_seed(world.tiles@[cell_index(wi, x, y)], sky as int, y < self.top_solid@[x]));
                assert forall|k: int| 0 <= k < sources@.len() && sources@[k].x == x && sources@[k].y == y implies #[trigger] sources@[k].level <= LIGHT_MAX by {
                    assert(in_rect(e, sources@[k].x as int, sources@[k].y as int));
                }
                lemma_source_max_bound(sources@, x, y);
            }
            assert forall|x: int, y: int| in_rect(e, x, y) implies #[trigger] justified(base, base, world.tiles@, wi, e, x, y, LIGHT_MAX + 1) by {
            }
            assert forall|x: int, y: int| in_rect(e, x, y) && lvl(base, wi, x, y) > LIGHT_MAX implies #[trigger] settled(base, world.tiles@, wi, e, x, y) by {
            }
            assert(level_state(base, base, world.tiles@, wi, h, e, buckets@, LIGHT_MAX as int));
        }
        flood(&mut self.light, &world.tiles, w, e, &mut buckets, Ghost(h));
        proof {
            let l = self.light@;
            assert(flooded(l, base, world.tiles@, wi, h, e));
            assert forall|x: int, y: int| in_rect(e, x, y) implies #[trigger] lvl(l, wi, x, y) == seed_at(world, self.top_solid@, sky as int, sources@, x, y)
                || exists|nx: int, ny: int|
                #[trigger] neighbours(x, y, nx, ny) && in_rect(e, nx, ny) && lvl(l, wi, nx, ny) == lvl(l, wi, x, y) + spec_atten(world.cell(x, y)) by {
                assert(justified(l, base, world.tiles@, wi, e, x, y, 0));
                assert(lvl(base, wi, x, y) == seed_at(world, self.top_solid@, sky as int, sources@, x, y));
            }
            assert forall|x: int, y: int| in_rect(e, x, y) implies seed_at(world, self.top_solid@, sky as int, sources@, x, y) <= #[trigger] lvl(l, wi, x, y) <= LIGHT_MAX by {
                assert(lvl(base, wi, x, y) == seed_at(world, self.top_solid@, sky as int, sources@, x, y));
            }
        }
    }
}


proof fn lemma_lit_le(
    a: Seq<u8>,
    b: Seq<u8>,
    before: Seq<u8>,
    world: &World,
    top: Seq<u32>,
    sky: int,
    sources: Seq<DynamicSource>,
    e: (u32, u32, u32, u32),
    x: int,
    y: int,
)
    requires
        lit_field(a, before, world, top, sky, sources, e),
        lit_field(b, before, world, top, sky, sources, e),
        in_rect(e, x, y),
    ensures
        lvl(a, world.width as int, x, y) <= lvl(b, world.width as int, x, y),
    decreases 256 - lvl(a, world.width as int, x, y),
{
    let w = world.width as int;
    assert(lvl(a, w, x, y) <= LIGHT_MAX);
    if lvl(a, w, x, y) != seed_at(world, top, sky, sources, x, y) {
        let (nx, ny) = choose|nx: int, ny: int|
            #[trigger] neighbours(x, y, nx, ny) && in_rect(e, nx, ny) && lvl(a, w, nx, ny) == lvl(a, w, x, y)
                + spec_atten(world.cell(x, y));
        assert(lvl(a, w, nx, ny) <= LIGHT_MAX);
        lemma_lit_le(a, b, before, world, top, sky, sources, e, nx, ny);
        assert(settled(b, world.tiles@, w, e, nx, ny));
        assert(neighbours(nx, ny, x, y));
    }
}

/// A recompute's result is determined by its inputs: any two light fields
/// that both meet `lit_field` for the same world, column tops, sky light,
/// sources and region are the same field.
pub proof fn lemma_lit_unique(
    a: Seq<u8>,
    b: Seq<u8>,
    before: Seq<u8>,
    world: &World,
    top: Seq<u32>,
    sky: int,
    sources: Seq<DynamicSource>,
    e: (u32, u32, u32, u32),
)
    requires
        world.wf(),
        before.len() == world.width * world.height,
        e.2 < world.width,
        e.3 < world.height,
        lit_field(a, before, world, top, sky, sources, e),
        lit_field(b, before, world, top, sky, sources, e),
    ensures
        a == b,
{
    let w = world.width as int;
    let h = world.height as int;
    assert forall|i: int| 0 <= i < a.len() implies a[i] == b[i] by {
        vstd::arithmetic::div_mod::lemma_fundamental_div_mod(i, w);
        let x = i % w;
        let y = i / w;
        assert(i == y * w + x) by (nonlinear_arith)
            requires
                i == w * (i / w) + i % w,
                x == i % w,
                y == i / w,
        ;
        assert(y < h) by (nonlinear_arith)
            requires
                i == y * w + x,
                0 <= x,
                i < w * h,
                w >= 1,
        ;
        assert(lvl(a, w, x, y) == a[i]);
        assert(lvl(b, w, x, y) == b[i]);
        if in_rect(e, x, y) {
            lemma_lit_le(a, b, before, world, top, sky, sources, e, x, y);
            lemma_lit_le(b, a, before, world, top, sky, sources, e, x, y);
        }
    }
    assert(a =~= b);
}


// ---- Column exposure and dirty tracking ---------------------------------------

/// `r` is the row of the topmost solid tile of column `x` (the height when
/// the column has none).
pub open spec fn is_top_solid(world: &World, x: int, r: int) -> bool {
    &&& 0 <= r <= world.height
    &&& forall|y: int| 0 <= y < r ==> !spec_solid(#[trigger] world.cell(x, y))
    &&& r < world.height ==> spec_solid(world.cell(x, r))
}

/// Chunk `(p, q)` lies in the 3-wide band of light chunks around chunk
/// column `cx`, from one above chunk row `lo` to one below chunk row `hi`,
/// clipped to a `cw` x `ch` grid.
pub open spec fn in_band(cx: int, lo: int, hi: int, cw: int, ch: int, p: int, q: int) -> bool {
    &&& dec_sat(cx) <= p <= cx + 1
    &&& p <= cw - 1
    &&& dec_sat(lo) <= q <= hi + 1
    &&& q <= ch - 1
}

/// Chunks dirtied when column `x`'s top solid row moves from `a` to `b` in
/// a world `h` tall: the 3x3 neighbourhoods of every light chunk along the
/// span whose exposure changed.
pub open spec fn exposure_dirty(x: int, a: int, b: int, h: int, cw: int, ch: int, p: int, q: int) -> bool {
    let lo = (if a <= b { a } else { b }) / 32;
    let hi = (if (if a <= b { b } else { a }) <= h - 1 { if a <= b { b } else { a } } else { h - 1 }) / 32;
    a != b && lo <= hi && in_band(x / 32, lo, hi, cw, ch, p, q)
}

impl LightEngine {
    /// Only the dirty flags and column tops may differ.
    pub open spec fn same_but_columns(&self, other: &LightEngine) -> bool {
        &&& self.width == other.width
        &&& self.height == other.height
        &&& self.light@ == other.light@
        &&& self.last_sources@ == other.last_sources@
        &&& self.last_sky == other.last_sky
        &&& self.last_region == other.last_region
        &&& self.last_sky_refresh == other.last_sky_refresh
        &&& self.computed_once == other.computed_once
    }

    /// First solid row of column `x` (the height when there is none).
    pub fn scan_column(&self, world: &World, x: u32) -> (r: u32)
        requires
            self.wf(),
            world.wf(),
            world.width == self.width,
            world.height == self.height,
            x < self.width,
        ensures
            is_top_solid(world, x as int, r as int),
    {
        let mut y: u32 = 0;
        while y < self.height
            invariant
                world.wf(),
                x < world.width,
                y <= world.height,
                world.height == self.height,
                forall|py: int| 0 <= py < y ==> !spec_solid(#[trigger] world.cell(x as int, py)),
            decreases self.height - y,
        {
            if world.tile(x, y).is_solid() {
                return y;
            }
            y = y + 1;
        }
        self.height
    }

    /// Re-derives column `x`'s sky exposure, dirtying every light chunk
    /// along the span whose exposure changed (uncovering a shaft must
    /// relight far below the edited tile).
    fn refresh_column(&mut self, world: &World, x: u32)
        requires
            old(self).wf(),
            world.wf(),
            world.width == old(self).width,
            world.height == old(self).height,
            x < old(self).width,
        ensures
            final(self).wf(),
            final(self).same_but_columns(old(self)),
            final(self).top_solid@ == old(self).top_solid@.update(x as int, final(self).top_solid@[x as int]),
            is_top_solid(world, x as int, final(self).top_solid@[x as int] as int),
            forall|p: int, q: int|
                #[trigger] final(self).is_dirty(p, q) == (old(self).is_dirty(p, q) || exposure_dirty(
                    x as int,
                    old(self).top_solid@[x as int] as int,
                    final(self).top_solid@[x as int] as int,
                    old(self).height as int,
                    old(self).cw(),
                    old(self).ch(),
                    p,
                    q,
                )),
    {
        let old_top: u32 = self.top_solid[x as usize];
        let new_top: u32 = self.scan_column(world, x);
        if old_top == new_top {
            proof {
                assert(self.top_solid@ == old(self).top_solid@.update(x as int, new_top));
            }
            return;
        }
        self.top_solid.set(x as usize, new_top);
        let lo: u32 = (if old_top < new_top { old_top } else { new_top }) / LIGHT_CHUNK;
        let big: u32 = if old_top < new_top { new_top } else { old_top };
        let hi: u32 = (if big < self.height - 1 { big } else { self.height - 1 }) / LIGHT_CHUNK;
        let ghost cw = self.cw();
        let ghost ch = self.ch();
        let ghost top = self.top_solid@;
        let mut cy: u32 = lo;
        while cy <= hi
            invariant
                self.wf(),
                self.same_but_columns(old(self)),
                self.top_solid@ == top,
                cw == self.cw(),
                ch == self.ch(),
                x < self.width,
                hi < self.height,
                lo <= cy,
                cy == lo || cy <= hi + 1,
                forall|p: int, q: int|
                    #[trigger] self.is_dirty(p, q) == (old(self).is_dirty(p, q) || (cy > lo
                        && in_band((x / 32) as int, lo as int, cy - 1, cw, ch, p, q))),
            decreases hi + 1 - cy,
        {
            self.mark_chunk_3x3(x / LIGHT_CHUNK, cy);
            cy = cy + 1;
        }
    }

    /// After a tile at `(x, y)` changed in the world: re-derives its
    /// column's exposure and dirties the 3x3 light chunks around it.
    /// Coordinates outside the world change nothing.
    pub fn on_tile_changed(&mut self, world: &World, x: u32, y: u32)
        requires
            old(self).wf(),
            world.wf(),
            world.width == old(self).width,
            world.height == old(self).height,
        ensures
            final(self).wf(),
            final(self).same_but_columns(old(self)),
            x >= old(self).width || y >= old(self).height ==> final(self).top_solid@ == old(
                self,
            ).top_solid@ && final(self).dirty@ == old(self).dirty@,
            x < old(self).width && y < old(self).height ==> {
                &&& final(self).top_solid@ == old(self).top_solid@.update(
                    x as int,
                    final(self).top_solid@[x as int],
                )
                &&& is_top_solid(world, x as int, final(self).top_solid@[x as int] as int)
                &&& forall|p: int, q: int|
                    #[trigger] final(self).is_dirty(p, q) == (old(self).is_dirty(p, q)
                        || exposure_dirty(
                        x as int,
                        old(self).top_solid@[x as int] as int,
                        final(self).top_solid@[x as int] as int,
                        old(self).height as int,
                        old(self).cw(),
                        old(self).ch(),
                        p,
                        q,
                    ) || in_block((x / 32) as int, (y / 32) as int, old(self).cw(), old(self).ch(), p, q))
            },
    {
        if x >= self.width || y >= self.height {
            return;
        }
        self.refresh_column(world, x);
        self.mark_dirty_around(x, y);
    }
}


/// Light chunks dirtied when network chunk `(cx, cy)` arrives: the light
/// chunks it covers plus the ring around them, clipped to the grid.
pub open spec fn in_chunk_ring(cx: int, cy: int, cw: int, ch: int, p: int, q: int) -> bool {
    &&& dec_sat(2 * cx) <= p <= 2 * cx + 2
    &&& p <= cw - 1
    &&& dec_sat(2 * cy) <= q <= 2 * cy + 2
    &&& q <= ch - 1
}

impl LightEngine {
    /// Marks every light chunk `(p, q)` with `x0 <= p <= x1`, `y0 <= q <= y1`
    /// dirty.
    fn mark_range(&mut self, x0: u32, x1: u32, y0: u32, y1: u32)
        requires
            old(self).wf(),
            x1 < old(self).cw(),
            y1 < old(self).ch(),
        ensures
            final(self).wf(),
            final(self).same_but_dirty(old(self)),
            forall|p: int, q: int|
                #[trigger] final(self).is_dirty(p, q) == (old(self).is_dirty(p, q) || (x0 <= p
                    <= x1 && y0 <= q <= y1)),
    {
        let mut ny: u32 = y0;
        while ny <= y1
            invariant
                self.wf(),
                self.same_but_dirty(old(self)),
                x1 < self.cw(),
                y1 < self.ch(),
                y0 <= ny,
                ny == y0 || ny <= y1 + 1,
                forall|p: int, q: int|
                    #[trigger] self.is_dirty(p, q) == (old(self).is_dirty(p, q) || (x0 <= p <= x1
                        && y0 <= q < ny)),
            decreases y1 + 1 - ny,
        {
            let mut nx: u32 = x0;
            while nx <= x1
                invariant
                    self.wf(),
                    self.same_but_dirty(old(self)),
                    x1 < self.cw(),
                    y1 < self.ch(),
                    y0 <= ny <= y1,
                    x0 <= nx,
                    nx == x0 || nx <= x1 + 1,
                    forall|p: int, q: int|
                        #[trigger] self.is_dirty(p, q) == (old(self).is_dirty(p, q) || (x0 <= p
                            <= x1 && (y0 <= q < ny || (q == ny && p < nx)))),
                decreases x1 + 1 - nx,
            {
                self.set_dirty(nx, ny);
                nx = nx + 1;
            }
            ny = ny + 1;
        }
    }

    /// After network chunk `(cx, cy)` (64x64 tiles) is applied to the
    /// world: re-derives its columns' exposure and dirties its light chunks
    /// plus the ring around them.
    pub fn on_chunk_applied(&mut self, world: &World, cx: u32, cy: u32)
        requires
            old(self).wf(),
            world.wf(),
            world.width == old(self).width,
            world.height == old(self).height,
            (cx + 1) * CHUNK_SIZE <= u32::MAX,
            (cy + 1) * CHUNK_SIZE <= u32::MAX,
        ensures
            final(self).wf(),
            final(self).same_but_columns(old(self)),
            forall|x: int|
                0 <= x < old(self).width ==> if cx * 64 <= x < (cx + 1) * 64 {
                    is_top_solid(world, x, #[trigger] final(self).top_solid@[x] as int)
                } else {
                    final(self).top_solid@[x] == old(self).top_solid@[x]
                },
            forall|p: int, q: int|
                #[trigger] final(self).is_dirty(p, q) == (old(self).is_dirty(p, q) || (exists|x: int|
                    cx * 64 <= x < (cx + 1) * 64 && x < old(self).width && #[trigger] exposure_dirty(
                        x,
                        old(self).top_solid@[x] as int,
                        final(self).top_solid@[x] as int,
                        old(self).height as int,
                        old(self).cw(),
                        old(self).ch(),
                        p,
                        q,
                    )) || in_chunk_ring(cx as int, cy as int, old(self).cw(), old(self).ch(), p, q)),
    {
        let x0: u32 = if cx * CHUNK_SIZE < self.width {
            cx * CHUNK_SIZE
        } else {
            self.width
        };
        let x1: u32 = if (cx + 1) * CHUNK_SIZE < self.width {
            (cx + 1) * CHUNK_SIZE
        } else {
            self.width
        };
        let ghost cwi = self.cw();
        let ghost chi = self.ch();
        let ghost h = self.height as int;
        let mut x: u32 = x0;
        while x < x1
            invariant
                self.wf(),
                world.wf(),
                world.width == self.width,
                world.height == self.height,
                self.same_but_columns(old(self)),
                cwi == self.cw(),
                chi == self.ch(),
                h == self.height,
                x0 == (if cx * 64 < self.width { cx * 64 } else { self.width as int }),
                x1 <= self.width,
                x0 <= x,
                x == x0 || x <= x1,
                forall|px: int|
                    0 <= px < self.width ==> if x0 <= px < x {
                        is_top_solid(world, px, #[trigger] self.top_solid@[px] as int)
                    } else {
                        self.top_solid@[px] == old(self).top_solid@[px]
                    },
                forall|p: int, q: int|
                    #[trigger] self.is_dirty(p, q) == (old(self).is_dirty(p, q) || (exists|px: int|
                        x0 <= px < x && #[trigger] exposure_dirty(
                            px,
                            old(self).top_solid@[px] as int,
                            self.top_solid@[px] as int,
                            h,
                            cwi,
                            chi,
                            p,
                            q,
                        ))),
            decreases x1 - x,
        {
            let ghost before = *self;
            self.refresh_column(world, x);
            proof {
                assert forall|p: int, q: int|
                    #[trigger] self.is_dirty(p, q) == (old(self).is_dirty(p, q) || (exists|px: int|
                        x0 <= px < x + 1 && #[trigger] exposure_dirty(
                            px,
                            old(self).top_solid@[px] as int,
                            self.top_solid@[px] as int,
                            h,
                            cwi,
                            chi,
                            p,
                            q,
                        ))) by {
                    if exists|px: int|
                        x0 <= px < x && #[trigger] exposure_dirty(
                            px,
                            old(self).top_solid@[px] as int,
                            before.top_solid@[px] as int,
                            h,
                            cwi,
                            chi,
                            p,
                            q,
                        ) {
                        let px = choose|px: int|
                            x0 <= px < x && #[trigger] exposure_dirty(
                                px,
                                old(self).top_solid@[px] as int,
                                before.top_solid@[px] as int,
                                h,
                                cwi,
                                chi,
                                p,
                                q,
                            );
                        assert(self.top_solid@[px] == before.top_solid@[px]);
                        assert(exposure_dirty(px, old(self).top_solid@[px] as int, self.top_solid@[px] as int, h, cwi, chi, p, q));
                    }
                    if exposure_dirty(x as int, before.top_solid@[x as int] as int, self.top_solid@[x as int] as int, h, cwi, chi, p, q) {
                        assert(before.top_solid@[x as int] == old(self).top_solid@[x as int]);
                        assert(exposure_dirty(x as int, old(self).top_solid@[x as int] as int, self.top_solid@[x as int] as int, h, cwi, chi, p, q));
                    }
                    if exists|px: int|
                        x0 <= px < x + 1 && #[trigger] exposure_dirty(
                            px,
                            old(self).top_solid@[px] as int,
                            self.top_solid@[px] as int,
                            h,
                            cwi,
                            chi,
                            p,
                            q,
                        ) {
                        let px = choose|px: int|
                            x0 <= px < x + 1 && #[trigger] exposure_dirty(
                                px,
                                old(self).top_solid@[px] as int,
                                self.top_solid@[px] as int,
                                h,
                                cwi,
                                chi,
                                p,
                                q,
                            );
                        if px < x {
                            assert(self.top_solid@[px] == before.top_solid@[px]);
                            assert(exposure_dirty(px, old(self).top_solid@[px] as int, before.top_solid@[px] as int, h, cwi, chi, p, q));
                        }
                    }
                }
            }
            x = x + 1;
        }
        let (cw, ch) = self.chunk_grid();
        let lx0: u32 = if cx >= 1 { 2 * cx - 1 } else { 0 };
        let ly0: u32 = if cy >= 1 { 2 * cy - 1 } else { 0 };
        let lx1: u32 = if 2 * cx + 2 < cw - 1 { 2 * cx + 2 } else { cw - 1 };
        let ly1: u32 = if 2 * cy + 2 < ch - 1 { 2 * cy + 2 } else { ch - 1 };
        let ghost mid = *self;
        self.mark_range(lx0, lx1, ly0, ly1);
        proof {
            assert forall|p: int, q: int|
                #[trigger] self.is_dirty(p, q) == (old(self).is_dirty(p, q) || (exists|px: int|
                    cx * 64 <= px < (cx + 1) * 64 && px < old(self).width && #[trigger] exposure_dirty(
                        px,
                        old(self).top_solid@[px] as int,
                        self.top_solid@[px] as int,
                        h,
                        cwi,
                        chi,
                        p,
                        q,
                    )) || in_chunk_ring(cx as int, cy as int, cwi, chi, p, q)) by {
                assert(mid.is_dirty(p, q) == (old(self).is_dirty(p, q) || (exists|px: int|
                    x0 <= px < x && #[trigger] exposure_dirty(
                        px,
                        old(self).top_solid@[px] as int,
                        mid.top_solid@[px] as int,
                        h,
                        cwi,
                        chi,
                        p,
                        q,
                    ))));
            }
        }
    }
}


// ---- Per-frame gating ---------------------------------------------------------

/// The light-chunk region a view covers: the chunks under the visible tile
/// rectangle `view` (inclusive `(x0, y0, x1, y1)`) plus `REGION_PAD_CHUNKS`
/// on every side, clipped to the grid.
pub open spec fn view_region(w: int, h: int, view: (u32, u32, u32, u32)) -> (u32, u32, u32, u32) {
    let cw = spec_chunks(w);
    let ch = spec_chunks(h);
    (
        (if view.0 / 32 >= 2 { view.0 / 32 - 2 } else { 0 }) as u32,
        (if view.1 / 32 >= 2 { view.1 / 32 - 2 } else { 0 }) as u32,
        (if view.2 / 32 + 2 <= cw - 1 { view.2 / 32 + 2 } else { cw - 1 }) as u32,
        (if view.3 / 32 + 2 <= ch - 1 { view.3 / 32 + 2 } else { ch - 1 }) as u32,
    )
}

/// Inclusive tile bounds of a light-chunk region, clipped to the world.
pub open spec fn region_rect(w: int, h: int, r: (u32, u32, u32, u32)) -> (u32, u32, u32, u32) {
    (
        (r.0 * 32) as u32,
        (r.1 * 32) as u32,
        (if (r.2 + 1) * 32 - 1 <= w - 1 { (r.2 + 1) * 32 - 1 } else { w - 1 }) as u32,
        (if (r.3 + 1) * 32 - 1 <= h - 1 { (r.3 + 1) * 32 - 1 } else { h - 1 }) as u32,
    )
}

/// The tiles a frame with `view` floods: its region's tiles grown by the
/// source margin.
pub open spec fn update_area(w: int, h: int, view: (u32, u32, u32, u32)) -> (u32, u32, u32, u32) {
    spec_expanded(w, h, region_rect(w, h, view_region(w, h, view)))
}

/// The sources standing inside `e`, in their order.
pub open spec fn kept(sources: Seq<DynamicSource>, e: (u32, u32, u32, u32)) -> Seq<DynamicSource>
    decreases sources.len(),
{
    if sources.len() == 0 {
        Seq::empty()
    } else {
        let p = kept(sources.drop_last(), e);
        let s = sources.last();
        if in_rect(e, s.x as int, s.y as int) {
            p.push(s)
        } else {
            p
        }
    }
}

/// Light chunk `(p, q)` lies in chunk region `r`.
pub open spec fn in_chunks(r: (u32, u32, u32, u32), p: int, q: int) -> bool {
    r.0 <= p <= r.2 && r.1 <= q <= r.3
}

proof fn lemma_kept(sources: Seq<DynamicSource>, e: (u32, u32, u32, u32))
    requires
        forall|k: int|
            0 <= k < sources.len() && in_rect(e, sources[k].x as int, sources[k].y as int)
                ==> #[trigger] sources[k].level <= LIGHT_MAX,
    ensures
        forall|k: int|
            0 <= k < kept(sources, e).len() ==> in_rect(e, #[trigger] kept(sources, e)[k].x as int, kept(sources, e)[k].y as int)
                && kept(sources, e)[k].level <= LIGHT_MAX,
    decreases sources.len(),
{
    if sources.len() > 0 {
        let p = sources.drop_last();
        assert forall|k: int| 0 <= k < p.len() && in_rect(e, p[k].x as int, p[k].y as int) implies #[trigger] p[k].level <= LIGHT_MAX by {
            assert(p[k] == sources[k]);
        }
        lemma_kept(p, e);
        let l = sources.last();
        assert(l == sources[sources.len() - 1]);
        let kp = kept(p, e);
        let ks = kept(sources, e);
        assert forall|k: int| 0 <= k < ks.len() implies in_rect(e, #[trigger] ks[k].x as int, ks[k].y as int) && ks[k].level <= LIGHT_MAX by {
            if k < kp.len() {
                assert(ks[k] == kp[k]);
            } else {
                assert(ks[k] == l);
            }
        }
    }
}

impl LightEngine {
    /// Some column of chunk region `r` is sky-exposed below the region's
    /// top edge.
    pub open spec fn region_sky(&self, r: (u32, u32, u32, u32)) -> bool {
        exists|x: int|
            r.0 * 32 <= x < (r.2 + 1) * 32 && x < self.width && #[trigger] self.top_solid@[x] > r.1 * 32
    }

    /// Whether a frame with these inputs must recompute: first frame, sky
    /// level changed, region changed, the sources that can reach the region
    /// changed, or a chunk of the region is dirty; or else a dawn/dusk ramp
    /// is moving, `SKY_REFRESH_TICKS` have passed since the last refresh and
    /// the region has sky.
    pub open spec fn spec_should_recompute(
        &self,
        view: (u32, u32, u32, u32),
        time: u32,
        abs_tick: u64,
        sources: Seq<DynamicSource>,
    ) -> bool {
        let w = self.width as int;
        let h = self.height as int;
        let r = view_region(w, h, view);
        let cur = kept(sources, update_area(w, h, view));
        let changed = !self.computed_once || spec_sky_light(time as int) != self.last_sky || r
            != self.last_region || cur != self.last_sources@ || exists|p: int, q: int|
            #[trigger] self.is_dirty(p, q) && in_chunks(r, p, q);
        changed || (spec_in_ramp(time as int) && abs_tick - self.last_sky_refresh
            >= SKY_REFRESH_TICKS && self.region_sky(r))
    }

    /// Clears light chunk `(a, b)`.
    fn clear_dirty(&mut self, a: u32, b: u32)
        requires
            old(self).wf(),
            a < old(self).cw(),
            b < old(self).ch(),
        ensures
            final(self).wf(),
            final(self).same_but_dirty(old(self)),
            forall|p: int, q: int|
                #[trigger] final(self).is_dirty(p, q) == (old(self).is_dirty(p, q) && !(p == a
                    && q == b)),
    {
        let (cw, ch) = self.chunk_grid();
        proof {
            lemma_grid_fits(self.width as int, self.height as int);
            lemma_cell_index(cw as int, ch as int, a as int, b as int);
        }
        let i: usize = b as usize * cw as usize + a as usize;
        self.dirty.set(i, false);
        proof {
            assert forall|p: int, q: int|
                #[trigger] self.is_dirty(p, q) == (old(self).is_dirty(p, q) && !(p == a && q
                    == b)) by {
                if 0 <= p < cw && 0 <= q < ch {
                    lemma_cell_index(cw as int, ch as int, p, q);
                    if cell_index(cw as int, p, q) == i {
                        lemma_cell_index_inj(cw as int, p, q, a as int, b as int);
                    }
                }
            }
        }
    }

    /// Clears every chunk of region `r`.
    fn clear_region(&mut self, r: (u32, u32, u32, u32))
        requires
            old(self).wf(),
            r.2 < old(self).cw(),
            r.3 < old(self).ch(),
        ensures
            final(self).wf(),
            final(self).same_but_dirty(old(self)),
            forall|p: int, q: int|
                #[trigger] final(self).is_dirty(p, q) == (old(self).is_dirty(p, q) && !in_chunks(
                    r,
                    p,
                    q,
                )),
    {
        let mut ny: u32 = r.1;
        while ny <= r.3
            invariant
                self.wf(),
                self.same_but_dirty(old(self)),
                r.2 < self.cw(),
                r.3 < self.ch(),
                r.1 <= ny,
                ny == r.1 || ny <= r.3 + 1,
                forall|p: int, q: int|
                    #[trigger] self.is_dirty(p, q) == (old(self).is_dirty(p, q) && !(in_chunks(r, p, q)
                        && q < ny)),
            decreases r.3 + 1 - ny,
        {
            let mut nx: u32 = r.0;
            while nx <= r.2
                invariant
                    self.wf(),
                    self.same_but_dirty(old(self)),
                    r.2 < self.cw(),
                    r.3 < self.ch(),
                    r.1 <= ny <= r.3,
                    r.0 <= nx,
                    nx == r.0 || nx <= r.2 + 1,
                    forall|p: int, q: int|
                        #[trigger] self.is_dirty(p, q) == (old(self).is_dirty(p, q) && !(in_chunks(
                            r,
                            p,
                            q,
                        ) && (q < ny || (q == ny && p < nx)))),
                decreases r.2 + 1 - nx,
            {
                self.clear_dirty(nx, ny);
                nx = nx + 1;
            }
            ny = ny + 1;
        }
    }

    /// Whether any chunk of region `r` is dirty.
    fn any_dirty_in(&self, r: (u32, u32, u32, u32)) -> (d: bool)
        requires
            self.wf(),
            r.2 < self.cw(),
            r.3 < self.ch(),
        ensures
            d == exists|p: int, q: int| #[trigger] self.is_dirty(p, q) && in_chunks(r, p, q),
    {
        let (cw, ch) = self.chunk_grid();
        proof {
            lemma_grid_fits(self.width as int, self.height as int);
        }
        let mut ny: u32 = r.1;
        while ny <= r.3
            invariant
                self.wf(),
                cw == self.cw(),
                ch == self.ch(),
                cw * ch <= self.width * self.height,
                r.2 < cw,
                r.3 < ch,
                r.1 <= ny,
                ny == r.1 || ny <= r.3 + 1,
                forall|p: int, q: int| in_chunks(r, p, q) && q < ny ==> !#[trigger] self.is_dirty(p, q),
            decreases r.3 + 1 - ny,
        {
            let mut nx: u32 = r.0;
            while nx <= r.2
                invariant
                    self.wf(),
                    cw == self.cw(),
                    ch == self.ch(),
                    cw * ch <= self.width * self.height,
                    r.2 < cw,
                    r.3 < ch,
                    r.1 <= ny <= r.3,
                    r.0 <= nx,
                    nx == r.0 || nx <= r.2 + 1,
                    forall|p: int, q: int|
                        in_chunks(r, p, q) && (q < ny || (q == ny && p < nx)) ==> !#[trigger] self.is_dirty(p, q),
                decreases r.2 + 1 - nx,
            {
                proof {
                    lemma_cell_index(cw as int, ch as int, nx as int, ny as int);
                }
                if self.dirty[ny as usize * cw as usize + nx as usize] {
                    assert(self.is_dirty(nx as int, ny as int));
                    return true;
                }
                nx = nx + 1;
            }
            ny = ny + 1;
        }
        false
    }

    /// Any sky-exposed cell inside chunk region `r`? (A moving ramp over a
    /// buried region has nothing to refresh.)
    fn region_has_sky(&self, r: (u32, u32, u32, u32)) -> (b: bool)
        requires
            self.wf(),
            r.0 * 32 <= u32::MAX,
            r.1 * 32 <= u32::MAX,
            r.2 < self.cw(),
        ensures
            b == self.region_sky(r),
    {
        proof {
            lemma_chunks(self.width as int);
        }
        let x0: u32 = r.0 * LIGHT_CHUNK;
        let y0: u32 = r.1 * LIGHT_CHUNK;
        let x1: u32 = if (r.2 + 1) * LIGHT_CHUNK < self.width {
            (r.2 + 1) * LIGHT_CHUNK
        } else {
            self.width
        };
        let mut x: u32 = x0;
        while x < x1
            invariant
                self.wf(),
                x0 == r.0 * 32,
                y0 == r.1 * 32,
                x1 == if (r.2 + 1) * 32 < self.width { (r.2 + 1) * 32 } else { self.width as int },
                x0 <= x,
                forall|px: int| x0 <= px < x && px < x1 ==> !(#[trigger] self.top_solid@[px] > y0),
            decreases x1 - x,
        {
            if self.top_solid[x as usize] > y0 {
                return true;
            }
            x = x + 1;
        }
        false
    }
}

/// `a` and `b` hold the same sources in the same order.
fn same_sources(a: &Vec<DynamicSource>, b: &Vec<DynamicSource>) -> (r: bool)
    ensures
        r == (a@ == b@),
{
    if a.len() != b.len() {
        return false;
    }
    let mut i: usize = 0;
    while i < a.len()
        invariant
            a@.len() == b@.len(),
            i <= a@.len(),
            forall|k: int| 0 <= k < i ==> a@[k] == b@[k],
        decreases a@.len() - i,
    {
        if a[i].x != b[i].x || a[i].y != b[i].y || a[i].level != b[i].level {
            assert(a@[i as int] != b@[i as int]);
            return false;
        }
        i = i + 1;
    }
    assert(a@ =~= b@);
    true
}


impl LightEngine {
    /// Per-frame entry point: decides whether the visible region needs a
    /// recompute (see `spec_should_recompute`) and runs it over the region
    /// with the current sky light and the sources that can reach it, then
    /// clears the region's dirty chunks. Returns whether it recomputed.
    ///
    /// `view` is the visible tile rectangle (inclusive `(x0, y0, x1, y1)`),
    /// `abs_tick` a monotonically increasing tick counter.
    pub fn update(
        &mut self,
        world: &World,
        view: (u32, u32, u32, u32),
        time: u32,
        abs_tick: u64,
        sources: &[DynamicSource],
    ) -> (r: bool)
        requires
            old(self).wf(),
            world.wf(),
            world.width == old(self).width,
            world.height == old(self).height,
            forall|k: int|
                0 <= k < sources@.len() && in_rect(
                    update_area(old(self).width as int, old(self).height as int, view),
                    sources@[k].x as int,
                    sources@[k].y as int,
                ) ==> #[trigger] sources@[k].level <= LIGHT_MAX,
        ensures
            final(self).wf(),
            r == old(self).spec_should_recompute(view, time, abs_tick, sources@),
            !r ==> final(self).same_but_light(old(self)) && final(self).light@ == old(self).light@,
            r ==> {
                let w = old(self).width as int;
                let h = old(self).height as int;
                let area = update_area(w, h, view);
                &&& lit_field(
                    final(self).light@,
                    old(self).light@,
                    world,
                    old(self).top_solid@,
                    spec_sky_light(time as int),
                    kept(sources@, area),
                    area,
                )
                &&& final(self).width == old(self).width
                &&& final(self).height == old(self).height
                &&& final(self).top_solid@ == old(self).top_solid@
                &&& forall|p: int, q: int|
                    #[trigger] final(self).is_dirty(p, q) == (old(self).is_dirty(p, q) && !in_chunks(
                        view_region(w, h, view),
                        p,
                        q,
                    ))
                &&& final(self).last_sources@ == kept(sources@, area)
                &&& final(self).last_sky == spec_sky_light(time as int)
                &&& final(self).last_region == view_region(w, h, view)
                &&& final(self).last_sky_refresh == abs_tick
                &&& final(self).computed_once
            },
    {
        let ghost w = self.width as int;
        let ghost h = self.height as int;
        let (cw, ch) = self.chunk_grid();
        proof {
            lemma_chunks(w);
            lemma_chunks(h);
        }
        let cx0: u32 = if view.0 / LIGHT_CHUNK >= REGION_PAD_CHUNKS {
            view.0 / LIGHT_CHUNK - REGION_PAD_CHUNKS
        } else {
            0
        };
        let cy0: u32 = if view.1 / LIGHT_CHUNK >= REGION_PAD_CHUNKS {
            view.1 / LIGHT_CHUNK - REGION_PAD_CHUNKS
        } else {
            0
        };
        let cx1: u32 = if view.2 / LIGHT_CHUNK + REGION_PAD_CHUNKS <= cw - 1 {
            view.2 / LIGHT_CHUNK + REGION_PAD_CHUNKS
        } else {
            cw - 1
        };
        let cy1: u32 = if view.3 / LIGHT_CHUNK + REGION_PAD_CHUNKS <= ch - 1 {
            view.3 / LIGHT_CHUNK + REGION_PAD_CHUNKS
        } else {
            ch - 1
        };
        let region = (cx0, cy0, cx1, cy1);
        assert(region == view_region(w, h, view));
        let rx1: u32 = if (cx1 + 1) * LIGHT_CHUNK - 1 <= self.width - 1 {
            (cx1 + 1) * LIGHT_CHUNK - 1
        } else {
            self.width - 1
        };
        let ry1: u32 = if (cy1 + 1) * LIGHT_CHUNK - 1 <= self.height - 1 {
            (cy1 + 1) * LIGHT_CHUNK - 1
        } else {
            self.height - 1
        };
        let rect = (cx0 * LIGHT_CHUNK, cy0 * LIGHT_CHUNK, rx1, ry1);
        assert(rect == region_rect(w, h, region));
        let e = self.expanded(rect);
        // Keep only the sources that can shine into the region.
        let mut cur: Vec<DynamicSource> = Vec::new();
        let mut k: usize = 0;
        while k < sources.len()
            invariant
                k <= sources@.len(),
                cur@ == kept(sources@.subrange(0, k as int), e),
            decreases sources@.len() - k,
        {
            let s = sources[k];
            proof {
                let post = sources@.subrange(0, k + 1);
                assert(post.drop_last() =~= sources@.subrange(0, k as int));
                assert(post.last() == s);
            }
            if s.x as i64 >= e.0 as i64 && s.x as i64 <= e.2 as i64 && s.y as i64 >= e.1 as i64
                && s.y as i64 <= e.3 as i64 {
                cur.push(s);
            }
            k = k + 1;
        }
        proof {
            assert(sources@.subrange(0, k as int) =~= sources@);
        }
        let sky = sky_light(time);
        let mut go = !self.computed_once || sky != self.last_sky || cx0 != self.last_region.0
            || cy0 != self.last_region.1 || cx1 != self.last_region.2 || cy1 != self.last_region.3
            || !same_sources(&cur, &self.last_sources) || self.any_dirty_in(region);
        if !go && in_ramp(time) && abs_tick.saturating_sub(self.last_sky_refresh)
            >= SKY_REFRESH_TICKS && self.region_has_sky(region) {
            go = true;
        }
        if !go {
            return false;
        }
        proof {
            lemma_kept(sources@, e);
        }
        self.recompute(world, rect, sky, cur.as_slice());
        let ghost mid = *self;
        self.clear_region(region);
        let ghost cleared = *self;
        self.last_sources = cur;
        self.last_sky = sky;
        self.last_region = region;
        self.last_sky_refresh = abs_tick;
        self.computed_once = true;
        proof {
            assert forall|p: int, q: int| #[trigger] self.is_dirty(p, q) == (old(self).is_dirty(p, q) && !in_chunks(region, p, q)) by {
                assert(self.is_dirty(p, q) == cleared.is_dirty(p, q));
                assert(cleared.is_dirty(p, q) == (mid.is_dirty(p, q) && !in_chunks(region, p, q)));
                assert(mid.is_dirty(p, q) == old(self).is_dirty(p, q));
            }
        }
        true
    }
}


// ---- Laws ---------------------------------------------------------------------------

/// The sky only brightens from midnight to midday and only darkens from
/// midday on: sky light is non-decreasing up to the midpoint between dawn
/// and dusk and non-increasing after it.
pub proof fn lemma_sky_light_monotone(t1: int, t2: int)
    requires
        t1 <= t2,
    ensures
        t2 <= (DAWN_TICK + DUSK_TICK) / 2 ==> spec_sky_light(t1) <= spec_sky_light(t2),
        (DAWN_TICK + DUSK_TICK) / 2 <= t1 ==> spec_sky_light(t1) >= spec_sky_light(t2),
{
    let d1 = spec_daylight_ticks(t1);
    let d2 = spec_daylight_ticks(t2);
    if t2 <= (DAWN_TICK + DUSK_TICK) / 2 {
        assert(d1 <= d2);
        vstd::arithmetic::div_mod::lemma_div_is_ordered(48 * d1 + 1800, 48 * d2 + 1800, 3600);
    }
    if (DAWN_TICK + DUSK_TICK) / 2 <= t1 {
        assert(d2 <= d1);
        vstd::arithmetic::div_mod::lemma_div_is_ordered(48 * d2 + 1800, 48 * d1 + 1800, 3600);
    }
}

/// A frame that just recomputed is settled: asking again with the same
/// view, time and sources does not recompute while no chunk of the region
/// was dirtied since, unless a dawn/dusk ramp is moving and
/// `SKY_REFRESH_TICKS` have passed.
pub proof fn lemma_update_settles(
    e: &LightEngine,
    view: (u32, u32, u32, u32),
    time: u32,
    abs_tick: u64,
    sources: Seq<DynamicSource>,
)
    requires
        e.computed_once,
        e.last_sky == spec_sky_light(time as int),
        e.last_region == view_region(e.width as int, e.height as int, view),
        e.last_sources@ == kept(sources, update_area(e.width as int, e.height as int, view)),
        forall|p: int, q: int|
            in_chunks(e.last_region, p, q) ==> !#[trigger] e.is_dirty(p, q),
        !spec_in_ramp(time as int) || abs_tick - e.last_sky_refresh < SKY_REFRESH_TICKS,
    ensures
        !e.spec_should_recompute(view, time, abs_tick, sources),
{
}

/// A stale frame always recomputes: on the first update, when the sky
/// level or the padded chunk region differs from the last recompute's, when
/// the sources that can reach the region changed, or when a chunk of the
/// region is dirty, [`LightEngine::update`] recomputes (and then clears
/// exactly the region's dirty chunks).
pub proof fn lemma_update_recomputes_when_stale(
    e: &LightEngine,
    view: (u32, u32, u32, u32),
    time: u32,
    abs_tick: u64,
    sources: Seq<DynamicSource>,
)
    requires
        ({
            let r = view_region(e.width as int, e.height as int, view);
            ||| !e.computed_once
            ||| spec_sky_light(time as int) != e.last_sky
            ||| r != e.last_region
            ||| kept(sources, update_area(e.width as int, e.height as int, view)) != e.last_sources@
            ||| exists|p: int, q: int| #[trigger] e.is_dirty(p, q) && in_chunks(r, p, q)
        }),
    ensures
        e.spec_should_recompute(view, time, abs_tick, sources),
{
}

} // verus!
