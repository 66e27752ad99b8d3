//! The tile world: a row-major grid of [`Tile`]s with the world spawn.

use vstd::prelude::*;

use crate::tiles::{spec_solid, spec_size, state, Tile, TileId};

verus! {

/// Side of a network chunk, in tiles.
pub const CHUNK_SIZE: u32 = 64;

/// Ticks in one day/night cycle (24 in-game hours at 60 ticks a minute).
pub const DAY_TICKS: u32 = 86400;

/// Tick of day at dawn (04:30) and at dusk (19:30).
pub const DAWN_TICK: u32 = 16200;

pub const DUSK_TICK: u32 = 70200;

/// Tick of day a new world starts at (08:15, full daylight).
pub const NEW_WORLD_TIME: u32 = 29700;

/// Bosses the world has seen defeated.
#[derive(Debug, Clone, Copy, PartialEq, Eq, Structural)]
pub struct WorldFlags {
    pub watcher_defeated: bool,
    pub slime_monarch_defeated: bool,
    pub bone_warden_defeated: bool,
}

/// The tile grid. `tiles` is row-major: cell `(x, y)` is
/// `tiles[y * width + x]`.
pub struct World {
    pub width: u32,
    pub height: u32,
    pub tiles: Vec<Tile>,
    /// World spawn: the air tile the player stands in.
    pub spawn: (u32, u32),
}

/// Index of cell `(x, y)` in a row-major grid `width` wide.
pub open spec fn cell_index(width: int, x: int, y: int) -> int {
    y * width + x
}

/// Cells inside a `width` x `height` grid index inside its
/// `width * height` entries.
pub proof fn lemma_cell_index(width: int, height: int, x: int, y: int)
    requires
        0 <= x < width,
        0 <= y < height,
    ensures
        0 <= cell_index(width, x, y) < width * height,
        cell_index(width, x, y) == y * width + x,
{
    assert(0 <= y * width + x < width * height) by (nonlinear_arith)
        requires
            0 <= x < width,
            0 <= y < height,
    ;
}

/// Distinct cells have distinct indices.
pub proof fn lemma_cell_index_inj(width: int, x1: int, y1: int, x2: int, y2: int)
    requires
        0 <= x1 < width,
        0 <= x2 < width,
        0 <= y1,
        0 <= y2,
        cell_index(width, x1, y1) == cell_index(width, x2, y2),
    ensures
        x1 == x2 && y1 == y2,
{
    assert(x1 == x2 && y1 == y2) by (nonlinear_arith)
        requires
            0 <= x1 < width,
            0 <= x2 < width,
            0 <= y1,
            0 <= y2,
            y1 * width + x1 == y2 * width + x2,
    ;
}

impl World {
    /// Well-formed: the grid holds exactly `width * height` cells, and cell
    /// indices fit in `u32`.
    pub open spec fn wf(&self) -> bool {
        &&& self.width >= 1
        &&& self.height >= 1
        &&& self.width * self.height <= u32::MAX
        &&& self.tiles@.len() == self.width * self.height
    }

    pub open spec fn spec_in_bounds(&self, x: int, y: int) -> bool {
        0 <= x < self.width && 0 <= y < self.height
    }

    /// The tile at an in-bounds cell.
    pub open spec fn cell(&self, x: int, y: int) -> Tile {
        self.tiles@[cell_index(self.width as int, x, y)]
    }

    /// Solid at `(x, y)`; everything outside the world counts as solid.
    pub open spec fn spec_is_solid(&self, x: int, y: int) -> bool {
        !self.spec_in_bounds(x, y) || spec_solid(self.cell(x, y))
    }

    /// A `width` x `height` world of air, spawn at the top-middle.
    pub fn new(width: u32, height: u32) -> (w: World)
        requires
            width >= 1,
            height >= 1,
            width * height <= u32::MAX,
        ensures
            w.wf(),
            w.width == width,
            w.height == height,
            w.spawn == (width / 2, 0u32),
            forall|i: int| 0 <= i < w.tiles@.len() ==> #[trigger] w.tiles@[i] == Tile::spec_air(),
    {
        let n: usize = width as usize * height as usize;
        let mut tiles: Vec<Tile> = Vec::new();
        while tiles.len() < n
            invariant
                tiles@.len() <= n,
                forall|i: int| 0 <= i < tiles@.len() ==> #[trigger] tiles@[i] == Tile::spec_air(),
            decreases n - tiles@.len(),
        {
            tiles.push(Tile::air());
        }
        World { width, height, tiles, spawn: (width / 2, 0) }
    }

    pub fn in_bounds(&self, x: u32, y: u32) -> (r: bool)
        ensures
            r == self.spec_in_bounds(x as int, y as int),
    {
        x < self.width && y < self.height
    }

    /// Row-major index of an in-bounds cell.
    pub fn idx(&self, x: u32, y: u32) -> (i: usize)
        requires
            self.wf(),
            self.spec_in_bounds(x as int, y as int),
        ensures
            i == cell_index(self.width as int, x as int, y as int),
            i < self.tiles@.len(),
    {
        proof {
            lemma_cell_index(self.width as int, self.height as int, x as int, y as int);
        }
        y as usize * self.width as usize + x as usize
    }

    /// The tile at an in-bounds cell.
    pub fn tile(&self, x: u32, y: u32) -> (t: Tile)
        requires
            self.wf(),
            self.spec_in_bounds(x as int, y as int),
        ensures
            t == self.cell(x as int, y as int),
    {
        let i = self.idx(x, y);
        self.tiles[i]
    }

    /// Overwrites an in-bounds cell.
    pub fn set_tile(&mut self, x: u32, y: u32, t: Tile)
        requires
            old(self).wf(),
            old(self).spec_in_bounds(x as int, y as int),
        ensures
            final(self).wf(),
            final(self).width == old(self).width,
            final(self).height == old(self).height,
            final(self).spawn == old(self).spawn,
            final(self).tiles@ == old(self).tiles@.update(
                cell_index(old(self).width as int, x as int, y as int),
                t,
            ),
    {
        let i = self.idx(x, y);
        self.tiles.set(i, t);
    }

    /// Solid at `(x, y)`; everything outside the world counts as solid.
    pub fn is_solid(&self, x: i64, y: i64) -> (r: bool)
        requires
            self.wf(),
        ensures
            r == self.spec_is_solid(x as int, y as int),
    {
        if x < 0 || y < 0 || x >= self.width as i64 || y >= self.height as i64 {
            return true;
        }
        self.tile(x as u32, y as u32).is_solid()
    }

    /// A platform at `(x, y)` (never outside the world).
    pub fn is_platform(&self, x: i64, y: i64) -> (r: bool)
        requires
            self.wf(),
        ensures
            r == (self.spec_in_bounds(x as int, y as int) && self.cell(x as int, y as int).id
                == TileId::Platform),
    {
        if x < 0 || y < 0 || x >= self.width as i64 || y >= self.height as i64 {
            return false;
        }
        self.tile(x as u32, y as u32).is_platform()
    }

    /// The footprint of a `id` object with top-left `(x, y)` lies inside the
    /// world and is all air.
    pub open spec fn footprint_free(&self, x: int, y: int, id: TileId) -> bool {
        &&& x + spec_size(id).0 <= self.width
        &&& y + spec_size(id).1 <= self.height
        &&& forall|dx: int, dy: int|
            0 <= dx < spec_size(id).0 && 0 <= dy < spec_size(id).1
                ==> #[trigger] self.cell(x + dx, y + dy).id == TileId::Air
    }

    /// `(cx, cy)` lies in the footprint of a `id` object with top-left
    /// `(x, y)`.
    pub open spec fn in_footprint(x: int, y: int, id: TileId, cx: int, cy: int) -> bool {
        x <= cx < x + spec_size(id).0 && y <= cy < y + spec_size(id).1
    }

    /// Cell `old` once part `(px, py)` of a `id` object is written over it:
    /// the wall and liquid stay.
    pub open spec fn written(old: Tile, id: TileId, px: int, py: int) -> Tile {
        Tile { id, wall: old.wall, liquid: old.liquid, state: (px + 8 * py) as u8 }
    }

    /// Places a multi-tile object with its top-left at `(x, y)`: succeeds
    /// when its whole footprint is inside the world and air, writing each
    /// footprint cell with its part position in the state byte.
    pub fn place_multitile(&mut self, x: u32, y: u32, id: TileId) -> (ok: bool)
        requires
            old(self).wf(),
        ensures
            final(self).wf(),
            final(self).width == old(self).width,
            final(self).height == old(self).height,
            final(self).spawn == old(self).spawn,
            ok == old(self).footprint_free(x as int, y as int, id),
            !ok ==> final(self).tiles@ == old(self).tiles@,
            ok ==> forall|dx: int, dy: int|
                0 <= dx < spec_size(id).0 && 0 <= dy < spec_size(id).1
                    ==> (#[trigger] final(self).cell(x + dx, y + dy)).id == id,
            ok ==> forall|cx: int, cy: int|
                old(self).spec_in_bounds(cx, cy) ==> #[trigger] final(self).cell(cx, cy) == if World::in_footprint(
                    x as int,
                    y as int,
                    id,
                    cx,
                    cy,
                ) {
                    World::written(old(self).cell(cx, cy), id, cx - x, cy - y)
                } else {
                    old(self).cell(cx, cy)
                },
    {
        let (w, h) = id.size();
        if x as u64 + w as u64 > self.width as u64 || y as u64 + h as u64 > self.height as u64 {
            return false;
        }
        let mut dy: u8 = 0;
        while dy < h
            invariant
                self.wf(),
                (w, h) == spec_size(id),
                x + w <= self.width,
                y + h <= self.height,
                dy <= h,
                forall|ex: int, ey: int|
                    0 <= ex < w && 0 <= ey < dy ==> #[trigger] self.cell(x + ex, y + ey).id == TileId::Air,
            decreases h - dy,
        {
            let mut dx: u8 = 0;
            while dx < w
                invariant
                    self.wf(),
                    (w, h) == spec_size(id),
                    x + w <= self.width,
                    y + h <= self.height,
                    dy < h,
                    dx <= w,
                    forall|ex: int, ey: int|
                        0 <= ex < w && 0 <= ey < dy ==> #[trigger] self.cell(x + ex, y + ey).id == TileId::Air,
                    forall|ex: int| 0 <= ex < dx ==> #[trigger] self.cell(x + ex, y + dy).id == TileId::Air,
                decreases w - dx,
            {
                let cx: u32 = x + dx as u32;
                let cy: u32 = y + dy as u32;
                if !matches!(self.tile(cx, cy).id, TileId::Air) {
                    proof {
                        assert(!(self.cell(x + dx, y + dy).id == TileId::Air));
                    }
                    return false;
                }
                dx = dx + 1;
            }
            dy = dy + 1;
        }
        let ghost t0 = self.tiles@;
        let mut dy: u8 = 0;
        while dy < h
            invariant
                self.wf(),
                self.width == old(self).width,
                self.height == old(self).height,
                self.spawn == old(self).spawn,
                t0 == old(self).tiles@,
                (w, h) == spec_size(id),
                dy <= h,
                x + w <= self.width,
                y + h <= self.height,
                forall|ex: int, ey: int|
                    0 <= ex < w && 0 <= ey < dy ==> (#[trigger] self.tiles@[cell_index(self.width as int, x + ex, y + ey)]).id == id,
                forall|cx: int, cy: int|
                    0 <= cx < self.width && 0 <= cy < self.height ==> #[trigger] self.tiles@[cell_index(
                        self.width as int,
                        cx,
                        cy,
                    )] == if x <= cx < x + w && y <= cy < y + dy {
                        World::written(t0[cell_index(self.width as int, cx, cy)], id, cx - x, cy - y)
                    } else {
                        t0[cell_index(self.width as int, cx, cy)]
                    },
            decreases h - dy,
        {
            let mut dx: u8 = 0;
            while dx < w
                invariant
                    self.wf(),
                    self.width == old(self).width,
                    self.height == old(self).height,
                    self.spawn == old(self).spawn,
                    (w, h) == spec_size(id),
                    dy < h,
                    dx <= w,
                    x + w <= self.width,
                    y + h <= self.height,
                    forall|ex: int, ey: int|
                        0 <= ex < w && 0 <= ey < dy ==> (#[trigger] self.tiles@[cell_index(self.width as int, x + ex, y + ey)]).id == id,
                    forall|ex: int| 0 <= ex < dx ==> (#[trigger] self.tiles@[cell_index(self.width as int, x + ex, y + dy)]).id == id,
                    t0 == old(self).tiles@,
                    forall|cx: int, cy: int|
                        0 <= cx < self.width && 0 <= cy < self.height ==> #[trigger] self.tiles@[cell_index(
                            self.width as int,
                            cx,
                            cy,
                        )] == if x <= cx < x + w && (y <= cy < y + dy || (cy == y + dy && cx < x + dx)) {
                            World::written(t0[cell_index(self.width as int, cx, cy)], id, cx - x, cy - y)
                        } else {
                            t0[cell_index(self.width as int, cx, cy)]
                        },
                decreases w - dx,
            {
                let cx: u32 = x + dx as u32;
                let cy: u32 = y + dy as u32;
                let mut t = self.tile(cx, cy);
                t.id = id;
                t.state = state::part(dx, dy);
                let ghost pre = self.tiles@;
                let ghost wd = self.width as int;
                self.set_tile(cx, cy, t);
                proof {
                    let ci = cell_index(wd, cx as int, cy as int);
                    let hd = self.height as int;
                    lemma_cell_index(wd, hd, cx as int, cy as int);
                    assert forall|ex: int, ey: int|
                        0 <= ex < w && 0 <= ey < dy implies (#[trigger] self.tiles@[cell_index(wd, x + ex, y + ey)]).id == id by {
                        lemma_cell_index(wd, hd, x + ex, y + ey);
                        if cell_index(wd, x + ex, y + ey) == ci {
                            lemma_cell_index_inj(wd, x + ex, y + ey, cx as int, cy as int);
                        }
                        assert(pre[cell_index(wd, x + ex, y + ey)].id == id);
                    }
                    assert(pre[ci] == t0[ci]);
                    assert forall|qx: int, qy: int|
                        0 <= qx < self.width && 0 <= qy < self.height implies #[trigger] self.tiles@[cell_index(
                            wd,
                            qx,
                            qy,
                        )] == if x <= qx < x + w && (y <= qy < y + dy || (qy == y + dy && qx < x + dx + 1)) {
                            World::written(t0[cell_index(wd, qx, qy)], id, qx - x, qy - y)
                        } else {
                            t0[cell_index(wd, qx, qy)]
                        } by {
                        lemma_cell_index(wd, hd, qx, qy);
                        if cell_index(wd, qx, qy) == ci {
                            lemma_cell_index_inj(wd, qx, qy, cx as int, cy as int);
                        }
                    }
                    assert forall|ex: int| 0 <= ex < dx + 1 implies (#[trigger] self.tiles@[cell_index(wd, x + ex, y + dy)]).id == id by {
                        lemma_cell_index(wd, hd, x + ex, y + dy);
                        if ex < dx {
                            if cell_index(wd, x + ex, y + dy) == ci {
                                lemma_cell_index_inj(wd, x + ex, y + dy, cx as int, cy as int);
                            }
                            assert(pre[cell_index(wd, x + ex, y + dy)].id == id);
                        }
                    }
                }
                dx = dx + 1;
            }
            dy = dy + 1;
        }
        proof {
            assert forall|ex: int, ey: int|
                0 <= ex < w && 0 <= ey < h implies (#[trigger] self.cell(x + ex, y + ey)).id == id by {
                assert(self.tiles@[cell_index(self.width as int, x + ex, y + ey)].id == id);
            }
            assert forall|cx: int, cy: int| old(self).spec_in_bounds(cx, cy) implies #[trigger] self.cell(
                cx,
                cy,
            ) == if World::in_footprint(x as int, y as int, id, cx, cy) {
                World::written(old(self).cell(cx, cy), id, cx - x, cy - y)
            } else {
                old(self).cell(cx, cy)
            } by {
                assert(self.tiles@[cell_index(self.width as int, cx, cy)] == self.cell(cx, cy));
            }
        }
        true
    }

    /// Origin (top-left) of the multi-tile object covering `(x, y)`, read
    /// from the cell's part position (clamped into the world).
    pub open spec fn spec_origin(&self, x: int, y: int) -> (u32, u32) {
        let s = self.cell(x, y).state;
        (
            (if x >= s % 8 { x - s % 8 } else { 0 }) as u32,
            (if y >= s % 64 / 8 { y - s % 64 / 8 } else { 0 }) as u32,
        )
    }

    /// Origin (top-left) of the multi-tile object covering `(x, y)`, read
    /// from the cell's part position (clamped into the world).
    pub fn multitile_origin(&self, x: u32, y: u32) -> (o: (u32, u32))
        requires
            self.wf(),
            self.spec_in_bounds(x as int, y as int),
        ensures
            o == self.spec_origin(x as int, y as int),
    {
        let s = self.tile(x, y).state;
        let c = state::part_col(s) as u32;
        let r = state::part_row(s) as u32;
        (if x >= c { x - c } else { 0 }, if y >= r { y - r } else { 0 })
    }
}

} // verus!
