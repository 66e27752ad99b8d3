//! Housing validity: the pure room checker and the scan-on-demand house
//! search.
//!
//! A house is validated by flood-filling from a candidate interior air cell.
//! The fill is 8-connected and blocked by solid tiles (closed doors are
//! solid) and by platforms, so a platform can seal a wall hole and an
//! *open* door leaks the fill.
//!
//! Search strategy: the world is never scanned wholesale. Candidate interior
//! cells are enumerated in expanding boxes around the town center, radii
//! 100 -> 200 -> 400 tiles. A shared visited grid means each connected air
//! region floods at most once per search.

use vstd::prelude::*;

use crate::items::{marked_indices, no_marks};
use crate::tiles::{spec_solid, TileId, WallId};
use crate::world::{cell_index, lemma_cell_index, lemma_cell_index_inj, World};

verus! {

/// Rule 1: the fill must terminate within this many interior cells.
pub const HOUSE_FILL_CAP: usize = 750;

/// Rule 1: the room must stay this many tiles away from the world edge.
pub const HOUSE_EDGE_MARGIN: u32 = 10;

/// Rule 2: total size (interior + boundary frame) bounds.
pub const HOUSE_MIN_TILES: usize = 60;

pub const HOUSE_MAX_TILES: usize = 750;

/// Rule 5: percentage of interior cells that need a background wall.
pub const HOUSE_WALL_COVERAGE_PERCENT: usize = 60;

/// Search radii (tiles) around the town center, tried in order.
pub const HOUSE_SEARCH_RADII: [u32; 3] = [100, 200, 400];

/// Which rule a candidate room failed.
#[derive(Debug, Clone, Copy, PartialEq, Eq, Structural)]
pub enum HousingError {
    /// The start cell isn't interior air.
    BadStart,
    /// Rule 1: flood fill exceeded [`HOUSE_FILL_CAP`] cells.
    FillTooLarge,
    /// Rule 1: the room touches a tile within 10 tiles of the world edge.
    TouchesWorldEdge,
    /// Rule 2: interior + frame under 60 tiles.
    TooSmall,
    /// Rule 2: interior + frame over 750 tiles.
    TooLarge,
    /// Rule 3: no door in the boundary.
    NoDoor,
    /// Rule 4: no light source (Torch/Furnace) inside.
    NoLight,
    /// Rule 4: no flat-surface item (Table/Workbench) inside.
    NoFlatSurface,
    /// Rule 4: no comfort item (Chair/Bed) inside.
    NoComfort,
    /// Rule 5: under 60% of interior cells have a background wall.
    LowWallCoverage,
    /// Rule 6: no 1x3 air column standing on solid floor free of doors.
    NoHomeTile,
}

/// A validated room.
#[derive(Debug, PartialEq, Eq)]
pub struct House {
    /// Every interior (non-blocking) cell the fill reached.
    pub interior: Vec<(u32, u32)>,
    /// The chosen home tile: the bottom cell of a 1x3 air column on solid
    /// floor (where the NPC stands).
    pub home: (u32, u32),
}

impl Clone for House {
    fn clone(&self) -> (h: House)
        ensures
            h.interior@ == self.interior@,
            h.home == self.home,
    {
        let mut interior: Vec<(u32, u32)> = Vec::new();
        let mut k: usize = 0;
        while k < self.interior.len()
            invariant
                k <= self.interior@.len(),
                interior@ == self.interior@.subrange(0, k as int),
            decreases self.interior@.len() - k,
        {
            interior.push(self.interior[k]);
            k = k + 1;
            proof {
                assert(interior@ =~= self.interior@.subrange(0, k as int));
            }
        }
        proof {
            assert(interior@ =~= self.interior@);
        }
        House { interior, home: self.home }
    }
}

impl House {
    pub fn contains(&self, cell: (u32, u32)) -> (r: bool)
        ensures
            r == self.interior@.contains(cell),
    {
        let mut i: usize = 0;
        while i < self.interior.len()
            invariant
                i <= self.interior@.len(),
                forall|k: int| 0 <= k < i ==> self.interior@[k] != cell,
            decreases self.interior@.len() - i,
        {
            let c = self.interior[i];
            if c.0 == cell.0 && c.1 == cell.1 {
                return true;
            }
            i = i + 1;
        }
        false
    }
}

// ---- The cell graph ---------------------------------------------------------
/// The cell blocks the fill: solid (closed doors are solid) or a platform.
pub open spec fn blocks(w: &World, c: (u32, u32)) -> bool {
    spec_solid(w.cell(c.0 as int, c.1 as int)) || w.cell(c.0 as int, c.1 as int).id == TileId::Platform
}

/// An in-world cell the fill can enter.
pub open spec fn open_cell(w: &World, c: (u32, u32)) -> bool {
    w.spec_in_bounds(c.0 as int, c.1 as int) && !blocks(w, c)
}

/// Distinct 8-neighbors.
pub open spec fn adjacent(a: (u32, u32), b: (u32, u32)) -> bool {
    &&& a != b
    &&& -1 <= a.0 - b.0 <= 1
    &&& -1 <= a.1 - b.1 <= 1
}

/// A walk through open cells, each step to an 8-neighbor.
pub open spec fn is_path(w: &World, p: Seq<(u32, u32)>) -> bool {
    &&& p.len() >= 1
    &&& forall|k: int| 0 <= k < p.len() ==> open_cell(w, #[trigger] p[k])
    &&& forall|k: int| 0 <= k < p.len() - 1 ==> adjacent(#[trigger] p[k], p[k + 1])
}

/// `c` is reachable from `s` through open cells.
pub open spec fn reaches(w: &World, s: (u32, u32), c: (u32, u32)) -> bool {
    exists|p: Seq<(u32, u32)>| is_path(w, p) && p[0] == s && #[trigger] p[p.len() - 1] == c
}

/// The connected region of open cells containing `s`.
pub open spec fn component(w: &World, s: (u32, u32)) -> Set<(u32, u32)> {
    Set::new(|c: (u32, u32)| reaches(w, s, c))
}

/// Within [`HOUSE_EDGE_MARGIN`] tiles of the world edge.
pub open spec fn near_edge(w: &World, c: (u32, u32)) -> bool {
    c.0 < 10 || c.1 < 10 || c.0 + 10 >= w.width || c.1 + 10 >= w.height
}

/// A one-cell walk.
pub proof fn lemma_reach_self(w: &World, s: (u32, u32))
    requires
        open_cell(w, s),
    ensures
        reaches(w, s, s),
{
    let p = seq![s];
    assert(is_path(w, p) && p[0] == s && p[p.len() - 1] == s);
}

/// Walks extend by one step.
pub proof fn lemma_reach_step(w: &World, s: (u32, u32), c: (u32, u32), n: (u32, u32))
    requires
        reaches(w, s, c),
        adjacent(c, n),
        open_cell(w, n),
    ensures
        reaches(w, s, n),
{
    let p = choose|p: Seq<(u32, u32)>| is_path(w, p) && p[0] == s && #[trigger] p[p.len() - 1] == c;
    let q = p.push(n);
    assert forall|k: int| 0 <= k < q.len() - 1 implies adjacent(#[trigger] q[k], q[k + 1]) by {
        if k < p.len() - 1 {
            assert(q[k] == p[k] && q[k + 1] == p[k + 1]);
        } else {
            assert(q[k] == c);
        }
    }
    assert forall|k: int| 0 <= k < q.len() implies open_cell(w, #[trigger] q[k]) by {
        if k < p.len() {
            assert(q[k] == p[k]);
        }
    }
    assert(is_path(w, q) && q[0] == s && q[q.len() - 1] == n);
}

/// A set of cells containing `s` and closed under open neighbors holds
/// everything reachable from `s`.
pub proof fn lemma_closed_holds_reachable(w: &World, r: Set<(u32, u32)>, s: (u32, u32), c: (u32, u32))
    requires
        r.contains(s),
        forall|a: (u32, u32), b: (u32, u32)|
            r.contains(a) && #[trigger] adjacent(a, b) && open_cell(w, b) ==> r.contains(b),
        reaches(w, s, c),
    ensures
        r.contains(c),
{
    let p = choose|p: Seq<(u32, u32)>| is_path(w, p) && p[0] == s && #[trigger] p[p.len() - 1] == c;
    lemma_closed_holds_path(w, r, p, p.len() - 1);
}

proof fn lemma_closed_holds_path(w: &World, r: Set<(u32, u32)>, p: Seq<(u32, u32)>, k: int)
    requires
        is_path(w, p),
        0 <= k < p.len(),
        r.contains(p[0]),
        forall|a: (u32, u32), b: (u32, u32)|
            r.contains(a) && #[trigger] adjacent(a, b) && open_cell(w, b) ==> r.contains(b),
    ensures
        r.contains(p[k]),
    decreases k,
{
    if k > 0 {
        lemma_closed_holds_path(w, r, p, k - 1);
        assert(adjacent(p[k - 1], p[k]));
        assert(open_cell(w, p[k]));
    }
}

// ---- Flood fill -------------------------------------------------------------
/// Bookkeeping of the fill: `seen` marks exactly the cells in `interior` or
/// on `stack`; both are duplicate-free, disjoint, open and reachable.
pub open spec fn fill_inv(
    w: &World,
    s: (u32, u32),
    seen: Seq<bool>,
    interior: Seq<(u32, u32)>,
    stack: Seq<(u32, u32)>,
) -> bool {
    &&& seen.len() == w.width * w.height
    &&& forall|c: (u32, u32)|
        w.spec_in_bounds(c.0 as int, c.1 as int) ==> (#[trigger] seen[cell_index(
            w.width as int,
            c.0 as int,
            c.1 as int,
        )] <==> (interior.contains(c) || stack.contains(c)))
    &&& interior.no_duplicates()
    &&& stack.no_duplicates()
    &&& forall|c: (u32, u32)| interior.contains(c) ==> !stack.contains(c)
    &&& forall|k: int|
        0 <= k < interior.len() ==> open_cell(w, #[trigger] interior[k]) && reaches(
            w,
            s,
            interior[k],
        )
    &&& forall|k: int| 0 <= k < stack.len() ==> open_cell(w, #[trigger] stack[k]) && reaches(w, s, stack[k])
}

/// The fill stack after the cell `b` is offered to it: pushed when open
/// and neither filled nor waiting yet.
pub open spec fn offer(w: &World, interior: Seq<(u32, u32)>, stack: Seq<(u32, u32)>, b: (u32, u32)) -> Seq<(u32, u32)> {
    if open_cell(w, b) && !interior.contains(b) && !stack.contains(b) {
        stack.push(b)
    } else {
        stack
    }
}

/// The fill stack after the 8 neighbors of `c` are offered to it, row by
/// row from the top-left.
pub open spec fn offer_neighbors(
    w: &World,
    interior: Seq<(u32, u32)>,
    stack: Seq<(u32, u32)>,
    c: (u32, u32),
) -> Seq<(u32, u32)> {
    let (l, r, u, d) = ((c.0 - 1) as u32, (c.0 + 1) as u32, (c.1 - 1) as u32, (c.1 + 1) as u32);
    let s1 = offer(w, interior, stack, (l, u));
    let s2 = offer(w, interior, s1, (c.0, u));
    let s3 = offer(w, interior, s2, (r, u));
    let s4 = offer(w, interior, s3, (l, c.1));
    let s5 = offer(w, interior, s4, (r, c.1));
    let s6 = offer(w, interior, s5, (l, d));
    let s7 = offer(w, interior, s6, (c.0, d));
    offer(w, interior, s7, (r, d))
}

/// The depth-first fill continued from `interior` and `stack` for at most
/// `fuel` more cells: take the top of the stack into the interior, stop
/// past [`HOUSE_FILL_CAP`] cells or near the world edge, else offer its
/// neighbors and go on; a dry stack closes the fill.
pub open spec fn fill_from(
    w: &World,
    interior: Seq<(u32, u32)>,
    stack: Seq<(u32, u32)>,
    fuel: nat,
) -> (Seq<(u32, u32)>, Seq<(u32, u32)>, FillStop)
    decreases fuel,
{
    if fuel == 0 || stack.len() == 0 {
        (interior, stack, FillStop::Closed)
    } else {
        let c = stack.last();
        let inn = interior.push(c);
        let st = stack.drop_last();
        if inn.len() > 750 {
            (inn, st, FillStop::Overflow)
        } else if near_edge(w, c) {
            (inn, st, FillStop::Edge)
        } else {
            fill_from(w, inn, offer_neighbors(w, inn, st, c), (fuel - 1) as nat)
        }
    }
}

/// The fill from `s`: its interior in the order cells were taken, the
/// cells still waiting when it stopped, and how it stopped.
pub open spec fn fill_result(w: &World, s: (u32, u32)) -> (Seq<(u32, u32)>, Seq<(u32, u32)>, FillStop) {
    fill_from(w, Seq::empty(), seq![s], 751)
}

/// Every open neighbor of each of the first `n` cells of `interior` is
/// seen.
pub open spec fn expanded_upto(w: &World, interior: Seq<(u32, u32)>, stack: Seq<(u32, u32)>, n: int) -> bool {
    forall|k: int, b: (u32, u32)|
        0 <= k < n && #[trigger] adjacent(interior[k], b) && open_cell(w, b) ==> (interior.contains(b)
            || stack.contains(b))
}

/// Does the cell block the fill?
fn blocks_fill(world: &World, x: u32, y: u32) -> (r: bool)
    requires
        world.wf(),
        world.spec_in_bounds(x as int, y as int),
    ensures
        r == blocks(world, (x, y)),
{
    let t = world.tile(x, y);
    t.is_solid() || t.is_platform()
}

/// Pushes the in-world neighbor `(nx, ny)` of the reached cell `c` onto the
/// fill stack when it is open and not seen yet.
fn fill_visit(
    world: &World,
    seen: &mut Vec<bool>,
    stack: &mut Vec<(u32, u32)>,
    Ghost(interior): Ghost<Seq<(u32, u32)>>,
    Ghost(s): Ghost<(u32, u32)>,
    c: (u32, u32),
    nx: u32,
    ny: u32,
)
    requires
        world.wf(),
        world.spec_in_bounds(nx as int, ny as int),
        adjacent(c, (nx, ny)),
        reaches(world, s, c),
        fill_inv(world, s, old(seen)@, interior, old(stack)@),
    ensures
        fill_inv(world, s, final(seen)@, interior, final(stack)@),
        final(stack)@ == offer(world, interior, old(stack)@, (nx, ny)),
        open_cell(world, (nx, ny)) ==> (interior.contains((nx, ny)) || final(stack)@.contains((nx, ny))),
        forall|b: (u32, u32)| old(stack)@.contains(b) ==> final(stack)@.contains(b),
        forall|b: (u32, u32)|
            final(stack)@.contains(b) ==> old(stack)@.contains(b) || b == (nx, ny),
{
    let i = world.idx(nx, ny);
    if blocks_fill(world, nx, ny) || seen[i] {
        proof {
            if open_cell(world, (nx, ny)) {
                assert(seen@[cell_index(world.width as int, nx as int, ny as int)]);
            }
        }
        return;
    }
    let ghost st0 = stack@;
    let ghost sn0 = seen@;
    proof {
        lemma_reach_step(world, s, c, (nx, ny));
        assert(!interior.contains((nx, ny)) && !st0.contains((nx, ny)));
    }
    seen.set(i, true);
    stack.push((nx, ny));
    proof {
        let nb = (nx, ny);
        assert(stack@[stack@.len() - 1] == nb);
        assert forall|b: (u32, u32)| st0.contains(b) implies stack@.contains(b) by {
            let k = choose|k: int| 0 <= k < st0.len() && st0[k] == b;
            assert(stack@[k] == b);
        }
        assert forall|b: (u32, u32)| stack@.contains(b) implies st0.contains(b) || b == nb by {
            let k = choose|k: int| 0 <= k < stack@.len() && stack@[k] == b;
            if k < st0.len() {
                assert(st0[k] == b);
            }
        }
        assert forall|cc: (u32, u32)|
            world.spec_in_bounds(cc.0 as int, cc.1 as int) implies (#[trigger] seen@[cell_index(
            world.width as int,
            cc.0 as int,
            cc.1 as int,
        )] <==> (interior.contains(cc) || stack@.contains(cc))) by {
            lemma_cell_index(world.width as int, world.height as int, cc.0 as int, cc.1 as int);
            lemma_cell_index(world.width as int, world.height as int, nx as int, ny as int);
            if cell_index(world.width as int, cc.0 as int, cc.1 as int) == i {
                lemma_cell_index_inj(world.width as int, cc.0 as int, cc.1 as int, nx as int, ny as int);
            }
        }
        assert forall|k: int, l: int|
            0 <= k < stack@.len() && 0 <= l < stack@.len() && k != l implies stack@[k] != stack@[l] by {
            if k == stack@.len() - 1 && l < st0.len() {
                assert(st0.contains(st0[l]));
            }
            if l == stack@.len() - 1 && k < st0.len() {
                assert(st0.contains(st0[k]));
            }
        }
    }
}

/// Outcome of the fill: how it stopped.
pub enum FillStop {
    /// The stack ran dry: `interior` is the whole region.
    Closed,
    /// The interior outgrew [`HOUSE_FILL_CAP`].
    Overflow,
    /// The fill reached a cell near the world edge.
    Edge,
}

/// Moving the top of the stack to the interior keeps the bookkeeping.
proof fn lemma_fill_pop(
    w: &World,
    s: (u32, u32),
    seen: Seq<bool>,
    in0: Seq<(u32, u32)>,
    st0: Seq<(u32, u32)>,
)
    requires
        fill_inv(w, s, seen, in0, st0),
        st0.len() > 0,
    ensures
        ({
            let c = st0[st0.len() - 1];
            let interior = in0.push(c);
            let stack = st0.drop_last();
            &&& fill_inv(w, s, seen, interior, stack)
            &&& forall|b: (u32, u32)| #[trigger] interior.contains(b) <==> (in0.contains(b) || b == c)
            &&& forall|b: (u32, u32)| #[trigger] stack.contains(b) <==> (st0.contains(b) && b != c)
            &&& expanded_upto(w, in0, st0, in0.len() as int) ==> expanded_upto(w, interior, stack, in0.len() as int)
            &&& (interior.contains(s) || stack.contains(s)) == (in0.contains(s) || st0.contains(s))
        }),
{
    let c = st0[st0.len() - 1];
    let interior = in0.push(c);
    let stack = st0.drop_last();
    assert(interior[interior.len() - 1] == c);
    assert forall|b: (u32, u32)| in0.contains(b) implies interior.contains(b) by {
        let k = choose|k: int| 0 <= k < in0.len() && in0[k] == b;
        assert(interior[k] == b);
    }
    assert forall|b: (u32, u32)| interior.contains(b) implies in0.contains(b) || b == c by {
        let k = choose|k: int| 0 <= k < interior.len() && interior[k] == b;
        if k < in0.len() {
            assert(in0[k] == b);
        }
    }
    assert forall|b: (u32, u32)| stack.contains(b) implies st0.contains(b) && b != c by {
        let k = choose|k: int| 0 <= k < stack.len() && stack[k] == b;
        assert(st0[k] == b);
    }
    assert forall|b: (u32, u32)| st0.contains(b) && b != c implies stack.contains(b) by {
        let k = choose|k: int| 0 <= k < st0.len() && st0[k] == b;
        assert(stack[k] == b);
    }
    assert(st0.contains(c));
    assert forall|k: int, l: int|
        0 <= k < interior.len() && 0 <= l < interior.len() && k != l implies interior[k] != interior[l] by {
        if k == interior.len() - 1 && l < in0.len() {
            assert(in0.contains(in0[l]));
        }
        if l == interior.len() - 1 && k < in0.len() {
            assert(in0.contains(in0[k]));
        }
    }
    assert forall|k: int| 0 <= k < interior.len() implies open_cell(w, #[trigger] interior[k])
        && reaches(w, s, interior[k]) by {
        if k < in0.len() {
            assert(interior[k] == in0[k]);
        }
    }
    if expanded_upto(w, in0, st0, in0.len() as int) {
        assert forall|k: int, b: (u32, u32)|
            0 <= k < in0.len() && #[trigger] adjacent(interior[k], b) && open_cell(w, b) implies (
            interior.contains(b) || stack.contains(b)) by {
            assert(interior[k] == in0[k]);
            assert(adjacent(in0[k], b));
        }
    }
}

/// Once the 8 neighbors of the newest interior cell are seen, it counts as
/// expanded.
proof fn lemma_fill_expand(
    w: &World,
    interior: Seq<(u32, u32)>,
    st1: Seq<(u32, u32)>,
    st2: Seq<(u32, u32)>,
)
    requires
        interior.len() > 0,
        expanded_upto(w, interior, st1, interior.len() - 1),
        forall|b: (u32, u32)| st1.contains(b) ==> #[trigger] st2.contains(b),
        forall|b: (u32, u32)|
            #[trigger] adjacent(interior[interior.len() - 1], b) && open_cell(w, b) ==> (
            interior.contains(b) || st2.contains(b)),
    ensures
        expanded_upto(w, interior, st2, interior.len() as int),
{
    assert forall|k: int, b: (u32, u32)|
        0 <= k < interior.len() && #[trigger] adjacent(interior[k], b) && open_cell(w, b) implies (
        interior.contains(b) || st2.contains(b)) by {
        if k < interior.len() - 1 {
            if st1.contains(b) {
                assert(st2.contains(b));
            }
        }
    }
}

/// The 8-connected flood fill from `start` (depth-first, stack order): it
/// stops at the first cell past the cap or near the world edge.
fn flood_fill(world: &World, start: (u32, u32)) -> (res: (Vec<(u32, u32)>, Vec<(u32, u32)>, Vec<bool>, FillStop))
    requires
        world.wf(),
        open_cell(world, start),
    ensures
        fill_inv(world, start, res.2@, res.0@, res.1@),
        (res.0@, res.1@, res.3) == fill_result(world, start),
        res.0@.contains(start) || res.1@.contains(start),
        res.3 is Closed ==> {
            &&& res.1@.len() == 0
            &&& expanded_upto(world, res.0@, res.1@, res.0@.len() as int)
            &&& res.0@.len() <= 750
            &&& forall|k: int| 0 <= k < res.0@.len() ==> !near_edge(world, #[trigger] res.0@[k])
            &&& res.0@.contains(start)
        },
        res.3 is Overflow ==> res.0@.len() > 750,
        res.3 is Edge ==> res.0@.len() > 0 && near_edge(world, res.0@[res.0@.len() - 1]),
{
    let n: usize = world.width as usize * world.height as usize;
    let mut seen = no_marks(n);
    let mut interior: Vec<(u32, u32)> = Vec::new();
    let mut stack: Vec<(u32, u32)> = Vec::new();
    let i0 = world.idx(start.0, start.1);
    seen.set(i0, true);
    stack.push(start);
    proof {
        lemma_reach_self(world, start);
        assert(stack@[0] == start);
        assert forall|c: (u32, u32)|
            world.spec_in_bounds(c.0 as int, c.1 as int) implies (#[trigger] seen@[cell_index(
            world.width as int,
            c.0 as int,
            c.1 as int,
        )] <==> (interior@.contains(c) || stack@.contains(c))) by {
            lemma_cell_index(world.width as int, world.height as int, c.0 as int, c.1 as int);
            if cell_index(world.width as int, c.0 as int, c.1 as int) == i0 {
                lemma_cell_index_inj(world.width as int, c.0 as int, c.1 as int, start.0 as int, start.1 as int);
            }
            if stack@.contains(c) {
                assert(stack@[0] == c);
            }
        }
    }
    let mut stop = FillStop::Closed;
    while matches!(stop, FillStop::Closed) && stack.len() > 0
        invariant
            world.wf(),
            fill_inv(world, start, seen@, interior@, stack@),
            interior@.contains(start) || stack@.contains(start),
            stop is Closed ==> {
                &&& expanded_upto(world, interior@, stack@, interior@.len() as int)
                &&& interior@.len() <= 750
                &&& forall|k: int| 0 <= k < interior@.len() ==> !near_edge(world, #[trigger] interior@[k])
            },
            stop is Overflow ==> interior@.len() > 750,
            stop is Edge ==> interior@.len() > 0 && near_edge(world, interior@[interior@.len() - 1]),
            stop is Closed ==> fill_from(world, interior@, stack@, (751 - interior@.len()) as nat)
                == fill_result(world, start),
            !(stop is Closed) ==> (interior@, stack@, stop) == fill_result(world, start),
        decreases
            world.width * world.height - interior@.len(),
            if stop is Closed { 1int } else { 0int },
    {
        let ghost st0 = stack@;
        let ghost in0 = interior@;
        proof {
            lemma_fill_pop(world, start, seen@, in0, st0);
        }
        let c = stack.pop().unwrap();
        interior.push(c);
        proof {
            assert(stack@ =~= st0.drop_last());
            assert(interior@ =~= in0.push(c));
            lemma_fill_bound(world, start, seen@, interior@, stack@);
        }
        let edge = (c.0 as u64) < 10 || (c.1 as u64) < 10 || c.0 as u64 + 10 >= world.width as u64
            || c.1 as u64 + 10 >= world.height as u64;
        let ghost fuel = (751 - in0.len()) as nat;
        proof {
            assert(fuel > 0);
            assert(st0.last() == c);
        }
        if interior.len() > HOUSE_FILL_CAP {
            stop = FillStop::Overflow;
            proof {
                assert(fill_from(world, in0, st0, fuel) == (interior@, stack@, FillStop::Overflow));
            }
        } else if edge {
            stop = FillStop::Edge;
            proof {
                assert(near_edge(world, c));
                assert(fill_from(world, in0, st0, fuel) == (interior@, stack@, FillStop::Edge));
            }
        } else {
            let (x, y) = c;
            let ghost inn = interior@;
            let ghost st1 = stack@;
            fill_visit(world, &mut seen, &mut stack, Ghost(inn), Ghost(start), c, x - 1, y - 1);
            fill_visit(world, &mut seen, &mut stack, Ghost(inn), Ghost(start), c, x, y - 1);
            fill_visit(world, &mut seen, &mut stack, Ghost(inn), Ghost(start), c, x + 1, y - 1);
            fill_visit(world, &mut seen, &mut stack, Ghost(inn), Ghost(start), c, x - 1, y);
            fill_visit(world, &mut seen, &mut stack, Ghost(inn), Ghost(start), c, x + 1, y);
            fill_visit(world, &mut seen, &mut stack, Ghost(inn), Ghost(start), c, x - 1, y + 1);
            fill_visit(world, &mut seen, &mut stack, Ghost(inn), Ghost(start), c, x, y + 1);
            fill_visit(world, &mut seen, &mut stack, Ghost(inn), Ghost(start), c, x + 1, y + 1);
            proof {
                assert(!near_edge(world, c));
                assert(stack@ == offer_neighbors(world, inn, st1, c));
                assert(fill_from(world, in0, st0, fuel) == fill_from(
                    world,
                    inn,
                    offer_neighbors(world, inn, st1, c),
                    (fuel - 1) as nat,
                ));
                assert forall|b: (u32, u32)|
                    #[trigger] adjacent(inn[inn.len() - 1], b) && open_cell(world, b) implies (
                    inn.contains(b) || stack@.contains(b)) by {
                    assert(inn[inn.len() - 1] == c);
                    assert(b.0 == x - 1 || b.0 == x || b.0 == x + 1);
                    assert(b.1 == y - 1 || b.1 == y || b.1 == y + 1);
                }
                lemma_fill_expand(world, inn, st1, stack@);
                assert forall|k: int| 0 <= k < interior@.len() implies !near_edge(world, #[trigger] interior@[k]) by {
                    if k < in0.len() {
                        assert(in0[k] == interior@[k]);
                    }
                }
            }
        }
    }
    proof {
        if stop is Closed {
            if !interior@.contains(start) {
                assert(stack@.contains(start));
            }
        }
    }
    (interior, stack, seen, stop)
}

/// The fill never holds more cells than the world has.
proof fn lemma_fill_bound(
    w: &World,
    s: (u32, u32),
    seen: Seq<bool>,
    interior: Seq<(u32, u32)>,
    stack: Seq<(u32, u32)>,
)
    requires
        w.wf(),
        fill_inv(w, s, seen, interior, stack),
    ensures
        interior.len() <= w.width * w.height,
{
    let idx = |c: (u32, u32)| cell_index(w.width as int, c.0 as int, c.1 as int);
    let m = interior.map_values(idx);
    assert forall|k: int, l: int| 0 <= k < m.len() && 0 <= l < m.len() && k != l implies m[k] != m[l] by {
        let a = interior[k];
        let b = interior[l];
        assert(open_cell(w, a) && open_cell(w, b));
        if m[k] == m[l] {
            lemma_cell_index_inj(w.width as int, a.0 as int, a.1 as int, b.0 as int, b.1 as int);
        }
    }
    let range = Set::new(|i: int| 0 <= i < w.width * w.height);
    assert forall|i: int| m.to_set().contains(i) implies range.contains(i) by {
        let k = choose|k: int| 0 <= k < m.len() && m[k] == i;
        let a = interior[k];
        assert(open_cell(w, a));
        lemma_cell_index(w.width as int, w.height as int, a.0 as int, a.1 as int);
    }
    vstd::set_lib::lemma_int_range(0, w.width * w.height);
    assert(range =~= vstd::set_lib::set_int_range(0, w.width * w.height));
    m.unique_seq_to_set();
    vstd::set_lib::lemma_len_subset(m.to_set(), range);
}

/// Rule 1 fails by size: more than [`HOUSE_FILL_CAP`] cells are reachable.
pub open spec fn fill_too_large(w: &World, s: (u32, u32)) -> bool {
    exists|q: Seq<(u32, u32)>|
        q.len() > 750 && q.no_duplicates() && forall|k: int|
            0 <= k < q.len() ==> #[trigger] reaches(w, s, q[k])
}

/// Rule 1 fails by position: a reachable cell is near the world edge.
pub open spec fn fill_touches_edge(w: &World, s: (u32, u32)) -> bool {
    exists|c: (u32, u32)| #[trigger] reaches(w, s, c) && near_edge(w, c)
}

// ---- Rules 2-6 over a room --------------------------------------------------
/// `f` belongs to the boundary frame of room `r`: an in-world blocking cell
/// 8-adjacent to a room cell.
pub open spec fn in_frame(w: &World, r: Set<(u32, u32)>, f: (u32, u32)) -> bool {
    &&& w.spec_in_bounds(f.0 as int, f.1 as int)
    &&& blocks(w, f)
    &&& exists|c: (u32, u32)| r.contains(c) && #[trigger] adjacent(c, f)
}

/// The boundary frame of room `r`.
pub open spec fn frame(w: &World, r: Set<(u32, u32)>) -> Set<(u32, u32)> {
    Set::new(|f: (u32, u32)| in_frame(w, r, f))
}

/// Rule 3: a door in the frame.
pub open spec fn has_door(w: &World, r: Set<(u32, u32)>) -> bool {
    exists|f: (u32, u32)| #[trigger] in_frame(w, r, f) && w.cell(f.0 as int, f.1 as int).id == TileId::Door
}

/// Rule 4: a room cell holding `a` or `b`.
pub open spec fn has_furniture(w: &World, r: Set<(u32, u32)>, a: TileId, b: TileId) -> bool {
    exists|c: (u32, u32)|
        #[trigger] r.contains(c) && (w.cell(c.0 as int, c.1 as int).id == a || w.cell(
            c.0 as int,
            c.1 as int,
        ).id == b)
}

/// Rule 5: the room cells with a background wall.
pub open spec fn walled(w: &World, r: Set<(u32, u32)>) -> Set<(u32, u32)> {
    r.filter(|c: (u32, u32)| w.cell(c.0 as int, c.1 as int).wall != WallId::Air)
}

/// Rule 6: `c` is the feet cell of a 1x3 in-room air column standing on
/// solid floor.
pub open spec fn is_home_tile(w: &World, r: Set<(u32, u32)>, c: (u32, u32)) -> bool {
    &&& c.1 >= 2
    &&& w.spec_is_solid(c.0 as int, c.1 + 1)
    &&& r.contains(c) && w.cell(c.0 as int, c.1 as int).id == TileId::Air
    &&& r.contains((c.0, (c.1 - 1) as u32)) && w.cell(c.0 as int, c.1 - 1).id == TileId::Air
    &&& r.contains((c.0, (c.1 - 2) as u32)) && w.cell(c.0 as int, c.1 - 2).id == TileId::Air
}

/// Home tile `a` is preferred over `b`: lower (larger y), then further left.
pub open spec fn home_before(a: (u32, u32), b: (u32, u32)) -> bool {
    a.1 > b.1 || (a.1 == b.1 && a.0 < b.0)
}

/// `h` is the preferred home tile of room `r`.
pub open spec fn best_home(w: &World, r: Set<(u32, u32)>, h: (u32, u32)) -> bool {
    is_home_tile(w, r, h) && forall|h2: (u32, u32)| #[trigger] is_home_tile(w, r, h2) ==> !home_before(h2, h)
}

/// Rules 2-6 applied in order to room `r`: the first rule it fails, or its
/// preferred home tile.
#[verifier::opaque]
pub open spec fn room_verdict(w: &World, r: Set<(u32, u32)>) -> Result<(u32, u32), HousingError> {
    let total = r.len() + frame(w, r).len();
    if total < 60 {
        Err(HousingError::TooSmall)
    } else if total > 750 {
        Err(HousingError::TooLarge)
    } else if !has_door(w, r) {
        Err(HousingError::NoDoor)
    } else if !has_furniture(w, r, TileId::Torch, TileId::Furnace) {
        Err(HousingError::NoLight)
    } else if !has_furniture(w, r, TileId::Table, TileId::Workbench) {
        Err(HousingError::NoFlatSurface)
    } else if !has_furniture(w, r, TileId::Chair, TileId::Bed) {
        Err(HousingError::NoComfort)
    } else if walled(w, r).len() * 100 < r.len() * 60 {
        Err(HousingError::LowWallCoverage)
    } else if !(exists|h: (u32, u32)| is_home_tile(w, r, h)) {
        Err(HousingError::NoHomeTile)
    } else {
        Ok(choose|h: (u32, u32)| best_home(w, r, h))
    }
}

/// At most one preferred home tile.
pub proof fn lemma_best_home_unique(w: &World, r: Set<(u32, u32)>, a: (u32, u32), b: (u32, u32))
    requires
        best_home(w, r, a),
        best_home(w, r, b),
    ensures
        a == b,
{
    assert(!home_before(a, b));
    assert(!home_before(b, a));
}

/// Cells of the no-duplicate `s` among its first `n` satisfying rule 5.
pub open spec fn count_walled(w: &World, s: Seq<(u32, u32)>, n: int) -> int
    decreases n,
{
    if n <= 0 {
        0
    } else {
        count_walled(w, s, n - 1) + (if w.cell(s[n - 1].0 as int, s[n - 1].1 as int).wall != WallId::Air {
            1int
        } else {
            0int
        })
    }
}

proof fn lemma_count_walled(w: &World, s: Seq<(u32, u32)>, n: int)
    requires
        s.no_duplicates(),
        0 <= n <= s.len(),
    ensures
        walled(w, s.take(n).to_set()).len() == count_walled(w, s, n),
        walled(w, s.take(n).to_set()).finite(),
    decreases n,
{
    let p = |c: (u32, u32)| w.cell(c.0 as int, c.1 as int).wall != WallId::Air;
    if n == 0 {
        assert(s.take(0).to_set() =~= Set::empty());
        assert(walled(w, s.take(0).to_set()) =~= Set::empty());
    } else {
        lemma_count_walled(w, s, n - 1);
        let t0 = s.take(n - 1);
        let t1 = s.take(n);
        let prev = t0.to_set();
        let x = s[n - 1];
        assert(s.take(n).to_set() =~= prev.insert(x)) by {
            assert forall|c: (u32, u32)| t1.to_set().contains(c) implies prev.insert(x).contains(c) by {
                let k = choose|k: int| 0 <= k < t1.len() && t1[k] == c;
                if k < n - 1 {
                    assert(t0[k] == c);
                }
            }
            assert forall|c: (u32, u32)| prev.insert(x).contains(c) implies t1.to_set().contains(c) by {
                if c == x {
                    assert(t1[n - 1] == x);
                } else {
                    let k = choose|k: int| 0 <= k < t0.len() && t0[k] == c;
                    assert(t1[k] == c);
                }
            }
        }
        assert(!prev.contains(x)) by {
            if prev.contains(x) {
                let k = choose|k: int| 0 <= k < t0.len() && t0[k] == x;
                assert(s[k] == s[n - 1]);
            }
        }
        if p(x) {
            assert(walled(w, prev.insert(x)) =~= walled(w, prev).insert(x));
        } else {
            assert(walled(w, prev.insert(x)) =~= walled(w, prev));
        }
    }
}

/// The cell is a room cell of air (`in_room` marks the room cells).
fn room_air(world: &World, in_room: &Vec<bool>, x: u32, y: u32) -> (r: bool)
    requires
        world.wf(),
        world.spec_in_bounds(x as int, y as int),
        in_room@.len() == world.width * world.height,
    ensures
        r == (in_room@[cell_index(world.width as int, x as int, y as int)] && world.cell(
            x as int,
            y as int,
        ).id == TileId::Air),
{
    let i = world.idx(x, y);
    in_room[i] && matches!(world.tile(x, y).id, TileId::Air)
}

/// Feet cell of a 1x3 in-room air column on solid floor (`in_room` marks
/// the room cells of the grid).
fn is_home_cell(world: &World, in_room: &Vec<bool>, x: u32, y: u32) -> (r: bool)
    requires
        world.wf(),
        world.spec_in_bounds(x as int, y as int),
        in_room@.len() == world.width * world.height,
    ensures
        r == (y >= 2 && world.spec_is_solid(x as int, y + 1) && in_room@[cell_index(
            world.width as int,
            x as int,
            y as int,
        )] && world.cell(x as int, y as int).id == TileId::Air && in_room@[cell_index(
            world.width as int,
            x as int,
            y - 1,
        )] && world.cell(x as int, y - 1).id == TileId::Air && in_room@[cell_index(
            world.width as int,
            x as int,
            y - 2,
        )] && world.cell(x as int, y - 2).id == TileId::Air),
{
    y >= 2 && world.is_solid(x as i64, y as i64 + 1) && room_air(world, in_room, x, y) && room_air(
        world,
        in_room,
        x,
        y - 1,
    ) && room_air(world, in_room, x, y - 2)
}

/// The room cells are in the world, open, and clear of the world edge.
pub open spec fn room_cells_ok(w: &World, interior: Seq<(u32, u32)>) -> bool {
    &&& interior.no_duplicates()
    &&& forall|k: int|
        0 <= k < interior.len() ==> open_cell(w, #[trigger] interior[k]) && !near_edge(w, interior[k])
}

/// Frame bookkeeping after the first `k` room cells: `fmark` marks exactly
/// `frame`, whose cells are distinct blocking neighbors of room cells
/// `0..m`, and which holds every blocking neighbor of room cells `0..k`;
/// `door` says whether it holds a door.
pub open spec fn frame_inv(
    w: &World,
    fmark: Seq<bool>,
    frame: Seq<(u32, u32)>,
    door: bool,
    interior: Seq<(u32, u32)>,
    k: int,
    m: int,
) -> bool {
    &&& fmark.len() == w.width * w.height
    &&& forall|f: (u32, u32)|
        w.spec_in_bounds(f.0 as int, f.1 as int) ==> (#[trigger] fmark[cell_index(
            w.width as int,
            f.0 as int,
            f.1 as int,
        )] <==> frame.contains(f))
    &&& frame.no_duplicates()
    &&& forall|j: int|
        0 <= j < frame.len() ==> w.spec_in_bounds(frame[j].0 as int, frame[j].1 as int) && blocks(
            w,
            #[trigger] frame[j],
        ) && exists|i: int| 0 <= i < m && adjacent(#[trigger] interior[i], frame[j])
    &&& forall|i: int, f: (u32, u32)|
        0 <= i < k && #[trigger] adjacent(interior[i], f) && w.spec_in_bounds(f.0 as int, f.1 as int)
            && blocks(w, f) ==> frame.contains(f)
    &&& door == exists|j: int|
        0 <= j < frame.len() && w.cell(frame[j].0 as int, frame[j].1 as int).id == TileId::Door
}

/// Adds the in-world neighbor `(nx, ny)` of room cell `k` to the frame when
/// it blocks and isn't there yet.
fn frame_visit(
    world: &World,
    fmark: &mut Vec<bool>,
    frame: &mut Vec<(u32, u32)>,
    door: &mut bool,
    Ghost(interior): Ghost<Seq<(u32, u32)>>,
    Ghost(k): Ghost<int>,
    nx: u32,
    ny: u32,
)
    requires
        world.wf(),
        0 <= k < interior.len(),
        world.spec_in_bounds(nx as int, ny as int),
        adjacent(interior[k], (nx, ny)),
        frame_inv(world, old(fmark)@, old(frame)@, *old(door), interior, k, k + 1),
    ensures
        frame_inv(world, final(fmark)@, final(frame)@, *final(door), interior, k, k + 1),
        blocks(world, (nx, ny)) ==> final(frame)@.contains((nx, ny)),
        forall|f: (u32, u32)| old(frame)@.contains(f) ==> #[trigger] final(frame)@.contains(f),
{
    let i = world.idx(nx, ny);
    if !blocks_fill(world, nx, ny) || fmark[i] {
        return;
    }
    let ghost f0 = frame@;
    let nb = (nx, ny);
    let is_door = matches!(world.tile(nx, ny).id, TileId::Door);
    fmark.set(i, true);
    frame.push(nb);
    *door = *door || is_door;
    proof {
        assert(frame@[frame@.len() - 1] == nb);
        assert(!f0.contains(nb));
        assert forall|f: (u32, u32)| f0.contains(f) implies #[trigger] frame@.contains(f) by {
            let j = choose|j: int| 0 <= j < f0.len() && f0[j] == f;
            assert(frame@[j] == f);
        }
        assert forall|f: (u32, u32)|
            world.spec_in_bounds(f.0 as int, f.1 as int) implies (#[trigger] fmark@[cell_index(
            world.width as int,
            f.0 as int,
            f.1 as int,
        )] <==> frame@.contains(f)) by {
            lemma_cell_index(world.width as int, world.height as int, f.0 as int, f.1 as int);
            lemma_cell_index(world.width as int, world.height as int, nx as int, ny as int);
            if cell_index(world.width as int, f.0 as int, f.1 as int) == i {
                lemma_cell_index_inj(world.width as int, f.0 as int, f.1 as int, nx as int, ny as int);
            }
            if frame@.contains(f) && f != nb {
                let j = choose|j: int| 0 <= j < frame@.len() && frame@[j] == f;
                assert(f0[j] == f);
            }
        }
        assert forall|a: int, b: int|
            0 <= a < frame@.len() && 0 <= b < frame@.len() && a != b implies frame@[a] != frame@[b] by {
            if a == frame@.len() - 1 && b < f0.len() {
                assert(f0.contains(f0[b]));
            }
            if b == frame@.len() - 1 && a < f0.len() {
                assert(f0.contains(f0[a]));
            }
        }
        assert forall|j: int|
            0 <= j < frame@.len() implies world.spec_in_bounds(frame@[j].0 as int, frame@[j].1 as int)
            && blocks(world, #[trigger] frame@[j]) && exists|i: int|
            0 <= i < k + 1 && adjacent(#[trigger] interior[i], frame@[j]) by {
            if j < f0.len() {
                assert(f0[j] == frame@[j]);
                assert(blocks(world, f0[j]));
            } else {
                assert(adjacent(interior[k], frame@[j]));
            }
        }
        if *door {
            if is_door {
                assert(world.cell(frame@[frame@.len() - 1].0 as int, frame@[frame@.len() - 1].1 as int).id
                    == TileId::Door);
            } else {
                let j = choose|j: int|
                    0 <= j < f0.len() && world.cell(f0[j].0 as int, f0[j].1 as int).id == TileId::Door;
                assert(frame@[j] == f0[j]);
            }
        }
        if exists|j: int|
            0 <= j < frame@.len() && world.cell(frame@[j].0 as int, frame@[j].1 as int).id == TileId::Door {
            let j = choose|j: int|
                0 <= j < frame@.len() && world.cell(frame@[j].0 as int, frame@[j].1 as int).id == TileId::Door;
            if j < f0.len() {
                assert(f0[j] == frame@[j]);
            }
        }
    }
}

/// Rules 2-3 inputs: the size of the room's boundary frame and whether it
/// holds a door.
fn room_frame(world: &World, interior: &Vec<(u32, u32)>) -> (res: (usize, bool))
    requires
        world.wf(),
        room_cells_ok(world, interior@),
    ensures
        res.0 == frame(world, interior@.to_set()).len(),
        res.1 == has_door(world, interior@.to_set()),
        frame(world, interior@.to_set()).finite(),
{
    let n: usize = world.width as usize * world.height as usize;
    let mut fmark = no_marks(n);
    let mut cells: Vec<(u32, u32)> = Vec::new();
    let mut door = false;
    let ghost inn = interior@;
    proof {
        assert forall|f: (u32, u32)|
            world.spec_in_bounds(f.0 as int, f.1 as int) implies (#[trigger] fmark@[cell_index(
            world.width as int,
            f.0 as int,
            f.1 as int,
        )] <==> cells@.contains(f)) by {
            lemma_cell_index(world.width as int, world.height as int, f.0 as int, f.1 as int);
        }
    }
    let mut k: usize = 0;
    while k < interior.len()
        invariant
            world.wf(),
            inn == interior@,
            room_cells_ok(world, inn),
            k <= inn.len(),
            frame_inv(world, fmark@, cells@, door, inn, k as int, k as int),
        decreases inn.len() - k,
    {
        let (x, y) = interior[k];
        proof {
            assert(open_cell(world, inn[k as int]) && !near_edge(world, inn[k as int]));
        }
        let ghost fr0 = cells@;
        frame_visit(world, &mut fmark, &mut cells, &mut door, Ghost(inn), Ghost(k as int), x - 1, y - 1);
        frame_visit(world, &mut fmark, &mut cells, &mut door, Ghost(inn), Ghost(k as int), x, y - 1);
        frame_visit(world, &mut fmark, &mut cells, &mut door, Ghost(inn), Ghost(k as int), x + 1, y - 1);
        frame_visit(world, &mut fmark, &mut cells, &mut door, Ghost(inn), Ghost(k as int), x - 1, y);
        frame_visit(world, &mut fmark, &mut cells, &mut door, Ghost(inn), Ghost(k as int), x + 1, y);
        frame_visit(world, &mut fmark, &mut cells, &mut door, Ghost(inn), Ghost(k as int), x - 1, y + 1);
        frame_visit(world, &mut fmark, &mut cells, &mut door, Ghost(inn), Ghost(k as int), x, y + 1);
        frame_visit(world, &mut fmark, &mut cells, &mut door, Ghost(inn), Ghost(k as int), x + 1, y + 1);
        proof {
            assert forall|i: int, f: (u32, u32)|
                0 <= i < k + 1 && #[trigger] adjacent(inn[i], f) && world.spec_in_bounds(f.0 as int, f.1 as int)
                    && blocks(world, f) implies cells@.contains(f) by {
                if i < k {
                    assert(fr0.contains(f));
                } else {
                    assert(f.0 == x - 1 || f.0 == x || f.0 == x + 1);
                    assert(f.1 == y - 1 || f.1 == y || f.1 == y + 1);
                }
            }
        }
        k = k + 1;
    }
    proof {
        let r = inn.to_set();
        assert(cells@.to_set() =~= frame(world, r)) by {
            assert forall|f: (u32, u32)| cells@.to_set().contains(f) implies in_frame(world, r, f) by {
                let j = choose|j: int| 0 <= j < cells@.len() && cells@[j] == f;
                assert(blocks(world, cells@[j]));
                let i = choose|i: int| 0 <= i < inn.len() && adjacent(#[trigger] inn[i], cells@[j]);
                assert(r.contains(inn[i]));
            }
            assert forall|f: (u32, u32)| in_frame(world, r, f) implies cells@.to_set().contains(f) by {
                let c = choose|c: (u32, u32)| r.contains(c) && #[trigger] adjacent(c, f);
                let i = choose|i: int| 0 <= i < inn.len() && inn[i] == c;
                assert(adjacent(inn[i], f));
            }
        }
        cells@.unique_seq_to_set();
        if door {
            let j = choose|j: int|
                0 <= j < cells@.len() && world.cell(cells@[j].0 as int, cells@[j].1 as int).id == TileId::Door;
            assert(cells@.to_set().contains(cells@[j]));
            assert(in_frame(world, r, cells@[j]));
        }
        if has_door(world, r) {
            let f = choose|f: (u32, u32)| #[trigger] in_frame(world, r, f) && world.cell(f.0 as int, f.1 as int).id
                == TileId::Door;
            assert(frame(world, r).contains(f));
            let j = choose|j: int| 0 <= j < cells@.len() && cells@[j] == f;
            assert(world.cell(cells@[j].0 as int, cells@[j].1 as int).id == TileId::Door);
        }
    }
    (cells.len(), door)
}

/// Rule 4: does a room cell hold `a` or `b`?
fn room_furniture(world: &World, interior: &Vec<(u32, u32)>, a: TileId, b: TileId) -> (r: bool)
    requires
        world.wf(),
        room_cells_ok(world, interior@),
    ensures
        r == has_furniture(world, interior@.to_set(), a, b),
{
    let mut k: usize = 0;
    while k < interior.len()
        invariant
            world.wf(),
            room_cells_ok(world, interior@),
            k <= interior@.len(),
            forall|j: int|
                0 <= j < k ==> !(world.cell(interior@[j].0 as int, interior@[j].1 as int).id == a
                    || world.cell(interior@[j].0 as int, interior@[j].1 as int).id == b),
        decreases interior@.len() - k,
    {
        let (x, y) = interior[k];
        proof {
            assert(open_cell(world, interior@[k as int]));
        }
        let id = world.tile(x, y).id;
        if id == a || id == b {
            proof {
                assert(interior@.to_set().contains(interior@[k as int]));
            }
            return true;
        }
        k = k + 1;
    }
    proof {
        if has_furniture(world, interior@.to_set(), a, b) {
            let c = choose|c: (u32, u32)|
                #[trigger] interior@.to_set().contains(c) && (world.cell(c.0 as int, c.1 as int).id == a
                    || world.cell(c.0 as int, c.1 as int).id == b);
            let j = choose|j: int| 0 <= j < interior@.len() && interior@[j] == c;
            assert(false);
        }
    }
    false
}

/// Rule 5: how many room cells have a background wall.
fn room_walled(world: &World, interior: &Vec<(u32, u32)>) -> (r: usize)
    requires
        world.wf(),
        room_cells_ok(world, interior@),
    ensures
        r == walled(world, interior@.to_set()).len(),
        r <= interior@.len(),
{
    let mut count: usize = 0;
    let mut k: usize = 0;
    while k < interior.len()
        invariant
            world.wf(),
            room_cells_ok(world, interior@),
            k <= interior@.len(),
            count == count_walled(world, interior@, k as int),
            count <= k,
        decreases interior@.len() - k,
    {
        let (x, y) = interior[k];
        proof {
            assert(open_cell(world, interior@[k as int]));
        }
        if !matches!(world.tile(x, y).wall, WallId::Air) {
            count = count + 1;
        }
        k = k + 1;
    }
    proof {
        lemma_count_walled(world, interior@, interior@.len() as int);
        assert(interior@.take(interior@.len() as int) =~= interior@);
    }
    count
}

/// Rule 6: the preferred home tile among the room cells, if any
/// (`in_room` marks exactly the room cells).
fn room_home(world: &World, interior: &Vec<(u32, u32)>, in_room: &Vec<bool>) -> (r: Option<(u32, u32)>)
    requires
        world.wf(),
        room_cells_ok(world, interior@),
        in_room@.len() == world.width * world.height,
        forall|c: (u32, u32)|
            world.spec_in_bounds(c.0 as int, c.1 as int) ==> (#[trigger] in_room@[cell_index(
                world.width as int,
                c.0 as int,
                c.1 as int,
            )] <==> interior@.contains(c)),
    ensures
        r is None <==> !(exists|h: (u32, u32)| is_home_tile(world, interior@.to_set(), h)),
        r matches Some(h) ==> best_home(world, interior@.to_set(), h),
{
    let ghost room = interior@.to_set();
    let mut best: Option<(u32, u32)> = None;
    let mut k: usize = 0;
    while k < interior.len()
        invariant
            world.wf(),
            room_cells_ok(world, interior@),
            room == interior@.to_set(),
            in_room@.len() == world.width * world.height,
            forall|c: (u32, u32)|
                world.spec_in_bounds(c.0 as int, c.1 as int) ==> (#[trigger] in_room@[cell_index(
                    world.width as int,
                    c.0 as int,
                    c.1 as int,
                )] <==> interior@.contains(c)),
            k <= interior@.len(),
            best is None ==> forall|j: int| 0 <= j < k ==> !is_home_tile(world, room, #[trigger] interior@[j]),
            best matches Some(b) ==> is_home_tile(world, room, b) && forall|j: int|
                0 <= j < k && is_home_tile(world, room, #[trigger] interior@[j]) ==> !home_before(
                    interior@[j],
                    b,
                ),
        decreases interior@.len() - k,
    {
        let (x, y) = interior[k];
        let c = (x, y);
        proof {
            assert(open_cell(world, interior@[k as int]));
        }
        let home = is_home_cell(world, in_room, x, y);
        proof {
            assert(interior@.contains(c));
            if y >= 2 {
                let c1 = (x, (y - 1) as u32);
                let c2 = (x, (y - 2) as u32);
                assert(world.spec_in_bounds(c1.0 as int, c1.1 as int));
                assert(world.spec_in_bounds(c2.0 as int, c2.1 as int));
                assert(in_room@[cell_index(world.width as int, c1.0 as int, c1.1 as int)] <==> interior@.contains(c1));
                assert(in_room@[cell_index(world.width as int, c2.0 as int, c2.1 as int)] <==> interior@.contains(c2));
                assert(in_room@[cell_index(world.width as int, c.0 as int, c.1 as int)] <==> interior@.contains(c));
                assert(c1.1 as int == y - 1);
                assert(c2.1 as int == y - 2);
            }
            assert(home == is_home_tile(world, room, c));
        }
        if home {
            let better = match best {
                None => true,
                Some(b) => y > b.1 || (y == b.1 && x < b.0),
            };
            if better {
                best = Some(c);
            }
        }
        proof {
            assert(interior@[k as int] == c);
            if let Some(b) = best {
                assert forall|j: int|
                    0 <= j < k + 1 && is_home_tile(world, room, #[trigger] interior@[j]) implies !home_before(
                    interior@[j],
                    b,
                ) by {
                    if j == k {
                        if b != c {
                        }
                    } else {
                        if interior@[j] == b {
                        }
                    }
                }
            }
        }
        k = k + 1;
    }
    proof {
        if exists|h: (u32, u32)| is_home_tile(world, room, h) {
            let h = choose|h: (u32, u32)| is_home_tile(world, room, h);
            let j = choose|j: int| 0 <= j < interior@.len() && interior@[j] == h;
            assert(is_home_tile(world, room, interior@[j]));
        }
        if let Some(b) = best {
            assert forall|h2: (u32, u32)| #[trigger] is_home_tile(world, room, h2) implies !home_before(h2, b) by {
                let j = choose|j: int| 0 <= j < interior@.len() && interior@[j] == h2;
                assert(is_home_tile(world, room, interior@[j]));
            }
        }
    }
    best
}

/// What [`check_house_visited`] answers for an open start cell: rule 1 via
/// the fill, then rules 2-6 over the start's region.
#[verifier::opaque]
pub open spec fn house_result(w: &World, s: (u32, u32), res: Result<House, HousingError>) -> bool {
    &&& (res matches Err(HousingError::FillTooLarge) || res matches Err(HousingError::TouchesWorldEdge))
        <==> (fill_too_large(w, s) || fill_touches_edge(w, s))
    &&& res matches Err(HousingError::FillTooLarge) ==> fill_too_large(w, s)
    &&& res matches Err(HousingError::TouchesWorldEdge) ==> fill_touches_edge(w, s)
    &&& !(fill_too_large(w, s) || fill_touches_edge(w, s)) ==> match res {
        Ok(h) => {
            &&& h.interior@.no_duplicates()
            &&& h.interior@.to_set() == component(w, s)
            &&& room_verdict(w, component(w, s)) == Ok::<(u32, u32), HousingError>(h.home)
            &&& best_home(w, component(w, s), h.home)
        },
        Err(e) => room_verdict(w, component(w, s)) == Err::<(u32, u32), HousingError>(e),
    }
}

/// Validates the room containing `start` against rules 1-6 (rule 7 — no
/// other NPC assigned to the room — needs the NPC roster and is checked by
/// the caller). Also marks every cell the fill saw in `visited`, so a wider
/// search never re-floods the same region; failed fills record too.
pub fn check_house_visited(world: &World, start: (u32, u32), visited: &mut Vec<bool>) -> (res: Result<
    House,
    HousingError,
>)
    requires
        world.wf(),
        old(visited)@.len() == world.width * world.height,
    ensures
        final(visited)@.len() == old(visited)@.len(),
        forall|i: int| 0 <= i < old(visited)@.len() && old(visited)@[i] ==> final(visited)@[i],
        forall|c: (u32, u32)|
            world.spec_in_bounds(c.0 as int, c.1 as int) && #[trigger] final(visited)@[cell_index(
                world.width as int,
                c.0 as int,
                c.1 as int,
            )] && !old(visited)@[cell_index(world.width as int, c.0 as int, c.1 as int)]
                ==> reaches(world, start, c),
        open_cell(world, start) ==> final(visited)@[cell_index(
            world.width as int,
            start.0 as int,
            start.1 as int,
        )],
        open_cell(world, start) && !fill_too_large(world, start) && !fill_touches_edge(world, start)
            ==> forall|c: (u32, u32)|
            #[trigger] reaches(world, start, c) ==> final(visited)@[cell_index(
                world.width as int,
                c.0 as int,
                c.1 as int,
            )],
        open_cell(world, start) ==> forall|c: (u32, u32)|
            world.spec_in_bounds(c.0 as int, c.1 as int) ==> (#[trigger] final(visited)@[cell_index(
                world.width as int,
                c.0 as int,
                c.1 as int,
            )] <==> (old(visited)@[cell_index(world.width as int, c.0 as int, c.1 as int)]
                || fill_result(world, start).0.contains(c) || fill_result(world, start).1.contains(c))),
        !open_cell(world, start) ==> res matches Err(HousingError::BadStart),
        open_cell(world, start) ==> house_result(world, start, res),
        open_cell(world, start) ==> (res matches Err(HousingError::FillTooLarge) <==> fill_result(
            world,
            start,
        ).2 is Overflow),
        open_cell(world, start) ==> (res matches Err(HousingError::TouchesWorldEdge) <==> fill_result(
            world,
            start,
        ).2 is Edge),
        res matches Ok(h) ==> h.interior@ == fill_result(world, start).0,
{
    reveal(house_result);
    reveal(room_verdict);
    if !world.in_bounds(start.0, start.1) || blocks_fill(world, start.0, start.1) {
        return Err(HousingError::BadStart);
    }
    let (interior, stack, seen, stop) = flood_fill(world, start);
    // Record the fill in `visited`.
    let ghost v0 = visited@;
    mark_cells(world, start, &interior, visited);
    let ghost v1 = visited@;
    mark_cells(world, start, &stack, visited);
    proof {
        assert forall|c: (u32, u32)| world.spec_in_bounds(c.0 as int, c.1 as int) implies (
        #[trigger] visited@[cell_index(world.width as int, c.0 as int, c.1 as int)] <==> (v0[cell_index(
            world.width as int,
            c.0 as int,
            c.1 as int,
        )] || interior@.contains(c) || stack@.contains(c))) by {
            lemma_cell_index(world.width as int, world.height as int, c.0 as int, c.1 as int);
            if interior@.contains(c) {
                let k = choose|k: int| 0 <= k < interior@.len() && interior@[k] == c;
                assert(v1[cell_index(world.width as int, interior@[k].0 as int, interior@[k].1 as int)]);
            }
            if stack@.contains(c) {
                let k = choose|k: int| 0 <= k < stack@.len() && stack@[k] == c;
                assert(visited@[cell_index(world.width as int, stack@[k].0 as int, stack@[k].1 as int)]);
            }
        }
        assert forall|c: (u32, u32)|
            world.spec_in_bounds(c.0 as int, c.1 as int) && #[trigger] visited@[cell_index(
                world.width as int,
                c.0 as int,
                c.1 as int,
            )] && !v0[cell_index(world.width as int, c.0 as int, c.1 as int)] implies reaches(world, start, c) by {
            lemma_cell_index(world.width as int, world.height as int, c.0 as int, c.1 as int);
            if v1[cell_index(world.width as int, c.0 as int, c.1 as int)] {
            }
        }
        lemma_cell_index(world.width as int, world.height as int, start.0 as int, start.1 as int);
        if interior@.contains(start) {
            let j = choose|j: int| 0 <= j < interior@.len() && interior@[j] == start;
            assert(v1[cell_index(world.width as int, interior@[j].0 as int, interior@[j].1 as int)]);
        } else {
            let j = choose|j: int| 0 <= j < stack@.len() && stack@[j] == start;
            assert(visited@[cell_index(world.width as int, stack@[j].0 as int, stack@[j].1 as int)]);
        }
    }
    match stop {
        FillStop::Overflow => {
            proof {
                assert forall|k: int| 0 <= k < interior@.len() implies #[trigger] reaches(world, start, interior@[k]) by {
                    assert(open_cell(world, interior@[k]) && reaches(world, start, interior@[k]));
                }
                assert(fill_too_large(world, start));
            }
            return Err(HousingError::FillTooLarge);
        },
        FillStop::Edge => {
            proof {
                let c = interior@[interior@.len() - 1];
                assert(open_cell(world, c) && reaches(world, start, c));
                assert(fill_touches_edge(world, start));
            }
            return Err(HousingError::TouchesWorldEdge);
        },
        FillStop::Closed => {},
    }
    let ghost room = interior@.to_set();
    proof {
        // The fill closed: the interior is exactly the start's region, and
        // rule 1 holds.
        assert forall|a: (u32, u32), b: (u32, u32)|
            room.contains(a) && #[trigger] adjacent(a, b) && open_cell(world, b) implies room.contains(b) by {
            let k = choose|k: int| 0 <= k < interior@.len() && interior@[k] == a;
            assert(adjacent(interior@[k], b));
        }
        assert(room =~= component(world, start)) by {
            assert forall|c: (u32, u32)| room.contains(c) implies reaches(world, start, c) by {
                let k = choose|k: int| 0 <= k < interior@.len() && interior@[k] == c;
                assert(open_cell(world, interior@[k]) && reaches(world, start, interior@[k]));
            }
            assert forall|c: (u32, u32)| reaches(world, start, c) implies room.contains(c) by {
                lemma_closed_holds_reachable(world, room, start, c);
            }
        }
        interior@.unique_seq_to_set();
        if fill_too_large(world, start) {
            let q = choose|q: Seq<(u32, u32)>|
                q.len() > 750 && q.no_duplicates() && forall|k: int|
                    0 <= k < q.len() ==> #[trigger] reaches(world, start, q[k]);
            assert forall|c: (u32, u32)| q.to_set().contains(c) implies room.contains(c) by {
                let k = choose|k: int| 0 <= k < q.len() && q[k] == c;
                assert(reaches(world, start, q[k]));
            }
            q.unique_seq_to_set();
            vstd::set_lib::lemma_len_subset(q.to_set(), room);
            assert(false);
        }
        if fill_touches_edge(world, start) {
            let c = choose|c: (u32, u32)| #[trigger] reaches(world, start, c) && near_edge(world, c);
            assert(room.contains(c));
            let k = choose|k: int| 0 <= k < interior@.len() && interior@[k] == c;
            assert(!near_edge(world, interior@[k]));
            assert(false);
        }
        assert forall|k: int| 0 <= k < interior@.len() implies open_cell(world, #[trigger] interior@[k])
            && !near_edge(world, interior@[k]) by {
            assert(open_cell(world, interior@[k]) && reaches(world, start, interior@[k]));
        }
        assert(room_cells_ok(world, interior@));
        assert forall|c: (u32, u32)| #[trigger] reaches(world, start, c) implies visited@[cell_index(
            world.width as int,
            c.0 as int,
            c.1 as int,
        )] by {
            assert(room.contains(c));
            let k = choose|k: int| 0 <= k < interior@.len() && interior@[k] == c;
            lemma_cell_index(world.width as int, world.height as int, c.0 as int, c.1 as int);
            assert(v1[cell_index(world.width as int, interior@[k].0 as int, interior@[k].1 as int)]);
        }
    }
    // Rule 2: total size bounds.
    let (frame_len, door) = room_frame(world, &interior);
    if frame_len > HOUSE_MAX_TILES {
        return Err(HousingError::TooLarge);
    }
    let total: usize = interior.len() + frame_len;
    if total < HOUSE_MIN_TILES {
        return Err(HousingError::TooSmall);
    }
    if total > HOUSE_MAX_TILES {
        return Err(HousingError::TooLarge);
    }
    // Rule 3: a door in the boundary.
    if !door {
        return Err(HousingError::NoDoor);
    }
    // Rule 4: light / flat surface / comfort inside.
    if !room_furniture(world, &interior, TileId::Torch, TileId::Furnace) {
        return Err(HousingError::NoLight);
    }
    if !room_furniture(world, &interior, TileId::Table, TileId::Workbench) {
        return Err(HousingError::NoFlatSurface);
    }
    if !room_furniture(world, &interior, TileId::Chair, TileId::Bed) {
        return Err(HousingError::NoComfort);
    }
    // Rule 5: >= 60% wall coverage of the interior.
    let walled = room_walled(world, &interior);
    if walled * 100 < interior.len() * HOUSE_WALL_COVERAGE_PERCENT {
        return Err(HousingError::LowWallCoverage);
    }
    // Rule 6: a home tile, the bottom-most then left-most.
    proof {
        assert forall|c: (u32, u32)|
            world.spec_in_bounds(c.0 as int, c.1 as int) implies (#[trigger] seen@[cell_index(
                world.width as int,
                c.0 as int,
                c.1 as int,
            )] <==> interior@.contains(c)) by {
            if stack@.contains(c) {
                let j = choose|j: int| 0 <= j < stack@.len() && stack@[j] == c;
            }
        }
    }
    let home = match room_home(world, &interior, &seen) {
        Some(h) => h,
        None => {
            return Err(HousingError::NoHomeTile);
        },
    };
    proof {
        let h2 = choose|h: (u32, u32)| best_home(world, room, h);
        lemma_best_home_unique(world, room, home, h2);
    }
    Ok(House { interior, home })
}

/// Validates the room containing `start` (rules 1-6), without a shared
/// visited grid.
pub fn check_house(world: &World, start: (u32, u32)) -> (res: Result<House, HousingError>)
    requires
        world.wf(),
    ensures
        !open_cell(world, start) ==> res matches Err(HousingError::BadStart),
        open_cell(world, start) ==> house_result(world, start, res),
        open_cell(world, start) ==> (res matches Err(HousingError::FillTooLarge) <==> fill_result(
            world,
            start,
        ).2 is Overflow),
        open_cell(world, start) ==> (res matches Err(HousingError::TouchesWorldEdge) <==> fill_result(
            world,
            start,
        ).2 is Edge),
        res matches Ok(h) ==> h.interior@ == fill_result(world, start).0,
{
    let n: usize = world.width as usize * world.height as usize;
    let mut visited = no_marks(n);
    check_house_visited(world, start, &mut visited)
}

/// Marks the grid cells of `cells` (open cells reachable from `start`) in
/// `visited`.
fn mark_cells(world: &World, start: (u32, u32), cells: &Vec<(u32, u32)>, visited: &mut Vec<bool>)
    requires
        world.wf(),
        old(visited)@.len() == world.width * world.height,
        forall|k: int|
            0 <= k < cells@.len() ==> open_cell(world, #[trigger] cells@[k]) && reaches(world, start, cells@[k]),
    ensures
        final(visited)@.len() == old(visited)@.len(),
        forall|i: int| 0 <= i < old(visited)@.len() && old(visited)@[i] ==> final(visited)@[i],
        forall|c: (u32, u32)|
            world.spec_in_bounds(c.0 as int, c.1 as int) && #[trigger] final(visited)@[cell_index(
                world.width as int,
                c.0 as int,
                c.1 as int,
            )] && !old(visited)@[cell_index(world.width as int, c.0 as int, c.1 as int)]
                ==> reaches(world, start, c) && cells@.contains(c),
        forall|k: int|
            0 <= k < cells@.len() ==> final(visited)@[cell_index(
                world.width as int,
                (#[trigger] cells@[k]).0 as int,
                cells@[k].1 as int,
            )],
{
    let ghost v0 = visited@;
    let mut k: usize = 0;
    while k < cells.len()
        invariant
            world.wf(),
            visited@.len() == v0.len(),
            v0.len() == world.width * world.height,
            k <= cells@.len(),
            forall|j: int|
                0 <= j < cells@.len() ==> open_cell(world, #[trigger] cells@[j]) && reaches(world, start, cells@[j]),
            forall|i: int| 0 <= i < v0.len() && v0[i] ==> visited@[i],
            forall|c: (u32, u32)|
                world.spec_in_bounds(c.0 as int, c.1 as int) && #[trigger] visited@[cell_index(
                    world.width as int,
                    c.0 as int,
                    c.1 as int,
                )] && !v0[cell_index(world.width as int, c.0 as int, c.1 as int)] ==> reaches(world, start, c)
                    && cells@.contains(c),
            forall|j: int|
                0 <= j < k ==> visited@[cell_index(
                    world.width as int,
                    (#[trigger] cells@[j]).0 as int,
                    cells@[j].1 as int,
                )],
        decreases cells@.len() - k,
    {
        let c = cells[k];
        proof {
            assert(open_cell(world, cells@[k as int]));
        }
        let i = world.idx(c.0, c.1);
        let ghost vb = visited@;
        visited.set(i, true);
        proof {
            assert forall|cc: (u32, u32)|
                world.spec_in_bounds(cc.0 as int, cc.1 as int) && #[trigger] visited@[cell_index(
                    world.width as int,
                    cc.0 as int,
                    cc.1 as int,
                )] && !v0[cell_index(world.width as int, cc.0 as int, cc.1 as int)] implies reaches(world, start, cc)
                && cells@.contains(cc) by {
                lemma_cell_index(world.width as int, world.height as int, cc.0 as int, cc.1 as int);
                if cell_index(world.width as int, cc.0 as int, cc.1 as int) == i {
                    lemma_cell_index_inj(world.width as int, cc.0 as int, cc.1 as int, c.0 as int, c.1 as int);
                    assert(cells@[k as int] == cc);
                } else {
                    assert(vb[cell_index(world.width as int, cc.0 as int, cc.1 as int)]);
                }
            }
            assert forall|j: int|
                0 <= j < k + 1 implies visited@[cell_index(
                    world.width as int,
                    (#[trigger] cells@[j]).0 as int,
                    cells@[j].1 as int,
                )] by {
                assert(open_cell(world, cells@[j]));
                lemma_cell_index(world.width as int, world.height as int, cells@[j].0 as int, cells@[j].1 as int);
            }
        }
        k = k + 1;
    }
}

/// Walks reverse.
pub proof fn lemma_reach_symmetric(w: &World, s: (u32, u32), c: (u32, u32))
    requires
        reaches(w, s, c),
    ensures
        reaches(w, c, s),
{
    let p = choose|p: Seq<(u32, u32)>| is_path(w, p) && p[0] == s && #[trigger] p[p.len() - 1] == c;
    let q = p.reverse();
    assert forall|k: int| 0 <= k < q.len() implies open_cell(w, #[trigger] q[k]) by {
        assert(q[k] == p[p.len() - 1 - k]);
    }
    assert forall|k: int| 0 <= k < q.len() - 1 implies adjacent(#[trigger] q[k], q[k + 1]) by {
        let i = p.len() - 2 - k;
        assert(adjacent(p[i], p[i + 1]));
        assert(q[k] == p[i + 1] && q[k + 1] == p[i]);
    }
    assert(is_path(w, q) && q[0] == c && q[q.len() - 1] == s);
}

/// Walks chain.
pub proof fn lemma_reach_trans(w: &World, s: (u32, u32), c: (u32, u32), d: (u32, u32))
    requires
        reaches(w, s, c),
        reaches(w, c, d),
    ensures
        reaches(w, s, d),
{
    let p = choose|p: Seq<(u32, u32)>| is_path(w, p) && p[0] == s && #[trigger] p[p.len() - 1] == c;
    let q = choose|q: Seq<(u32, u32)>| is_path(w, q) && q[0] == c && #[trigger] q[q.len() - 1] == d;
    let r = p + q.drop_first();
    assert forall|k: int| 0 <= k < r.len() implies open_cell(w, #[trigger] r[k]) by {
        if k < p.len() {
            assert(r[k] == p[k]);
        } else {
            assert(r[k] == q[k - p.len() + 1]);
        }
    }
    assert forall|k: int| 0 <= k < r.len() - 1 implies adjacent(#[trigger] r[k], r[k + 1]) by {
        if k < p.len() - 1 {
            assert(r[k] == p[k] && r[k + 1] == p[k + 1]);
        } else if k == p.len() - 1 {
            assert(r[k] == c && r[k + 1] == q[1]);
            assert(adjacent(q[0], q[1]));
        } else {
            let i = k - p.len() + 1;
            assert(r[k] == q[i] && r[k + 1] == q[i + 1]);
        }
    }
    if q.len() == 1 {
        assert(r =~= p);
    }
    assert(r[r.len() - 1] == d);
}

/// Cells of one region see the same region.
pub proof fn lemma_same_region(w: &World, s: (u32, u32), c: (u32, u32))
    requires
        reaches(w, s, c),
    ensures
        component(w, c) == component(w, s),
        fill_too_large(w, c) == fill_too_large(w, s),
        fill_touches_edge(w, c) == fill_touches_edge(w, s),
        forall|d: (u32, u32)| reaches(w, c, d) == reaches(w, s, d),
{
    lemma_reach_symmetric(w, s, c);
    assert forall|d: (u32, u32)| reaches(w, c, d) == reaches(w, s, d) by {
        if reaches(w, c, d) {
            lemma_reach_trans(w, s, c, d);
        }
        if reaches(w, s, d) {
            lemma_reach_trans(w, c, s, d);
        }
    }
    assert(component(w, c) =~= component(w, s));
    if fill_too_large(w, s) {
        let q = choose|q: Seq<(u32, u32)>|
            q.len() > 750 && q.no_duplicates() && forall|k: int|
                0 <= k < q.len() ==> #[trigger] reaches(w, s, q[k]);
        assert forall|k: int| 0 <= k < q.len() implies #[trigger] reaches(w, c, q[k]) by {
            assert(reaches(w, s, q[k]));
        }
    }
    if fill_too_large(w, c) {
        let q = choose|q: Seq<(u32, u32)>|
            q.len() > 750 && q.no_duplicates() && forall|k: int|
                0 <= k < q.len() ==> #[trigger] reaches(w, c, q[k]);
        assert forall|k: int| 0 <= k < q.len() implies #[trigger] reaches(w, s, q[k]) by {
            assert(reaches(w, c, q[k]));
        }
    }
    if fill_touches_edge(w, s) {
        let d = choose|d: (u32, u32)| #[trigger] reaches(w, s, d) && near_edge(w, d);
        assert(reaches(w, c, d));
    }
    if fill_touches_edge(w, c) {
        let d = choose|d: (u32, u32)| #[trigger] reaches(w, c, d) && near_edge(w, d);
        assert(reaches(w, s, d));
    }
}

// ---- House search -----------------------------------------------------------
/// A search candidate: an air cell with solid ground directly below (every
/// real room contains one; this prunes the solid underground).
pub open spec fn is_candidate(w: &World, c: (u32, u32)) -> bool {
    &&& w.spec_in_bounds(c.0 as int, c.1 as int)
    &&& w.cell(c.0 as int, c.1 as int).id == TileId::Air
    &&& w.spec_is_solid(c.0 as int, c.1 + 1)
}

/// `c` lies in the search box of radius `r` around `center`, clamped to
/// the world.
pub open spec fn in_box(w: &World, center: (u32, u32), r: u32, c: (u32, u32)) -> bool {
    &&& center.0 - r <= c.0 <= center.0 + r
    &&& center.1 - r <= c.1 <= center.1 + r
    &&& w.spec_in_bounds(c.0 as int, c.1 as int)
}

/// The room of `c` is a valid house (rules 1-6) holding none of the
/// occupied home tiles (rule 7).
#[verifier::opaque]
pub open spec fn vacant(w: &World, occupied: Seq<(u32, u32)>, c: (u32, u32)) -> bool {
    &&& open_cell(w, c)
    &&& !fill_too_large(w, c)
    &&& !fill_touches_edge(w, c)
    &&& room_verdict(w, component(w, c)) is Ok
    &&& forall|k: int| 0 <= k < occupied.len() ==> !component(w, c).contains(#[trigger] occupied[k])
}

/// The home tile of the room of `c`.
pub open spec fn vacant_home(w: &World, c: (u32, u32)) -> (u32, u32) {
    room_verdict(w, component(w, c))->Ok_0
}

/// Squared distance between two cells.
pub open spec fn dist2(a: (u32, u32), b: (u32, u32)) -> int {
    (a.0 - b.0) * (a.0 - b.0) + (a.1 - b.1) * (a.1 - b.1)
}

/// The room of `s` offers no vacant house nearer than the best so far.
pub open spec fn beaten(
    w: &World,
    occupied: Seq<(u32, u32)>,
    center: (u32, u32),
    s: (u32, u32),
    best: Option<int>,
) -> bool {
    vacant(w, occupied, s) ==> (best matches Some(d) && d <= dist2(vacant_home(w, s), center))
}

/// Every visited cell belongs to a room that offers nothing nearer than the
/// best so far.
pub open spec fn visited_inv(
    w: &World,
    occupied: Seq<(u32, u32)>,
    center: (u32, u32),
    visited: Seq<bool>,
    best: Option<int>,
) -> bool {
    &&& visited.len() == w.width * w.height
    &&& forall|c: (u32, u32)|
        w.spec_in_bounds(c.0 as int, c.1 as int) && #[trigger] visited[cell_index(
            w.width as int,
            c.0 as int,
            c.1 as int,
        )] ==> exists|s: (u32, u32)| reaches(w, s, c) && #[trigger] beaten(w, occupied, center, s, best)
}

/// The room of `c` is vacant and `h` is its house.
pub open spec fn house_of(w: &World, occupied: Seq<(u32, u32)>, c: (u32, u32), h: House) -> bool {
    &&& vacant(w, occupied, c)
    &&& h.interior@.no_duplicates()
    &&& h.interior@.to_set() == component(w, c)
    &&& h.interior@ == fill_result(w, c).0
    &&& h.home == vacant_home(w, c)
    &&& best_home(w, component(w, c), h.home)
}

/// `a` is scanned before `b`: rows top to bottom, each left to right.
pub open spec fn scanned_before(a: (u32, u32), b: (u32, u32)) -> bool {
    a.1 < b.1 || (a.1 == b.1 && a.0 < b.0)
}

/// Every candidate of the box of radius `r` scanned before `c` leads to no
/// vacant house, or to one strictly farther from `center` than `h`'s home.
pub open spec fn first_nearest(
    w: &World,
    center: (u32, u32),
    occupied: Seq<(u32, u32)>,
    r: u32,
    c: (u32, u32),
    h: House,
) -> bool {
    forall|c2: (u32, u32)|
        is_candidate(w, c2) && in_box(w, center, r, c2) && scanned_before(c2, c) && #[trigger] vacant(
            w,
            occupied,
            c2,
        ) ==> dist2(vacant_home(w, c2), center) > dist2(h.home, center)
}

/// Best-so-far as a plain distance.
pub open spec fn best_dist(best: Option<(u128, House)>) -> Option<int> {
    match best {
        Some((d, _)) => Some(d as int),
        None => None,
    }
}

/// Cells of one region are beaten alike.
proof fn lemma_beaten_region(
    w: &World,
    occupied: Seq<(u32, u32)>,
    center: (u32, u32),
    s: (u32, u32),
    c: (u32, u32),
    best: Option<int>,
)
    requires
        reaches(w, s, c),
        beaten(w, occupied, center, s, best),
    ensures
        beaten(w, occupied, center, c, best),
{
    reveal(vacant);
    lemma_same_region(w, s, c);
    assert(open_cell(w, c)) by {
        let p = choose|p: Seq<(u32, u32)>| is_path(w, p) && p[0] == s && #[trigger] p[p.len() - 1] == c;
        assert(open_cell(w, p[p.len() - 1]));
    }
    assert(open_cell(w, s)) by {
        let p = choose|p: Seq<(u32, u32)>| is_path(w, p) && p[0] == s && #[trigger] p[p.len() - 1] == c;
        assert(open_cell(w, p[0]));
    }
}

/// Lowering the best distance keeps everything beaten.
proof fn lemma_visited_improve(
    w: &World,
    occupied: Seq<(u32, u32)>,
    center: (u32, u32),
    visited: Seq<bool>,
    old_best: Option<int>,
    new_best: Option<int>,
)
    requires
        visited_inv(w, occupied, center, visited, old_best),
        new_best is Some,
        old_best matches Some(o) ==> new_best->Some_0 <= o,
    ensures
        visited_inv(w, occupied, center, visited, new_best),
{
    assert forall|c: (u32, u32)|
        w.spec_in_bounds(c.0 as int, c.1 as int) && #[trigger] visited[cell_index(
            w.width as int,
            c.0 as int,
            c.1 as int,
        )] implies exists|s: (u32, u32)| reaches(w, s, c) && #[trigger] beaten(w, occupied, center, s, new_best) by {
        let s = choose|s: (u32, u32)| reaches(w, s, c) && #[trigger] beaten(w, occupied, center, s, old_best);
        assert(beaten(w, occupied, center, s, new_best));
    }
}

/// Whether any occupied home tile lies in `house`.
fn house_occupied(house: &House, occupied: &[(u32, u32)]) -> (r: bool)
    ensures
        r == exists|k: int| 0 <= k < occupied@.len() && house.interior@.contains(#[trigger] occupied@[k]),
{
    let mut k: usize = 0;
    while k < occupied.len()
        invariant
            k <= occupied@.len(),
            forall|j: int| 0 <= j < k ==> !house.interior@.contains(#[trigger] occupied@[j]),
        decreases occupied@.len() - k,
    {
        if house.contains(occupied[k]) {
            return true;
        }
        k = k + 1;
    }
    false
}

/// Squared distance between two cells.
fn distance2(a: (u32, u32), b: (u32, u32)) -> (d: u128)
    ensures
        d == dist2(a, b),
{
    let dx: u128 = if a.0 >= b.0 { (a.0 - b.0) as u128 } else { (b.0 - a.0) as u128 };
    let dy: u128 = if a.1 >= b.1 { (a.1 - b.1) as u128 } else { (b.1 - a.1) as u128 };
    assert(dx * dx <= 0x1_0000_0000_0000_0000int) by (nonlinear_arith)
        requires
            dx <= 0xffff_ffff,
    ;
    assert(dy * dy <= 0x1_0000_0000_0000_0000int) by (nonlinear_arith)
        requires
            dy <= 0xffff_ffff,
    ;
    assert(dx * dx == (a.0 - b.0) * (a.0 - b.0)) by (nonlinear_arith)
        requires
            dx == a.0 - b.0 || dx == b.0 - a.0,
    ;
    assert(dy * dy == (a.1 - b.1) * (a.1 - b.1)) by (nonlinear_arith)
        requires
            dy == a.1 - b.1 || dy == b.1 - a.1,
    ;
    dx * dx + dy * dy
}

/// Scans the box of radius `r` around `center` (rows top to bottom, each
/// left to right) for the nearest vacant house, skipping visited cells.
fn scan_box(
    world: &World,
    center: (u32, u32),
    occupied: &[(u32, u32)],
    r: u32,
    visited: &mut Vec<bool>,
) -> (best: Option<(u128, House)>)
    requires
        world.wf(),
        visited_inv(world, occupied@, center, old(visited)@, None),
    ensures
        visited_inv(world, occupied@, center, final(visited)@, best_dist(best)),
        forall|c: (u32, u32)|
            is_candidate(world, c) && in_box(world, center, r, c) ==> #[trigger] beaten(
                world,
                occupied@,
                center,
                c,
                best_dist(best),
            ),
        best matches Some((d, h)) ==> d == dist2(h.home, center) && exists|c: (u32, u32)|
            is_candidate(world, c) && in_box(world, center, r, c) && #[trigger] house_of(
                world,
                occupied@,
                c,
                h,
            ) && first_nearest(world, center, occupied@, r, c, h),
{
    let x0: u64 = if center.0 >= r { (center.0 - r) as u64 } else { 0 };
    let y0: u64 = if center.1 >= r { (center.1 - r) as u64 } else { 0 };
    let x1: u64 = if (center.0 as u64 + r as u64) < world.width as u64 - 1 {
        center.0 as u64 + r as u64
    } else {
        world.width as u64 - 1
    };
    let y1: u64 = if (center.1 as u64 + r as u64) < world.height as u64 - 1 {
        center.1 as u64 + r as u64
    } else {
        world.height as u64 - 1
    };
    let mut best: Option<(u128, House)> = None;
    let mut y: u64 = y0;
    while y <= y1
        invariant
            world.wf(),
            y0 <= y,
            y <= y1 + 1 || y == y0,
            y1 < world.height,
            x1 < world.width,
            x0 == (if center.0 >= r { center.0 - r } else { 0 }),
            y0 == (if center.1 >= r { center.1 - r } else { 0 }),
            x1 == (if center.0 + r < world.width - 1 { center.0 + r } else { world.width - 1 }),
            y1 == (if center.1 + r < world.height - 1 { center.1 + r } else { world.height - 1 }),
            visited_inv(world, occupied@, center, visited@, best_dist(best)),
            forall|c: (u32, u32)|
                is_candidate(world, c) && in_box(world, center, r, c) && c.1 < y ==> #[trigger] beaten(
                    world,
                    occupied@,
                    center,
                    c,
                    best_dist(best),
                ),
            best matches Some((d, h)) ==> d == dist2(h.home, center) && exists|c: (u32, u32)|
                is_candidate(world, c) && in_box(world, center, r, c) && #[trigger] house_of(
                    world,
                    occupied@,
                    c,
                    h,
                ) && first_nearest(world, center, occupied@, r, c, h),
        decreases y1 + 1 - y,
    {
        let mut x: u64 = x0;
        while x <= x1
            invariant
                world.wf(),
                y0 <= y <= y1,
                x0 <= x,
                x <= x1 + 1 || x == x0,
                y1 < world.height,
                x1 < world.width,
                x0 == (if center.0 >= r { center.0 - r } else { 0 }),
                y0 == (if center.1 >= r { center.1 - r } else { 0 }),
                x1 == (if center.0 + r < world.width - 1 { center.0 + r } else { world.width - 1 }),
                y1 == (if center.1 + r < world.height - 1 { center.1 + r } else { world.height - 1 }),
                visited_inv(world, occupied@, center, visited@, best_dist(best)),
                forall|c: (u32, u32)|
                    is_candidate(world, c) && in_box(world, center, r, c) && (c.1 < y || (c.1 == y && c.0
                        < x)) ==> #[trigger] beaten(world, occupied@, center, c, best_dist(best)),
                best matches Some((d, h)) ==> d == dist2(h.home, center) && exists|c: (u32, u32)|
                    is_candidate(world, c) && in_box(world, center, r, c) && #[trigger] house_of(
                        world,
                        occupied@,
                        c,
                        h,
                    ) && first_nearest(world, center, occupied@, r, c, h),
            decreases x1 + 1 - x,
        {
            let cx = x as u32;
            let cy = y as u32;
            let c = (cx, cy);
            let ghost bb = best_dist(best);
            let ghost ob = best;
            scan_cell(world, center, occupied, r, visited, &mut best, c);
            proof {
                if best != ob {
                    let h = best->Some_0.1;
                    assert forall|c2: (u32, u32)|
                        is_candidate(world, c2) && in_box(world, center, r, c2) && scanned_before(c2, c)
                            && #[trigger] vacant(world, occupied@, c2) implies dist2(vacant_home(world, c2), center)
                        > dist2(h.home, center) by {
                        assert(beaten(world, occupied@, center, c2, bb));
                    }
                    assert(house_of(world, occupied@, c, h) && first_nearest(world, center, occupied@, r, c, h));
                }
                assert forall|c2: (u32, u32)|
                    is_candidate(world, c2) && in_box(world, center, r, c2) && (c2.1 < y || (c2.1 == y
                        && c2.0 < x + 1)) implies #[trigger] beaten(world, occupied@, center, c2, best_dist(best)) by {
                    if c2 != c {
                        assert(beaten(world, occupied@, center, c2, bb));
                    }
                }
            }
            x = x + 1;
        }
        y = y + 1;
    }
    best
}

/// One step of [`scan_box`]: considers cell `c` of the box.
#[verifier::rlimit(100)]
fn scan_cell(
    world: &World,
    center: (u32, u32),
    occupied: &[(u32, u32)],
    r: u32,
    visited: &mut Vec<bool>,
    best: &mut Option<(u128, House)>,
    c: (u32, u32),
)
    requires
        world.wf(),
        world.spec_in_bounds(c.0 as int, c.1 as int),
        visited_inv(world, occupied@, center, old(visited)@, best_dist(*old(best))),
        *old(best) matches Some((d, h)) ==> d == dist2(h.home, center),
        in_box(world, center, r, c),
    ensures
        visited_inv(world, occupied@, center, final(visited)@, best_dist(*final(best))),
        is_candidate(world, c) ==> beaten(world, occupied@, center, c, best_dist(*final(best))),
        forall|c2: (u32, u32)|
            #[trigger] beaten(world, occupied@, center, c2, best_dist(*old(best))) ==> beaten(
                world,
                occupied@,
                center,
                c2,
                best_dist(*final(best)),
            ),
        *final(best) matches Some((d, h)) ==> d == dist2(h.home, center),
        *final(best) == *old(best) || ({
            &&& *final(best) is Some
            &&& is_candidate(world, c)
            &&& house_of(world, occupied@, c, final(best)->Some_0.1)
            &&& *old(best) is Some ==> final(best)->Some_0.0 < old(best)->Some_0.0
        }),
{
    let i = world.idx(c.0, c.1);
    if visited[i] {
        proof {
            let s = choose|s: (u32, u32)|
                reaches(world, s, c) && #[trigger] beaten(world, occupied@, center, s, best_dist(*best));
            lemma_beaten_region(world, occupied@, center, s, c, best_dist(*best));
        }
        return;
    }
    if !matches!(world.tile(c.0, c.1).id, TileId::Air) || !world.is_solid(c.0 as i64, c.1 as i64 + 1) {
        return;
    }
    proof {
        assert(open_cell(world, c));
    }
    let ghost v0 = visited@;
    let ghost b0 = best_dist(*best);
    let res = check_house_visited(world, c, visited);
    let house = match res {
        Ok(h) => h,
        Err(e) => {
            proof {
                lemma_check_outcome(world, occupied@, c, Err(e));
                lemma_visited_keep(world, occupied@, center, c, v0, visited@, b0);
            }
            return;
        },
    };
    proof {
        lemma_check_outcome(world, occupied@, c, Ok(house));
    }
    if house_occupied(&house, occupied) {
        proof {
            lemma_visited_keep(world, occupied@, center, c, v0, visited@, b0);
        }
        return;
    }
    let d = distance2(house.home, center);
    let better = match best {
        Some((bd, _)) => d < *bd,
        None => true,
    };
    if better {
        proof {
            lemma_visited_improve(world, occupied@, center, v0, b0, Some(d as int));
            lemma_visited_keep(world, occupied@, center, c, v0, visited@, Some(d as int));
            assert(house_of(world, occupied@, c, house));
            assert(is_candidate(world, c));
        }
        let ghost hh = house;
        *best = Some((d, house));
        proof {
            assert(house_of(world, occupied@, c, hh));
            assert(best_dist(*best) == Some(d as int));
            assert(*best == Some((d, hh)));
            assert(house_of(world, occupied@, c, best->Some_0.1));
        }
    } else {
        proof {
            lemma_visited_keep(world, occupied@, center, c, v0, visited@, b0);
        }
    }
}

/// Marks made by checking `c` keep the visited bookkeeping once `c` is
/// beaten.
proof fn lemma_visited_keep(
    w: &World,
    occupied: Seq<(u32, u32)>,
    center: (u32, u32),
    c: (u32, u32),
    v0: Seq<bool>,
    v1: Seq<bool>,
    best: Option<int>,
)
    requires
        visited_inv(w, occupied, center, v0, best),
        beaten(w, occupied, center, c, best),
        v1.len() == v0.len(),
        forall|x: (u32, u32)|
            w.spec_in_bounds(x.0 as int, x.1 as int) && #[trigger] v1[cell_index(
                w.width as int,
                x.0 as int,
                x.1 as int,
            )] && !v0[cell_index(w.width as int, x.0 as int, x.1 as int)] ==> reaches(w, c, x),
    ensures
        visited_inv(w, occupied, center, v1, best),
{
    assert forall|x: (u32, u32)|
        w.spec_in_bounds(x.0 as int, x.1 as int) && #[trigger] v1[cell_index(
            w.width as int,
            x.0 as int,
            x.1 as int,
        )] implies exists|s: (u32, u32)| reaches(w, s, x) && #[trigger] beaten(w, occupied, center, s, best) by {
        if !v0[cell_index(w.width as int, x.0 as int, x.1 as int)] {
            assert(reaches(w, c, x) && beaten(w, occupied, center, c, best));
        }
    }
}

/// What a check of candidate `c` says about its vacancy.
proof fn lemma_check_outcome(
    w: &World,
    occupied: Seq<(u32, u32)>,
    c: (u32, u32),
    res: Result<House, HousingError>,
)
    requires
        open_cell(w, c),
        house_result(w, c, res),
        res matches Ok(h) ==> h.interior@ == fill_result(w, c).0,
    ensures
        res is Err ==> !vacant(w, occupied, c),
        res matches Ok(h) ==> ((exists|k: int| 0 <= k < occupied.len() && h.interior@.contains(
            #[trigger] occupied[k],
        )) ==> !vacant(w, occupied, c)),
        res matches Ok(h) ==> (!(exists|k: int| 0 <= k < occupied.len() && h.interior@.contains(
            #[trigger] occupied[k],
        )) ==> house_of(w, occupied, c, h)),
{
    reveal(house_result);
    reveal(vacant);
    if let Ok(h) = res {
        if exists|k: int| 0 <= k < occupied.len() && h.interior@.contains(#[trigger] occupied[k]) {
            let k = choose|k: int| 0 <= k < occupied.len() && h.interior@.contains(#[trigger] occupied[k]);
            assert(h.interior@.to_set().contains(occupied[k]));
        } else {
            assert forall|k: int| 0 <= k < occupied.len() implies !component(w, c).contains(
                #[trigger] occupied[k],
            ) by {
                assert(!h.interior@.contains(occupied[k]));
            }
        }
    }
}

/// No candidate of the box of radius `r` leads to a vacant house.
pub open spec fn none_vacant_in_box(w: &World, center: (u32, u32), occupied: Seq<(u32, u32)>, r: u32) -> bool {
    forall|c: (u32, u32)| is_candidate(w, c) && in_box(w, center, r, c) ==> !#[trigger] vacant(w, occupied, c)
}

/// `h` is the house of a candidate of the box of radius `r` that comes
/// first in scan order among the nearest (no candidate scanned before it
/// leads to a vacant house as near), and no candidate of that box leads to
/// a vacant house nearer to `center`.
pub open spec fn nearest_in_box(
    w: &World,
    center: (u32, u32),
    occupied: Seq<(u32, u32)>,
    r: u32,
    h: House,
) -> bool {
    &&& exists|c: (u32, u32)|
        is_candidate(w, c) && in_box(w, center, r, c) && #[trigger] house_of(w, occupied, c, h) && first_nearest(
            w,
            center,
            occupied,
            r,
            c,
            h,
        )
    &&& forall|c: (u32, u32)|
        is_candidate(w, c) && in_box(w, center, r, c) && #[trigger] vacant(w, occupied, c) ==> dist2(h.home, center)
            <= dist2(vacant_home(w, c), center)
}

/// Scan-on-demand search: the nearest valid house around `center` whose
/// room contains none of `occupied_homes` (rule 7), by home-tile distance
/// to `center`, from the smallest search box that has one.
pub fn find_vacant_house(world: &World, center: (u32, u32), occupied_homes: &[(u32, u32)]) -> (res: Option<House>)
    requires
        world.wf(),
    ensures
        res is None ==> {
            &&& none_vacant_in_box(world, center, occupied_homes@, 100)
            &&& none_vacant_in_box(world, center, occupied_homes@, 200)
            &&& none_vacant_in_box(world, center, occupied_homes@, 400)
        },
        res matches Some(h) ==> {
            ||| nearest_in_box(world, center, occupied_homes@, 100, h)
            ||| none_vacant_in_box(world, center, occupied_homes@, 100) && nearest_in_box(
                world,
                center,
                occupied_homes@,
                200,
                h,
            )
            ||| none_vacant_in_box(world, center, occupied_homes@, 100) && none_vacant_in_box(
                world,
                center,
                occupied_homes@,
                200,
            ) && nearest_in_box(world, center, occupied_homes@, 400, h)
        },
{
    let n: usize = world.width as usize * world.height as usize;
    let mut visited = no_marks(n);
    let ghost occ = occupied_homes@;
    proof {
        assert forall|c: (u32, u32)|
            world.spec_in_bounds(c.0 as int, c.1 as int) && #[trigger] visited@[cell_index(
                world.width as int,
                c.0 as int,
                c.1 as int,
            )] implies exists|s: (u32, u32)| reaches(world, s, c) && #[trigger] beaten(world, occ, center, s, None) by {
            lemma_cell_index(world.width as int, world.height as int, c.0 as int, c.1 as int);
        }
    }
    let mut i: usize = 0;
    while i < 3
        invariant
            world.wf(),
            i <= 3,
            occ == occupied_homes@,
            HOUSE_SEARCH_RADII@ == seq![100u32, 200u32, 400u32],
            visited_inv(world, occ, center, visited@, None),
            forall|j: int| 0 <= j < i ==> none_vacant_in_box(world, center, occ, #[trigger] HOUSE_SEARCH_RADII@[j]),
        decreases 3 - i,
    {
        let r = HOUSE_SEARCH_RADII[i];
        let found = scan_box(world, center, occupied_homes, r, &mut visited);
        match found {
            Some((d, house)) => {
                proof {
                    assert forall|c: (u32, u32)|
                        is_candidate(world, c) && in_box(world, center, r, c) && #[trigger] vacant(world, occ, c)
                        implies dist2(house.home, center) <= dist2(vacant_home(world, c), center) by {
                        assert(beaten(world, occ, center, c, Some(d as int)));
                    }
                    assert(nearest_in_box(world, center, occ, r, house));
                    if i >= 1 {
                        assert(none_vacant_in_box(world, center, occ, HOUSE_SEARCH_RADII@[0]));
                    }
                    if i >= 2 {
                        assert(none_vacant_in_box(world, center, occ, HOUSE_SEARCH_RADII@[1]));
                    }
                }
                return Some(house);
            },
            None => {
                proof {
                    assert forall|c: (u32, u32)| is_candidate(world, c) && in_box(world, center, r, c) implies !#[trigger] vacant(
                        world,
                        occ,
                        c,
                    ) by {
                        assert(beaten(world, occ, center, c, None));
                    }
                }
            },
        }
        i = i + 1;
    }
    proof {
        assert(none_vacant_in_box(world, center, occ, HOUSE_SEARCH_RADII@[0]));
        assert(none_vacant_in_box(world, center, occ, HOUSE_SEARCH_RADII@[1]));
        assert(none_vacant_in_box(world, center, occ, HOUSE_SEARCH_RADII@[2]));
    }
    None
}

// ---- The verdict belongs to the room -----------------------------------------------

/// A room's verdict does not depend on the cell the check starts from:
/// two starts in one region are both accepted or both refused; accepted,
/// they give the same home and the same cells; refused, for the same
/// reason, except that an escaping fill may be reported as too large from
/// one start and as touching the world edge from another.
pub proof fn lemma_verdict_is_the_rooms(
    w: &World,
    s1: (u32, u32),
    s2: (u32, u32),
    r1: Result<House, HousingError>,
    r2: Result<House, HousingError>,
)
    requires
        open_cell(w, s1),
        reaches(w, s1, s2),
        house_result(w, s1, r1),
        house_result(w, s2, r2),
    ensures
        (r1 is Ok) == (r2 is Ok),
        r1 matches Ok(h1) ==> r2->Ok_0.home == h1.home && r2->Ok_0.interior@.to_set()
            == h1.interior@.to_set(),
        (r1 matches Err(HousingError::FillTooLarge) || r1 matches Err(HousingError::TouchesWorldEdge))
            == (r2 matches Err(HousingError::FillTooLarge) || r2 matches Err(
            HousingError::TouchesWorldEdge,
        )),
        r1 is Err && !(r1 matches Err(HousingError::FillTooLarge) || r1 matches Err(
            HousingError::TouchesWorldEdge,
        )) ==> r2 == r1,
{
    reveal(house_result);
    lemma_same_region(w, s1, s2);
    let p = choose|p: Seq<(u32, u32)>| is_path(w, p) && p[0] == s1 && #[trigger] p[p.len() - 1] == s2;
    assert(open_cell(w, p[p.len() - 1]));
}

} // verus!
