use std::collections::HashSet;

use ferraria::light::{daylight_ticks, in_ramp, sky_light, DynamicSource, LightEngine};
use ferraria::tiles::{
    Liquid, LiquidKind, Tile, TileId, LAVA_LIGHT, LIQUID_MAX_LEVEL, MINING_HELMET_LIGHT,
    PLAYER_GLOW, SKY_LIGHT_DAY, SKY_LIGHT_NIGHT, SKY_LIGHT_RAMP_TICKS,
};
use ferraria::world::{World, DAWN_TICK, DAY_TICKS, DUSK_TICK, NEW_WORLD_TIME};

/// A world with a solid stone lid on row 0 so no column is sky-exposed
/// (isolates point sources from sunlight).
fn capped_world(w: u32, h: u32) -> World {
    let mut world = World::new(w, h);
    for x in 0..w {
        world.set_tile(x, 0, Tile::of(TileId::Stone));
    }
    world
}

/// Derives every column's exposure from the world without dirtying.
fn sync_columns(e: &mut LightEngine, world: &World) {
    for x in 0..world.width {
        e.top_solid[x as usize] = e.scan_column(world, x);
    }
}

/// An engine with columns derived from the world, lighting recomputed over
/// the whole world with the given sky level and extra sources.
fn lit(world: &World, sky: u8, sources: &[DynamicSource]) -> LightEngine {
    let mut e = LightEngine::new(world.width, world.height);
    sync_columns(&mut e, world);
    e.recompute(world, (0, 0, world.width - 1, world.height - 1), sky, sources);
    e
}

/// The dirty light chunks as a set of `(cx, cy)`.
fn dirty_set(e: &LightEngine) -> HashSet<(u32, u32)> {
    let (cw, ch) = e.chunk_grid();
    let mut s = HashSet::new();
    for cy in 0..ch {
        for cx in 0..cw {
            if e.dirty[(cy * cw + cx) as usize] {
                s.insert((cx, cy));
            }
        }
    }
    s
}

#[test]
fn torch_in_open_air_lights_radius_14() {
    let mut world = capped_world(80, 80);
    world.set_tile(40, 40, Tile::of(TileId::Torch));
    let e = lit(&world, 0, &[]);
    assert_eq!(e.light_at_tile(40, 40), 28); // a torch emits 28
    // -2 per air step, 4-dir BFS => level 28 - 2d at Manhattan distance d.
    assert_eq!(e.light_at_tile(53, 40), 2); // d = 13: dimmest lit ring
    assert_eq!(e.light_at_tile(40, 27), 2);
    assert_eq!(e.light_at_tile(47, 34), 2); // diagonal, d = 7 + 6 = 13
    assert_eq!(e.light_at_tile(54, 40), 0); // d = 14: dark
    assert_eq!(e.light_at_tile(47, 47), 0); // d = 14 diagonally: dark
    // Lit span along the row: 13 left + torch + 13 right = 27 cells, the
    // "radius 14" counting the torch tile itself.
    let lit_cells = (0..80).filter(|&x| e.light_at_tile(x, 40) > 0).count();
    assert_eq!(lit_cells, 27);
}

#[test]
fn light_through_five_solid_tiles_dies_out() {
    // Solid rock everywhere (so nothing sneaks around through air) with a
    // torch embedded in it.
    let mut world = World::new(64, 64);
    for y in 0..world.height {
        for x in 0..world.width {
            world.set_tile(x, y, Tile::of(TileId::Stone));
        }
    }
    world.set_tile(10, 10, Tile::of(TileId::Torch));
    let e = lit(&world, 0, &[]);
    // -6 entering each solid: 28 -> 22, 16, 10, 4, 0.
    assert_eq!(e.light_at_tile(11, 10), 22);
    assert_eq!(e.light_at_tile(14, 10), 4);
    assert_eq!(e.light_at_tile(15, 10), 0); // dead inside the 5th solid
    assert_eq!(e.light_at_tile(16, 10), 0);
    assert_eq!(e.light_at_tile(10, 15), 0); // same straight down
}

#[test]
fn overlapping_sources_max_combine() {
    let mut world = capped_world(64, 64);
    world.set_tile(20, 30, Tile::of(TileId::Torch));
    world.set_tile(30, 30, Tile::of(TileId::Torch));
    let e = lit(&world, 0, &[]);
    // Midpoint: 5 steps from both => max(18, 18); fields don't add.
    assert_eq!(e.light_at_tile(25, 30), 18);
    // Off-center: the nearer torch wins — max(24, 12) = 24.
    assert_eq!(e.light_at_tile(22, 30), 24);
    // A lava cell under one torch.
    let mut t = world.tile(20, 31);
    t.liquid = Liquid::new(LiquidKind::Lava, 8);
    world.set_tile(20, 31, t);
    let e = lit(&world, 0, &[]);
    assert_eq!(e.light_at_tile(20, 31), 26.max(LAVA_LIGHT)); // 28-2 beats 18
    assert_eq!(e.light_at_tile(20, 33), 22); // ...and keeps fading by -2
}

#[test]
fn dynamic_player_sources_light_their_tiles() {
    // Far enough apart (Manhattan 32) that the helmet's field (radius
    // <= 10) can't reach the glow's neighborhood.
    let world = capped_world(40, 40);
    let glow = DynamicSource {
        x: 8,
        y: 8,
        level: PLAYER_GLOW,
    };
    let helmet = DynamicSource {
        x: 24,
        y: 24,
        level: MINING_HELMET_LIGHT,
    };
    let e = lit(&world, 0, &[glow, helmet]);
    assert_eq!(e.light_at_tile(8, 8), PLAYER_GLOW);
    assert_eq!(e.light_at_tile(9, 8), PLAYER_GLOW - 2);
    assert_eq!(e.light_at_tile(10, 8), 0); // glow 4 only carries 1 tile
    assert_eq!(e.light_at_tile(24, 24), MINING_HELMET_LIGHT);
    assert_eq!(e.light_at_tile(29, 24), MINING_HELMET_LIGHT - 10);
}

#[test]
fn blocked_sky_column_contributes_nothing_below() {
    // One column wide so nothing leaks in from the sides: a single solid
    // tile at y = 5 must stop the column being a sky source below it.
    let mut world = World::new(1, 50);
    world.set_tile(0, 5, Tile::of(TileId::Stone));
    let e = lit(&world, SKY_LIGHT_DAY, &[]);
    for y in 0..5 {
        assert_eq!(e.light_at_tile(0, y), 32, "open sky at y={y}");
    }
    assert!(!e.sky_exposed(0, 5));
    // Below the lid: never 32 again — only propagated light, fading out.
    assert_eq!(e.light_at_tile(0, 5), 26); // 32 - 6 entering the solid
    assert_eq!(e.light_at_tile(0, 6), 24);
    assert_eq!(e.light_at_tile(0, 17), 2);
    assert_eq!(e.light_at_tile(0, 18), 0);
    assert_eq!(e.light_at_tile(0, 40), 0); // pitch black at depth
}

#[test]
fn dusk_ramp_boundary_values() {
    let half = SKY_LIGHT_RAMP_TICKS / 2;
    // Dusk: 32 entering the ramp, 20 at the midpoint, 8 leaving it.
    assert_eq!(sky_light(DUSK_TICK - half), SKY_LIGHT_DAY);
    assert_eq!(sky_light(DUSK_TICK), 20);
    assert_eq!(sky_light(DUSK_TICK + half), SKY_LIGHT_NIGHT);
    // Dawn mirrors it.
    assert_eq!(sky_light(DAWN_TICK - half), SKY_LIGHT_NIGHT);
    assert_eq!(sky_light(DAWN_TICK), 20);
    assert_eq!(sky_light(DAWN_TICK + half), SKY_LIGHT_DAY);
    // Far from the ramps.
    assert_eq!(sky_light(NEW_WORLD_TIME), SKY_LIGHT_DAY);
    assert_eq!(sky_light(0), SKY_LIGHT_NIGHT); // midnight
    assert_eq!(sky_light(DAY_TICKS - 1), SKY_LIGHT_NIGHT);
    let daylight = daylight_ticks(DUSK_TICK) as f32 / SKY_LIGHT_RAMP_TICKS as f32;
    assert!((daylight - 0.5).abs() < 1e-6);
    assert!(in_ramp(DUSK_TICK) && in_ramp(DAWN_TICK));
    assert!(!in_ramp(NEW_WORLD_TIME) && !in_ramp(0));
}

#[test]
fn dirty_propagation_marks_exactly_the_3x3_neighborhood() {
    // Solid lid on row 0 keeps column heights stable, so the tile edit
    // dirties exactly the changed chunk + 8 neighbors and nothing else.
    let mut world = capped_world(256, 256);
    let mut e = LightEngine::new(world.width, world.height);
    sync_columns(&mut e, &world);
    world.set_tile(70, 70, Tile::of(TileId::Stone));
    e.on_tile_changed(&world, 70, 70); // tile (70,70) -> light chunk (2,2)
    let mut expect = HashSet::new();
    for cy in 1..=3 {
        for cx in 1..=3 {
            expect.insert((cx, cy));
        }
    }
    assert_eq!(dirty_set(&e), expect);

    // Corner chunk: the 3x3 clamps to the world edge (2x2).
    let mut e2 = LightEngine::new(world.width, world.height);
    sync_columns(&mut e2, &world);
    world.set_tile(1, 1, Tile::of(TileId::Stone));
    e2.on_tile_changed(&world, 1, 1);
    // Row 0 is already solid, so column exposure is unchanged and only the
    // clamped 2x2 corner neighborhood is marked.
    let expect2: HashSet<_> = [(0, 0), (1, 0), (0, 1), (1, 1)].into_iter().collect();
    assert_eq!(dirty_set(&e2), expect2);
}

#[test]
fn uncovering_a_shaft_dirties_the_whole_exposure_span() {
    // A lone solid tile at (8, 4) shades the column; removing it must dirty
    // chunks all the way down the newly exposed span, not just the 3x3
    // around the edit.
    let mut world = World::new(64, 256);
    world.set_tile(8, 4, Tile::of(TileId::Stone));
    let mut e = LightEngine::new(world.width, world.height);
    sync_columns(&mut e, &world);
    assert_eq!(e.top_solid[8], 4);
    world.set_tile(8, 4, Tile::air());
    e.on_tile_changed(&world, 8, 4);
    assert_eq!(e.top_solid[8], world.height); // fully open again
    let d = dirty_set(&e);
    assert!(d.contains(&(0, 7)), "deep chunk along the shaft");
    assert!(d.contains(&(1, 7)), "neighbor of the deep chunk");
}

#[test]
fn update_recomputes_visible_region_and_clears_dirty() {
    let mut world = capped_world(256, 256);
    world.set_tile(100, 100, Tile::of(TileId::Torch));
    let mut e = LightEngine::new(world.width, world.height);
    e.on_chunk_applied(&world, 1, 1); // pretend the chunk streamed in
    let view = (80, 80, 120, 110);
    assert!(e.update(&world, view, 0, 0, &[]));
    assert_eq!(e.light_at_tile(100, 100), 28);
    assert_eq!(e.light_at_tile(100, 105), 18);
    // Nothing changed: the next update is a no-op...
    assert!(!e.update(&world, view, 0, 1, &[]));
    // ...but a moved dynamic source forces one.
    let src = [DynamicSource {
        x: 90,
        y: 100,
        level: PLAYER_GLOW,
    }];
    assert!(e.update(&world, view, 0, 2, &src));
    assert!(!e.update(&world, view, 0, 3, &src));
}

#[test]
fn far_offscreen_source_movement_does_not_force_recompute() {
    // View (0,0,80,45) => region chunks (0,0)..(4,3) => rect x <= 159;
    // + SOURCE_MARGIN (16) => only sources with x <= 175 can matter.
    let world = World::new(512, 128);
    let mut e = LightEngine::new(world.width, world.height);
    let view = (0, 0, 80, 45);
    let t = NEW_WORLD_TIME; // full day, outside the ramps
    let near = DynamicSource {
        x: 40,
        y: 20,
        level: PLAYER_GLOW,
    };
    let far = |x: i32| DynamicSource {
        x,
        y: 20,
        level: PLAYER_GLOW,
    };
    assert!(e.update(&world, view, t, 0, &[near, far(400)]));
    // A remote player walking far off-screen: recompute output would be
    // identical, so none may run.
    assert!(!e.update(&world, view, t, 1, &[near, far(401)]));
    assert!(!e.update(&world, view, t, 2, &[near, far(450)]));
    // It leaving the world entirely changes nothing either.
    assert!(!e.update(&world, view, t, 3, &[near]));
    // A source inside the margin-expanded region still gates correctly:
    // appearing/moving there forces exactly one recompute.
    assert!(e.update(&world, view, t, 4, &[near, far(170)]));
    assert!(!e.update(&world, view, t, 5, &[near, far(170)]));
    assert!(e.update(&world, view, t, 6, &[near, far(160)]));
    // And the near (on-screen) source moving recomputes as before.
    let near2 = DynamicSource { x: 41, ..near };
    assert!(e.update(&world, view, t, 7, &[near2, far(160)]));
}

#[test]
fn deep_water_dims_with_depth_instead_of_full_sky_light() {
    // One open column with water from y = 10 down: liquid cells are not
    // sunlight sources (sunlight seeds air tiles), so light propagates in
    // from the surface at -2/step instead of staying 32 to the bottom.
    let mut world = World::new(1, 40);
    for y in 10..40 {
        let mut t = world.tile(0, y);
        t.liquid = Liquid::new(LiquidKind::Water, LIQUID_MAX_LEVEL);
        world.set_tile(0, y, t);
    }
    let e = lit(&world, SKY_LIGHT_DAY, &[]);
    assert_eq!(e.light_at_tile(0, 9), 32); // air above the surface
    assert_eq!(e.light_at_tile(0, 10), 30); // first water cell: 32 - 2
    assert_eq!(e.light_at_tile(0, 15), 20); // ...fading by 2 per cell
    assert_eq!(e.light_at_tile(0, 24), 2); // dimmest lit depth
    assert_eq!(e.light_at_tile(0, 25), 0); // 16 cells down: dark
    assert_eq!(e.light_at_tile(0, 39), 0); // lake bottom: dark
}

#[test]
fn ramp_rerefreshes_sky_exposed_region_every_10_ticks() {
    let world = World::new(128, 128); // fully open sky
    let mut e = LightEngine::new(world.width, world.height);
    let view = (0, 0, 100, 60);
    let t = DUSK_TICK; // mid-ramp; sky_light = 20 here
    assert!(e.update(&world, view, t, 1000, &[]));
    assert_eq!(e.light_at_tile(50, 50), 20);
    // Same tick value, < 10 ticks later: nothing to do.
    assert!(!e.update(&world, view, t, 1005, &[]));
    // >= 10 ticks into a ramp: re-dirties sky-exposed chunks.
    assert!(e.update(&world, view, t, 1010, &[]));
    // Outside the ramp the 10-tick refresh is off.
    let day = NEW_WORLD_TIME;
    assert!(e.update(&world, view, day, 2000, &[])); // sky 32 != 20
    assert!(!e.update(&world, view, day, 2020, &[]));
}

// ---- Own tests ---------------------------------------------------------------

#[test]
fn light_at_tile_clamps_into_the_world() {
    let mut world = capped_world(16, 16);
    world.set_tile(0, 15, Tile::of(TileId::Torch));
    let e = lit(&world, 0, &[]);
    assert_eq!(e.light_at_tile(-5, 99), 28);
    assert_eq!(e.light_at_tile(i32::MIN, i32::MAX), 28);
}

#[test]
fn recompute_leaves_cells_outside_the_region_alone() {
    let mut world = capped_world(128, 64);
    world.set_tile(5, 30, Tile::of(TileId::Torch));
    let mut e = LightEngine::new(world.width, world.height);
    sync_columns(&mut e, &world);
    // Region x 60..=70 grown by 16: x 44..=86; the torch at x 5 is outside.
    e.recompute(&world, (60, 20, 70, 40), 0, &[]);
    assert_eq!(e.light_at_tile(5, 30), 0);
    assert_eq!(e.light_at_tile(50, 30), 0);
    world.set_tile(50, 30, Tile::of(TileId::Furnace));
    e.recompute(&world, (60, 20, 70, 40), 0, &[]);
    assert_eq!(e.light_at_tile(50, 30), 20);
    assert_eq!(e.light_at_tile(55, 30), 10);
    assert_eq!(e.light_at_tile(30, 30), 0); // outside: untouched
}

#[test]
fn sources_outside_the_flooded_area_are_ignored() {
    let world = capped_world(128, 64);
    let mut e = LightEngine::new(world.width, world.height);
    sync_columns(&mut e, &world);
    let far = DynamicSource {
        x: 120,
        y: 30,
        level: MINING_HELMET_LIGHT,
    };
    e.recompute(&world, (0, 0, 40, 63), 0, &[far]);
    assert_eq!(e.light_at_tile(120, 30), 0);
    let near = DynamicSource { x: 30, ..far };
    e.recompute(&world, (0, 0, 40, 63), 0, &[near]);
    assert_eq!(e.light_at_tile(30, 30), MINING_HELMET_LIGHT);
}

#[test]
fn sky_light_steps_through_the_ramp() {
    let half = SKY_LIGHT_RAMP_TICKS / 2;
    // One level per 75 ticks of ramp, rounded to the nearest level.
    assert_eq!(sky_light(DAWN_TICK - half + 37), 8);
    assert_eq!(sky_light(DAWN_TICK - half + 38), 9);
    assert_eq!(sky_light(DAWN_TICK - half + 75), 9);
    assert_eq!(daylight_ticks(DAWN_TICK), 900);
    assert_eq!(daylight_ticks(NEW_WORLD_TIME), SKY_LIGHT_RAMP_TICKS);
    assert_eq!(daylight_ticks(0), 0);
}

#[test]
fn chunk_arrival_dirties_its_chunks_and_the_ring() {
    let world = capped_world(256, 256);
    let mut e = LightEngine::new(world.width, world.height);
    sync_columns(&mut e, &world);
    e.on_chunk_applied(&world, 1, 1); // tiles 64..128 => light chunks 2..=3
    let mut expect = HashSet::new();
    for cy in 1..=4 {
        for cx in 1..=4 {
            expect.insert((cx, cy));
        }
    }
    assert_eq!(dirty_set(&e), expect);
}

#[test]
fn tile_change_outside_the_world_is_ignored() {
    let world = capped_world(64, 64);
    let mut e = LightEngine::new(world.width, world.height);
    sync_columns(&mut e, &world);
    e.on_tile_changed(&world, 64, 3);
    e.on_tile_changed(&world, 3, 64);
    assert!(dirty_set(&e).is_empty());
    e.mark_dirty_around(40, 40);
    assert_eq!(dirty_set(&e).len(), 4); // 2x2 grid: everything
}
