use ferraria::housing::{check_house, check_house_visited, find_vacant_house, HousingError};
use ferraria::tiles::{state, Tile, TileId, WallId};
use ferraria::world::World;

/// A 200×200 all-air world with a solid stone slab from row 100 down —
/// room floors sit on the slab, comfortably clear of all edges.
const FLOOR: u32 = 100;

fn base_world() -> World {
    let mut w = World::new(200, 200);
    for y in FLOOR..200 {
        for x in 0..200 {
            w.set_tile(x, y, Tile::of(TileId::Stone));
        }
    }
    w
}

fn set(w: &mut World, x: u32, y: u32, id: TileId) {
    let mut t = w.tile(x, y);
    t.id = id;
    t.state = 0;
    w.set_tile(x, y, t);
}

/// Builds a valid room whose interior is `iw`×`ih` with its
/// bottom-left interior cell at (x0, FLOOR-1): stone shell, wood walls
/// behind every interior cell, a closed door mid-left-wall, torch,
/// table, chair. Returns an interior start cell.
fn build_room(w: &mut World, x0: u32, iw: u32, ih: u32) -> (u32, u32) {
    let y_top = FLOOR - ih; // top interior row
    for x in x0 - 1..=x0 + iw {
        for y in y_top - 1..=FLOOR {
            let interior =
                (x0..x0 + iw).contains(&x) && (y_top..y_top + ih).contains(&y) && y < FLOOR;
            let mut t = w.tile(x, y);
            if interior {
                t.id = TileId::Air;
                t.wall = WallId::Wood;
            } else {
                t.id = TileId::Stone;
            }
            w.set_tile(x, y, t);
        }
    }
    // Door: 1×3 in the left wall, feet at floor level.
    assert!(ih >= 3, "room tall enough for a door");
    for d in 0..3u32 {
        let mut t = w.tile(x0 - 1, FLOOR - 1 - d);
        t.id = TileId::Door;
        t.state = state::part(0, (2 - d) as u8);
        w.set_tile(x0 - 1, FLOOR - 1 - d, t);
    }
    // Furniture along the floor: torch, table (3×2), chair (1×2).
    set(w, x0, FLOOR - 1, TileId::Torch);
    assert!(w.place_multitile(x0 + 1, FLOOR - 2, TileId::Table));
    assert!(w.place_multitile(x0 + 4, FLOOR - 2, TileId::Chair));
    (x0 + 5, FLOOR - 1)
}

/// Minimal valid room: 10×4 interior (40) + frame (12×6 − 40 = 32)
/// = 72 >= 60 total. (An 8×3 interior + frame lands under 60.)
fn valid_room(w: &mut World) -> (u32, u32) {
    build_room(w, 50, 10, 4)
}

#[test]
fn minimal_valid_room_passes_and_picks_a_home_tile() {
    let mut w = base_world();
    let start = valid_room(&mut w);
    let house = check_house(&w, start).expect("valid room");
    // 10×4 interior.
    assert_eq!(house.interior.len(), 40);
    // Home tile: air column on the floor, away from the door column.
    let (hx, hy) = house.home;
    assert_eq!(hy, FLOOR - 1);
    assert!(w.is_solid(hx as i64, FLOOR as i64));
    for d in 0..3 {
        assert_eq!(w.tile(hx, hy - d).id, TileId::Air);
    }
}

#[test]
fn room_below_60_total_tiles_is_too_small() {
    let mut w = base_world();
    // 7×3 interior (21) + frame (9×5 − 21 = 24) = 45 < 60.
    let start = build_room(&mut w, 50, 7, 3);
    assert_eq!(check_house(&w, start), Err(HousingError::TooSmall));
}

#[test]
fn unenclosed_fill_overflows_or_touches_edge() {
    let w = base_world();
    // Open air above the slab: the fill spreads unbounded.
    let err = check_house(&w, (100, FLOOR - 1)).expect_err("open air");
    assert!(
        matches!(
            err,
            HousingError::FillTooLarge | HousingError::TouchesWorldEdge
        ),
        "{err:?}"
    );
}

#[test]
fn rooms_near_the_world_edge_are_rejected() {
    let mut w = base_world();
    // A valid room shape but hugging the left world edge (x0 = 5 < 10).
    let start = build_room(&mut w, 6, 10, 4);
    assert_eq!(check_house(&w, start), Err(HousingError::TouchesWorldEdge));
}

#[test]
fn missing_door_fails_rule_3() {
    let mut w = base_world();
    let start = valid_room(&mut w);
    // Brick up the door.
    for d in 1..=3u32 {
        set(&mut w, 49, FLOOR - d, TileId::Stone);
    }
    assert_eq!(check_house(&w, start), Err(HousingError::NoDoor));
}

#[test]
fn closed_door_is_boundary_not_interior() {
    let mut w = base_world();
    let start = valid_room(&mut w);
    let house = check_house(&w, start).expect("valid");
    // The fill never passed through the closed door into the outside.
    assert!(!house.contains((48, FLOOR - 1)), "outside the door");
    assert!(!house.contains((49, FLOOR - 1)), "the door cell itself");
}

#[test]
fn platform_in_boundary_blocks_the_leak() {
    let mut w = base_world();
    let start = valid_room(&mut w);
    // Punch a ceiling hole and seal it with a platform: still a room.
    set(&mut w, 52, FLOOR - 5, TileId::Platform);
    let before = check_house(&w, start).expect("platform seals the hole");
    assert!(!before.contains((52, FLOOR - 5)), "platform is boundary");
    // Remove the platform: the room leaks out the hole and dies.
    set(&mut w, 52, FLOOR - 5, TileId::Air);
    let err = check_house(&w, start).expect_err("leaks");
    assert!(
        matches!(
            err,
            HousingError::FillTooLarge | HousingError::TouchesWorldEdge
        ),
        "{err:?}"
    );
}

#[test]
fn furniture_requirements_each_fail_individually() {
    // No light.
    let mut w = base_world();
    let start = valid_room(&mut w);
    set(&mut w, 50, FLOOR - 1, TileId::Air); // remove torch
    assert_eq!(check_house(&w, start), Err(HousingError::NoLight));

    // No flat surface (clear the 3×2 table).
    let mut w = base_world();
    let start = valid_room(&mut w);
    for dx in 0..3 {
        for dy in 0..2 {
            set(&mut w, 51 + dx, FLOOR - 2 + dy, TileId::Air);
        }
    }
    assert_eq!(check_house(&w, start), Err(HousingError::NoFlatSurface));

    // No comfort (clear the 1×2 chair).
    let mut w = base_world();
    let start = valid_room(&mut w);
    for dy in 0..2 {
        set(&mut w, 54, FLOOR - 2 + dy, TileId::Air);
    }
    assert_eq!(check_house(&w, start), Err(HousingError::NoComfort));

    // A furnace counts as light, a workbench as flat, a bed as comfort.
    let mut w = base_world();
    let start = build_room(&mut w, 50, 12, 4);
    set(&mut w, 50, FLOOR - 1, TileId::Air); // strip default torch
    for dx in 0..3 {
        for dy in 0..2 {
            set(&mut w, 51 + dx, FLOOR - 2 + dy, TileId::Air); // table
        }
    }
    for dy in 0..2 {
        set(&mut w, 54, FLOOR - 2 + dy, TileId::Air); // chair
    }
    assert!(w.place_multitile(50, FLOOR - 2, TileId::Furnace));
    assert!(w.place_multitile(53, FLOOR - 1, TileId::Workbench));
    assert!(w.place_multitile(55, FLOOR - 2, TileId::Bed));
    check_house(&w, start).expect("furnace/workbench/bed satisfy rule 4");
}

#[test]
fn wall_coverage_edge_at_exactly_60_percent() {
    let mut w = base_world();
    let start = valid_room(&mut w);
    // 40 interior cells. Strip walls from 16 → 24/40 = 60%: passes.
    let house = check_house(&w, start).expect("valid");
    let cells = house.interior.clone();
    for &(x, y) in cells.iter().take(16) {
        let mut t = w.tile(x, y);
        t.wall = WallId::Air;
        w.set_tile(x, y, t);
    }
    check_house(&w, start).expect("exactly 60% coverage passes");
    // One more stripped → 23/40 = 57.5%: fails rule 5.
    let &(x, y) = &cells[16];
    let mut t = w.tile(x, y);
    t.wall = WallId::Air;
    w.set_tile(x, y, t);
    assert_eq!(check_house(&w, start), Err(HousingError::LowWallCoverage));
}

#[test]
fn home_tile_needs_a_clear_1x3_column_on_solid_floor() {
    let mut w = base_world();
    // A wide but 2-tall interior: no 3-high column exists. Interior
    // 30×2 = 60 cells + frame 32×4 − 60 = 68 → 128 total, in bounds.
    let y_top = FLOOR - 2;
    for x in 49..=80u32 {
        for y in y_top - 1..=FLOOR {
            let interior = (50..80).contains(&x) && y >= y_top && y < FLOOR;
            let mut t = w.tile(x, y);
            if interior {
                t.id = TileId::Air;
                t.wall = WallId::Wood;
            } else {
                t.id = TileId::Stone;
            }
            w.set_tile(x, y, t);
        }
    }
    // Door can't be 1×3 in a 2-tall wall; cheat one into the ceiling
    // boundary so rule 3 passes and rule 6 is what fails.
    set(&mut w, 60, y_top - 1, TileId::Door);
    set(&mut w, 50, FLOOR - 1, TileId::Torch);
    assert!(w.place_multitile(52, FLOOR - 1, TileId::Workbench));
    assert!(w.place_multitile(55, FLOOR - 2, TileId::Bed));
    assert_eq!(
        check_house(&w, (70, FLOOR - 1)),
        Err(HousingError::NoHomeTile)
    );
}

#[test]
fn fill_cap_is_750_cells() {
    let mut w = base_world();
    // A 100×8 sealed hall = 800 interior cells > 750.
    let y_top = FLOOR - 8;
    for x in 39..=140u32 {
        for y in y_top - 1..=FLOOR {
            let interior = (40..140).contains(&x) && y >= y_top && y < FLOOR;
            let mut t = w.tile(x, y);
            if interior {
                t.id = TileId::Air;
                t.wall = WallId::Wood;
            } else {
                t.id = TileId::Stone;
            }
            w.set_tile(x, y, t);
        }
    }
    assert_eq!(
        check_house(&w, (90, FLOOR - 1)),
        Err(HousingError::FillTooLarge)
    );
}

#[test]
fn find_vacant_house_returns_nearest_and_respects_occupancy() {
    let mut w = base_world();
    let near = build_room(&mut w, 90, 10, 4);
    let far = build_room(&mut w, 130, 10, 4);
    let center = (100, FLOOR - 1);
    let house = find_vacant_house(&w, center, &[]).expect("found");
    let near_home = check_house(&w, near).expect("near valid").home;
    let far_home = check_house(&w, far).expect("far valid").home;
    assert_eq!(house.home, near_home, "nearest house wins");
    // Occupy the near one: the far one is returned instead (rule 7).
    let house = find_vacant_house(&w, center, &[near_home]).expect("found far");
    assert_eq!(house.home, far_home);
    // Both occupied: nothing.
    assert!(find_vacant_house(&w, center, &[near_home, far_home]).is_none());
}


#[test]
fn the_fill_takes_cells_depth_first_from_the_start() {
    let mut w = base_world();
    let (sx, sy) = valid_room(&mut w);
    let house = check_house(&w, (sx, sy)).expect("valid");
    // The start is taken first; of its open neighbours the last offered
    // (the right one, the floor being solid) is taken next.
    assert_eq!(house.interior[0], (sx, sy));
    assert_eq!(house.interior[1], (sx + 1, sy));
    assert_eq!(house.interior.len(), 40);
    let mut cells = house.interior.clone();
    cells.sort_unstable();
    cells.dedup();
    assert_eq!(cells.len(), 40, "every cell once");
}

#[test]
fn any_start_in_a_room_gets_the_same_verdict() {
    let mut w = base_world();
    let (sx, sy) = valid_room(&mut w);
    let a = check_house(&w, (sx, sy)).expect("valid");
    let b = check_house(&w, (51, FLOOR - 4)).expect("valid from the top-left corner");
    assert_eq!(a.home, b.home);
    let (mut ca, mut cb) = (a.interior.clone(), b.interior.clone());
    ca.sort_unstable();
    cb.sort_unstable();
    assert_eq!(ca, cb);
    // Refused rooms are refused from everywhere, for the same reason.
    set(&mut w, 50, FLOOR - 1, TileId::Air); // the torch
    assert_eq!(check_house(&w, (sx, sy)).err(), Some(HousingError::NoLight));
    assert_eq!(check_house(&w, (51, FLOOR - 4)).err(), Some(HousingError::NoLight));
}

#[test]
fn an_open_world_fill_reports_the_edge_first() {
    // All air: only 100 cells lie 10+ tiles from every edge, so the
    // depth-first fill meets the margin long before it outgrows the cap.
    let w = World::new(30, 30);
    let mut visited = vec![false; 30 * 30];
    assert_eq!(
        check_house_visited(&w, (15, 15), &mut visited).err(),
        Some(HousingError::TouchesWorldEdge)
    );
    assert!(visited[15 * 30 + 15], "the start was seen");
}
