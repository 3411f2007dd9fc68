use nox::planet::{build_ramps, ground_z, ramps_buildable_check, RampDirection, Region, TileType};
use nox::utils::{mapidx, REGION_TILES_COUNT};

fn flat_region(ground: usize) -> Region {
    // a solid layer at `ground - 1` with floor on top of it, empty elsewhere
    let mut tiles = vec![TileType::Empty; REGION_TILES_COUNT];
    for y in 0..256 {
        for x in 0..256 {
            tiles[mapidx(x, y, ground - 1)] = TileType::Solid;
            tiles[mapidx(x, y, ground)] = TileType::Floor;
        }
    }
    Region { tile_types: tiles }
}

#[test]
fn ground_z_is_above_top_solid() {
    let region = flat_region(200);
    assert_eq!(ground_z(&region, 5, 5), 200);
}

#[test]
fn ground_z_of_empty_column_is_one() {
    let region = Region { tile_types: vec![TileType::Empty; REGION_TILES_COUNT] };
    assert_eq!(ground_z(&region, 3, 4), 1);
}

#[test]
fn flat_ground_gets_no_ramps() {
    let mut region = flat_region(200);
    build_ramps(&mut region);
    assert!(region.tile_types.iter().all(|t| !matches!(t, TileType::Ramp { .. })));
}

#[test]
fn step_makes_ramps_facing_it() {
    // column (100, 100) rises one level: its floor is at 201
    let mut region = flat_region(200);
    region.tile_types[mapidx(100, 100, 200)] = TileType::Solid;
    region.tile_types[mapidx(100, 100, 201)] = TileType::Floor;
    build_ramps(&mut region);
    // the column north of the step (y = 99) sees the floor to its south
    assert_eq!(
        region.tile_types[mapidx(100, 99, 200)],
        TileType::Ramp { direction: RampDirection::SouthNorth }
    );
    // the column south of it (y = 101) sees the floor to its north
    assert_eq!(
        region.tile_types[mapidx(100, 101, 200)],
        TileType::Ramp { direction: RampDirection::NorthSouth }
    );
    // west of it (x = 99) sees it to the east
    assert_eq!(
        region.tile_types[mapidx(99, 100, 200)],
        TileType::Ramp { direction: RampDirection::WestEast }
    );
    // east of it (x = 101) sees it to the west
    assert_eq!(
        region.tile_types[mapidx(101, 100, 200)],
        TileType::Ramp { direction: RampDirection::EastWest }
    );
    // the raised floor itself is unchanged
    assert_eq!(region.tile_types[mapidx(100, 100, 201)], TileType::Floor);
    let ramps = region.tile_types.iter().filter(|t| matches!(t, TileType::Ramp { .. })).count();
    assert_eq!(ramps, 4);
}

#[test]
fn edge_columns_are_left_alone() {
    let mut region = flat_region(200);
    region.tile_types[mapidx(1, 0, 200)] = TileType::Solid;
    region.tile_types[mapidx(1, 0, 201)] = TileType::Floor;
    build_ramps(&mut region);
    // (1, 1) is interior and sees the raised floor to the north
    assert_eq!(
        region.tile_types[mapidx(1, 1, 200)],
        TileType::Ramp { direction: RampDirection::NorthSouth }
    );
    // (0, 0) is on the edge and never considered
    assert_eq!(region.tile_types[mapidx(0, 0, 200)], TileType::Floor);
}

#[test]
fn ramps_buildable_check_accepts_flat_ground() {
    let region = flat_region(200);
    assert!(ramps_buildable_check(&region));
}

#[test]
fn ramps_buildable_check_rejects_ground_above_region() {
    // a column solid up to the top layer has its ground outside the region
    let mut region = flat_region(200);
    region.tile_types[mapidx(7, 9, 255)] = TileType::Solid;
    assert!(!ramps_buildable_check(&region));
}

#[test]
fn ramps_buildable_check_rejects_floor_at_top_layer() {
    // ground at the top layer with a floor there has no layer above it
    let mut region = flat_region(200);
    region.tile_types[mapidx(7, 9, 254)] = TileType::Solid;
    region.tile_types[mapidx(7, 9, 255)] = TileType::Floor;
    assert!(!ramps_buildable_check(&region));
}

#[test]
fn ramps_buildable_check_ignores_edge_columns() {
    let mut region = flat_region(200);
    region.tile_types[mapidx(0, 9, 255)] = TileType::Solid;
    assert!(ramps_buildable_check(&region));
}

#[test]
fn building_ramps_twice_changes_nothing() {
    let mut region = flat_region(200);
    region.tile_types[mapidx(100, 100, 200)] = TileType::Solid;
    region.tile_types[mapidx(100, 100, 201)] = TileType::Floor;
    region.tile_types[mapidx(30, 40, 200)] = TileType::Solid;
    region.tile_types[mapidx(30, 40, 201)] = TileType::Floor;
    build_ramps(&mut region);
    let once = region.tile_types.clone();
    assert!(ramps_buildable_check(&region));
    build_ramps(&mut region);
    assert!(region.tile_types == once);
}
