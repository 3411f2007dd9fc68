use nox::heightmap::heightmap_cells;
use nox::lighting::{
    camera_light_slots, enabled_light_slots, index_enabled_lights, index_lights_below_camera, light_tile_bits,
    mark_outdoors, LightSource,
};

fn light(enabled: bool, z: i32, tiles: &[usize]) -> LightSource {
    LightSource { enabled, z, visible_tiles: tiles.to_vec() }
}

#[test]
fn outdoor_bits_follow_region() {
    let mut bits = vec![7u32; 4];
    mark_outdoors(&mut bits, &[true, false, true, false]);
    assert_eq!(bits, vec![1, 0, 1, 0]);
}

#[test]
fn enabled_lights_take_consecutive_slots() {
    let mut bits = vec![0u32; 4];
    let lights = vec![light(true, 0, &[0, 1]), light(false, 0, &[2]), light(true, 0, &[1, 3, 3])];
    let slots = index_enabled_lights(&mut bits, &[true, false, false, false], &lights);
    assert_eq!(slots, vec![Some(1), None, Some(2)]);
    assert_eq!(bits, vec![1 | 2, 2 | 4, 0, 4]);
}

#[test]
fn enabled_lights_stop_at_thirty_one() {
    let lights: Vec<LightSource> = (0..40).map(|_| light(true, 0, &[0])).collect();
    let mut bits = vec![0u32; 1];
    let slots = index_enabled_lights(&mut bits, &[false], &lights);
    assert_eq!(slots[0], Some(1));
    assert_eq!(slots[30], Some(31));
    assert_eq!(slots[31], None);
    assert_eq!(bits[0], 0xffff_fffe);
}

#[test]
fn camera_lights_keep_their_position_slot() {
    let mut bits = vec![0u32; 3];
    let lights = vec![light(true, 5, &[0]), light(true, 20, &[1]), light(false, 3, &[2])];
    let slots = index_lights_below_camera(&mut bits, &[false, false, true], &lights, 10);
    assert_eq!(slots, vec![Some(1), None, Some(3)]);
    assert_eq!(bits, vec![2, 0, 1 | 8]);
}

#[test]
fn heightmap_cells_cover_all_but_last_row_and_one() {
    let n = 256 * 3;
    let hm: Vec<u8> = (0..n).map(|i| (i % 200) as u8 + 10).collect();
    let water = vec![0u8; n];
    let mesh = heightmap_cells(&hm, 50, &water);
    assert_eq!(mesh.min_height, 10);
    assert_eq!(mesh.max_height, 209);
    assert_eq!(mesh.cells.len(), n - 257);
    let c = mesh.cells[257];
    assert_eq!((c.x, c.y), (1, 1));
    assert_eq!(c.height, hm[257]);
    assert_eq!(c.right, hm[258]);
    assert_eq!(c.below, hm[513]);
    assert_eq!(c.below_right, hm[514]);
    assert!(mesh.cells[0].water);
    assert!(!mesh.cells[100].water);
}

#[test]
fn heightmap_deep_water_marks_cell() {
    let n = 300;
    let hm = vec![100u8; n];
    let mut water = vec![0u8; n];
    water[5] = 120;
    let mesh = heightmap_cells(&hm, 50, &water);
    assert!(mesh.cells[5].water);
    assert!(!mesh.cells[4].water);
    assert_eq!(mesh.min_height, 100);
    assert_eq!(mesh.max_height, 100);
}

#[test]
fn slot_functions_match_combined_update() {
    let lights = vec![light(false, 9, &[0]), light(true, 2, &[1]), light(true, 12, &[2])];
    assert_eq!(enabled_light_slots(&lights), vec![None, Some(1), Some(2)]);
    assert_eq!(camera_light_slots(&lights, 9), vec![Some(1), Some(2), None]);
}

#[test]
fn light_tile_bits_uses_given_slots() {
    let lights = vec![light(true, 0, &[0, 2]), light(true, 0, &[2])];
    let mut bits = vec![5u32; 3];
    light_tile_bits(&mut bits, &[false, true, false], &lights, &vec![Some(4), Some(31)]);
    assert_eq!(bits, vec![16, 1, 16 | 0x8000_0000]);
}

#[test]
fn heightmap_water_map_may_stop_at_the_water() {
    // every square below the water level: no water entries are read
    let n = 256 * 3;
    let hm = vec![10u8; n];
    let mesh = heightmap_cells(&hm, 50, &[]);
    assert_eq!(mesh.cells.len(), n - 257);
    assert!(mesh.cells.iter().all(|c| c.water));
}
