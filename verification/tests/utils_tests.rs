use nox::utils::{idxmap, mapidx, REGION_TILES_COUNT};

#[test]
fn test_mapidx_idxmap() {
    let (x, y, z) = (12, 19, 11);
    let idx = mapidx(x, y, z);
    let (nx, ny, nz) = idxmap(idx);
    assert_eq!(x, nx);
    assert_eq!(y, ny);
    assert_eq!(z, nz);
}

#[test]
fn test_mapidx() {
    assert_eq!(mapidx(1usize, 0usize, 0usize), 1usize);
    assert_eq!(mapidx(2usize, 0usize, 0usize), 2usize);
}

#[test]
fn mapidx_layout_is_row_major_by_layer() {
    assert_eq!(mapidx(0, 1, 0), 256);
    assert_eq!(mapidx(0, 0, 1), 65536);
    assert_eq!(mapidx(12, 19, 11), 11 * 65536 + 19 * 256 + 12);
    assert_eq!(mapidx(255, 255, 255), REGION_TILES_COUNT - 1);
}

#[test]
fn mapidx_accepts_one_past_the_edge() {
    // x == REGION_WIDTH is accepted and lands on the next row
    assert_eq!(mapidx(256, 0, 0), mapidx(0, 1, 0));
    assert_eq!(idxmap(mapidx(256, 0, 0)), (0, 1, 0));
}

#[test]
fn idxmap_round_trips() {
    for &idx in &[0usize, 1, 255, 256, 65535, 65536, 1234567, REGION_TILES_COUNT - 1] {
        let (x, y, z) = idxmap(idx);
        assert!(x < 256 && y < 256 && z < 256);
        assert_eq!(mapidx(x, y, z), idx);
    }
    assert_eq!(idxmap(REGION_TILES_COUNT - 1), (255, 255, 255));
}
