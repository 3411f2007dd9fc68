use nox::voxels::{greedy_cubes, grow_down, grow_in, grow_right, cull_hidden, GreedyCube, ModelSize, VoxMap};

fn map_of(entries: &[(i32, u8)]) -> VoxMap {
    let mut m = VoxMap::new();
    for &(k, v) in entries {
        m.insert(k, v);
    }
    m
}

#[test]
fn model_size_idxmap_splits_index() {
    let size = ModelSize { x: 4, y: 3, z: 2 };
    assert_eq!(size.idxmap(0), (0, 0, 0));
    assert_eq!(size.idxmap(5), (1, 1, 0));
    assert_eq!(size.idxmap(13), (1, 0, 1));
    assert_eq!(size.idxmap(23), (3, 2, 1));
}

#[test]
fn grow_right_takes_run_of_same_material() {
    let mut m = map_of(&[(1, 7), (2, 7), (3, 7), (4, 9), (5, 7)]);
    let w = grow_right(&mut m, 0, 7);
    assert_eq!(w, 4);
    assert_eq!(m.len(), 2);
    assert!(m.contains_key(&4) && m.contains_key(&5));
}

#[test]
fn grow_right_stops_at_gap() {
    let mut m = map_of(&[(2, 7)]);
    assert_eq!(grow_right(&mut m, 0, 7), 1);
    assert_eq!(m.len(), 1);
}

#[test]
fn grow_down_adds_full_rows_only() {
    // width 2 rows of a 4-wide model, starting at 0: row 1 = {4,5} full, row 2 = {8} only
    let size = ModelSize { x: 4, y: 4, z: 1 };
    let mut m = map_of(&[(4, 1), (5, 1), (8, 1), (6, 1)]);
    let h = grow_down(&mut m, 0, 2, 1, &size);
    assert_eq!(h, 2);
    assert_eq!(m.len(), 2);
    assert!(m.contains_key(&8) && m.contains_key(&6));
}

#[test]
fn grow_down_rejects_row_of_other_material() {
    let size = ModelSize { x: 4, y: 4, z: 1 };
    let mut m = map_of(&[(4, 1), (5, 2)]);
    assert_eq!(grow_down(&mut m, 0, 2, 1, &size), 1);
    assert_eq!(m.len(), 2);
}

#[test]
fn grow_in_adds_full_planes() {
    // 2x2x3 model; base plane is cells 0,1,2,3; plane 1 = 4..8 full, plane 2 misses 11
    let size = ModelSize { x: 2, y: 2, z: 3 };
    let mut m = map_of(&[(4, 3), (5, 3), (6, 3), (7, 3), (8, 3), (9, 3), (10, 3)]);
    let d = grow_in(&mut m, 0, 2, 2, 3, &size);
    assert_eq!(d, 2);
    assert_eq!(m.len(), 3);
}

#[test]
fn cull_hidden_removes_fully_surrounded_voxels() {
    // a full 3x3x3 block: neighbours are taken by index (k +- 1, k +- 3, k +- 9),
    // so every index from 9 to 17 has all six
    let size = ModelSize { x: 3, y: 3, z: 3 };
    let mut m = VoxMap::new();
    for k in 0..27 {
        m.insert(k, 1);
    }
    cull_hidden(&mut m, &size);
    assert_eq!(m.len(), 18);
    for k in 0..27 {
        assert_eq!(m.contains_key(&k), !(9..=17).contains(&k));
    }
}

#[test]
fn greedy_single_voxel() {
    let size = ModelSize { x: 4, y: 4, z: 4 };
    let mut m = map_of(&[(5, 2)]);
    let cubes = greedy_cubes(&mut m, &size);
    assert!(m.is_empty());
    assert_eq!(
        cubes,
        vec![GreedyCube { x: 1, y: 1, z: 0, width: 1, height: 1, depth: 1, material: 2 }]
    );
}

#[test]
fn greedy_merges_a_solid_box() {
    // a 2x2x2 box in the corner of a 4x4x4 model, one material: one cube
    let size = ModelSize { x: 4, y: 4, z: 4 };
    let mut m = map_of(&[(0, 4), (1, 4), (4, 4), (5, 4), (16, 4), (17, 4), (20, 4), (21, 4)]);
    let cubes = greedy_cubes(&mut m, &size);
    assert!(m.is_empty());
    assert_eq!(
        cubes,
        vec![GreedyCube { x: 0, y: 0, z: 0, width: 2, height: 2, depth: 2, material: 4 }]
    );
}

#[test]
fn greedy_rows_run_on_by_index() {
    // a full 2x2x2 model is eight consecutive indices: one run of eight
    let size = ModelSize { x: 2, y: 2, z: 2 };
    let mut m = VoxMap::new();
    for k in 0..8 {
        m.insert(k, 4);
    }
    let cubes = greedy_cubes(&mut m, &size);
    assert!(m.is_empty());
    assert_eq!(
        cubes,
        vec![GreedyCube { x: 0, y: 0, z: 0, width: 8, height: 1, depth: 1, material: 4 }]
    );
}

#[test]
fn greedy_splits_by_material() {
    // one row of a 4-wide model: 1 1 2 2
    let size = ModelSize { x: 4, y: 1, z: 1 };
    let mut m = map_of(&[(0, 1), (1, 1), (2, 2), (3, 2)]);
    let cubes = greedy_cubes(&mut m, &size);
    assert_eq!(
        cubes,
        vec![
            GreedyCube { x: 0, y: 0, z: 0, width: 2, height: 1, depth: 1, material: 1 },
            GreedyCube { x: 2, y: 0, z: 0, width: 2, height: 1, depth: 1, material: 2 },
        ]
    );
}

#[test]
fn greedy_empty_model_gives_no_cubes() {
    let size = ModelSize { x: 3, y: 3, z: 3 };
    let mut m = VoxMap::new();
    assert!(greedy_cubes(&mut m, &size).is_empty());
}

#[test]
fn greedy_covers_every_visible_voxel_once() {
    let size = ModelSize { x: 5, y: 4, z: 3 };
    let mut m = VoxMap::new();
    for k in 0..60 {
        if k % 7 != 3 {
            m.insert(k, (k % 3) as u8);
        }
    }
    let before = m.clone();
    let hidden = |k: i32| {
        [k - 1, k + 1, k - 5, k + 5, k - 25, k + 25].iter().all(|n| before.contains_key(n))
    };
    let visible: Vec<i32> = before.keys().cloned().filter(|k| !hidden(*k)).collect();
    let cubes = greedy_cubes(&mut m, &size);
    let mut seen = std::collections::HashMap::new();
    for c in &cubes {
        let base = (c.z * 20 + c.y * 5 + c.x) as i32;
        for l in 0..c.depth {
            for j in 0..c.height {
                for i in 0..c.width {
                    let k = base + (l * 20 + j * 5 + i) as i32;
                    assert_eq!(before[&k], c.material);
                    assert!(!hidden(k));
                    assert!(seen.insert(k, ()).is_none());
                }
            }
        }
    }
    assert_eq!(seen.len(), visible.len());
    for w in cubes.windows(2) {
        let b0 = w[0].z * 20 + w[0].y * 5 + w[0].x;
        let b1 = w[1].z * 20 + w[1].y * 5 + w[1].x;
        assert!(b0 < b1);
    }
}

#[test]
fn grow_right_handles_keys_far_along() {
    let mut m = map_of(&[(300000000, 1)]);
    assert_eq!(grow_right(&mut m, 0, 1), 1);
    assert_eq!(m.len(), 1);
    let mut m = map_of(&[(300000000, 1), (300000001, 1), (300000003, 1)]);
    assert_eq!(grow_right(&mut m, 299999999, 1), 3);
    assert_eq!(m.len(), 1);
    assert!(m.contains_key(&300000003));
}

#[test]
fn grow_down_in_a_wide_model() {
    let size = ModelSize { x: 40000, y: 3, z: 1 };
    let mut m = map_of(&[(40000, 5), (40001, 5), (80000, 5)]);
    assert_eq!(grow_down(&mut m, 0, 2, 5, &size), 2);
    assert_eq!(m.len(), 1);
    assert!(m.contains_key(&80000));
}

#[test]
fn grow_in_in_a_deep_model() {
    let size = ModelSize { x: 2, y: 2, z: 100000 };
    let mut m = VoxMap::new();
    for k in 4..12 {
        m.insert(k, 6);
    }
    m.insert(399996, 6);
    assert_eq!(grow_in(&mut m, 0, 2, 2, 6, &size), 3);
    assert_eq!(m.len(), 1);
}

#[test]
fn greedy_meshes_a_long_row() {
    let size = ModelSize { x: 20000, y: 1, z: 1 };
    let mut m = VoxMap::new();
    for k in 0..20000 {
        m.insert(k, 2);
    }
    m.insert(5000, 3);
    let cubes = greedy_cubes(&mut m, &size);
    assert!(m.is_empty());
    assert_eq!(
        cubes,
        vec![
            GreedyCube { x: 0, y: 0, z: 0, width: 5000, height: 1, depth: 1, material: 2 },
            GreedyCube { x: 5000, y: 0, z: 0, width: 1, height: 1, depth: 1, material: 3 },
            GreedyCube { x: 5001, y: 0, z: 0, width: 14999, height: 1, depth: 1, material: 2 },
        ]
    );
}
