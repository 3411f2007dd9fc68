use vstd::prelude::*;

verus! {

use crate::utils::REGION_WIDTH;

/// One square of a region heightmap: its column and row, the heights at its four
/// corners, and whether it shows water.
#[derive(Clone, Copy, Debug, PartialEq, Eq)]
pub struct HeightmapCell {
    pub x: usize,
    pub y: usize,
    /// Height at `(x, y)`.
    pub height: u8,
    /// Height at `(x + 1, y)`.
    pub right: u8,
    /// Height at `(x, y + 1)`.
    pub below: u8,
    /// Height at `(x + 1, y + 1)`.
    pub below_right: u8,
    /// The square lies below the water level or under deeper water.
    pub water: bool,
}

/// The squares of a region heightmap with the lowest and highest heights.
#[derive(Clone, Debug)]
pub struct HeightmapMesh {
    pub min_height: u8,
    pub max_height: u8,
    pub cells: Vec<HeightmapCell>,
}

/// The square whose top-left corner is entry `idx` of the heightmap.
pub open spec fn heightmap_cell(hm: Seq<u8>, water_level: u8, water: Seq<u8>, idx: int) -> HeightmapCell {
    HeightmapCell {
        x: (idx % (REGION_WIDTH as int)) as usize,
        y: (idx / (REGION_WIDTH as int)) as usize,
        height: hm[idx],
        right: hm[idx + 1],
        below: hm[idx + REGION_WIDTH],
        below_right: hm[idx + 1 + REGION_WIDTH],
        water: hm[idx] < water_level || water[idx] > hm[idx],
    }
}

/// `v` is the smallest entry of `s`.
pub open spec fn is_min(s: Seq<u8>, v: u8) -> bool {
    s.contains(v) && forall|i: int| 0 <= i < s.len() ==> v <= #[trigger] s[i]
}

/// `v` is the largest entry of `s`.
pub open spec fn is_max(s: Seq<u8>, v: u8) -> bool {
    s.contains(v) && forall|i: int| 0 <= i < s.len() ==> #[trigger] s[i] <= v
}

/// The water map has an entry for each square whose height is not below the
/// water level (the squares below it are water whatever the map says).
pub open spec fn water_covers(hm: Seq<u8>, water_level: u8, water: Seq<u8>) -> bool {
    forall|i: int| 0 <= i < hm.len() - (REGION_WIDTH + 1) && #[trigger] hm[i] >= water_level
        ==> i < water.len()
}

/// Cuts a region heightmap, one height per tile row by row, into squares: one per
/// entry that has a right and a lower neighbour entry, in order.
pub fn heightmap_cells(hm: &[u8], water_level: u8, water: &[u8]) -> (mesh: HeightmapMesh)
    requires
        hm.len() >= REGION_WIDTH + 1,
        water_covers(hm@, water_level, water@),
    ensures
        is_min(hm@, mesh.min_height),
        is_max(hm@, mesh.max_height),
        mesh.cells.len() == hm.len() - (REGION_WIDTH + 1),
        forall|i: int| 0 <= i < mesh.cells.len() ==> #[trigger] mesh.cells@[i] == heightmap_cell(
            hm@, water_level, water@, i),
{
    let mut min_height = hm[0];
    let mut max_height = hm[0];
    let mut i: usize = 1;
    assert(hm@.take(1)[0] == hm[0]);
    while i < hm.len()
        invariant
            1 <= i <= hm.len(),
            is_min(hm@.take(i as int), min_height),
            is_max(hm@.take(i as int), max_height),
        decreases hm.len() - i,
    {
        assert(hm@.take(i + 1) =~= hm@.take(i as int).push(hm[i as int]));
        if hm[i] < min_height {
            min_height = hm[i];
        }
        if hm[i] > max_height {
            max_height = hm[i];
        }
        proof {
            let t = hm@.take(i + 1);
            assert(t[i as int] == hm[i as int]);
            let old_t = hm@.take(i as int);
            assert forall|k: int| 0 <= k < i implies #[trigger] t[k] == old_t[k] by {}
            if t.contains(min_height) {} else {
                let w = choose|w: int| 0 <= w < old_t.len() && old_t[w] == min_height;
                assert(t[w] == min_height);
            }
            if t.contains(max_height) {} else {
                let w = choose|w: int| 0 <= w < old_t.len() && old_t[w] == max_height;
                assert(t[w] == max_height);
            }
        }
        i += 1;
    }
    assert(hm@.take(hm.len() as int) =~= hm@);
    let count = hm.len() - (REGION_WIDTH + 1);
    let mut cells: Vec<HeightmapCell> = Vec::new();
    let mut idx: usize = 0;
    while idx < count
        invariant
            idx <= count,
            count == hm.len() - (REGION_WIDTH + 1),
            water_covers(hm@, water_level, water@),
            cells.len() == idx,
            forall|k: int| 0 <= k < idx ==> #[trigger] cells@[k] == heightmap_cell(hm@, water_level, water@, k),
        decreases count - idx,
    {
        let height = hm[idx];
        let cell = HeightmapCell {
            x: idx % REGION_WIDTH,
            y: idx / REGION_WIDTH,
            height,
            right: hm[idx + 1],
            below: hm[idx + REGION_WIDTH],
            below_right: hm[idx + 1 + REGION_WIDTH],
            water: height < water_level || water[idx] > height,
        };
        cells.push(cell);
        idx += 1;
    }
    HeightmapMesh { min_height, max_height, cells }
}


/// Square `i` of a heightmap lies at the column and row of entry `i` in the map,
/// which holds rows of `REGION_WIDTH` entries one after another: its column is
/// below the width and column plus width times row is `i`. Its corners are entries
/// `i`, `i + 1` (to the right), `i + REGION_WIDTH` (below) and `i + 1 + REGION_WIDTH`,
/// and it shows water when it lies below the water level or the water there is
/// higher than the ground.
pub proof fn lemma_heightmap_cell_place(hm: Seq<u8>, water_level: u8, water: Seq<u8>, i: int)
    requires
        0 <= i <= usize::MAX,
    ensures
        heightmap_cell(hm, water_level, water, i).x < 256,
        heightmap_cell(hm, water_level, water, i).x + 256 * heightmap_cell(hm, water_level, water, i).y == i,
        heightmap_cell(hm, water_level, water, i).height == hm[i],
        heightmap_cell(hm, water_level, water, i).right == hm[i + 1],
        heightmap_cell(hm, water_level, water, i).below == hm[i + 256],
        heightmap_cell(hm, water_level, water, i).below_right == hm[i + 257],
        heightmap_cell(hm, water_level, water, i).water == (hm[i] < water_level || water[i] > hm[i]),
{
    vstd::arithmetic::div_mod::lemma_fundamental_div_mod(i, 256);
    assert(i / 256 <= i) by (nonlinear_arith)
        requires 0 <= i;
}

} // verus!
