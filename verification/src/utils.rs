use vstd::prelude::*;

verus! {

use vstd::arithmetic::div_mod::{lemma_fundamental_div_mod, lemma_fundamental_div_mod_converse};

/// Width of a region, in tiles (the `x` axis).
pub const REGION_WIDTH: usize = 256;
/// Height of a region, in tiles (the `y` axis).
pub const REGION_HEIGHT: usize = 256;
/// Depth of a region, in tiles (the `z` axis).
pub const REGION_DEPTH: usize = 256;
/// Number of tiles in one `z` layer of a region.
pub const REGION_LAYER_SIZE: usize = 65536;
/// Number of tiles in a region.
pub const REGION_TILES_COUNT: usize = 16777216;

/// The flat index of tile `(x, y, z)`: `z` layers of `REGION_WIDTH * REGION_HEIGHT`
/// tiles, each layer made of `y` rows of `REGION_WIDTH` tiles.
pub open spec fn spec_mapidx(x: int, y: int, z: int) -> int {
    z * (REGION_HEIGHT * REGION_WIDTH) + y * REGION_WIDTH + x
}

/// The coordinates `(x, y, z)` that a flat index decomposes into.
pub open spec fn spec_idxmap(idx: int) -> (int, int, int) {
    (idx % (REGION_LAYER_SIZE as int) % (REGION_WIDTH as int),
     idx % (REGION_LAYER_SIZE as int) / (REGION_WIDTH as int),
     idx / (REGION_LAYER_SIZE as int))
}

/// Flat index of the tile at `(x, y, z)`.
///
/// `x` and `y` may be one past the last column or row; `z` must be a layer of the region.
pub fn mapidx(x: usize, y: usize, z: usize) -> (idx: usize)
    requires
        x <= REGION_WIDTH,
        y <= REGION_HEIGHT,
        z < REGION_DEPTH,
    ensures
        idx == spec_mapidx(x as int, y as int, z as int),
{
    assert(z * (REGION_HEIGHT * REGION_WIDTH) <= 255 * 65536) by (nonlinear_arith)
        requires z < 256;
    assert(y * REGION_WIDTH <= 256 * 256) by (nonlinear_arith)
        requires y <= 256;
    (z * REGION_HEIGHT * REGION_WIDTH) + (y * REGION_WIDTH) + x
}

/// The tile coordinates `(x, y, z)` of a flat index into a region.
pub fn idxmap(idx: usize) -> (xyz: (usize, usize, usize))
    requires
        idx < REGION_TILES_COUNT,
    ensures
        (xyz.0 as int, xyz.1 as int, xyz.2 as int) == spec_idxmap(idx as int),
        xyz.0 < REGION_WIDTH,
        xyz.1 < REGION_HEIGHT,
        xyz.2 < REGION_DEPTH,
        spec_mapidx(xyz.0 as int, xyz.1 as int, xyz.2 as int) == idx,
{
    let mut idx = idx;
    let ghost orig = idx as int;
    let z = idx / REGION_LAYER_SIZE;
    proof {
        lemma_fundamental_div_mod(orig, REGION_LAYER_SIZE as int);
    }
    idx -= z * REGION_LAYER_SIZE;
    assert(idx == orig % (REGION_LAYER_SIZE as int));
    let y = idx / REGION_WIDTH;
    proof {
        lemma_fundamental_div_mod(idx as int, REGION_WIDTH as int);
    }
    idx -= y * REGION_WIDTH;
    let x = idx;
    assert(x == orig % (REGION_LAYER_SIZE as int) % (REGION_WIDTH as int));
    (x, y, z)
}

/// Splitting the index of a tile of the region gives back its coordinates.
pub proof fn lemma_idxmap_of_mapidx(x: int, y: int, z: int)
    requires
        0 <= x < REGION_WIDTH,
        0 <= y < REGION_HEIGHT,
        0 <= z < REGION_DEPTH,
    ensures
        spec_idxmap(spec_mapidx(x, y, z)) == (x, y, z),
{
    let idx = spec_mapidx(x, y, z);
    let rem = y * (REGION_WIDTH as int) + x;
    assert(0 <= rem < REGION_LAYER_SIZE) by (nonlinear_arith)
        requires 0 <= x < 256, 0 <= y < 256, rem == y * 256 + x;
    lemma_fundamental_div_mod_converse(idx, REGION_LAYER_SIZE as int, z, rem);
    lemma_fundamental_div_mod_converse(rem, REGION_WIDTH as int, y, x);
}

/// Composing the coordinates that an index of the region splits into gives back the index.
pub proof fn lemma_mapidx_of_idxmap(idx: int)
    requires
        0 <= idx < REGION_TILES_COUNT,
    ensures
        spec_mapidx(spec_idxmap(idx).0, spec_idxmap(idx).1, spec_idxmap(idx).2) == idx,
        0 <= spec_idxmap(idx).0 < REGION_WIDTH,
        0 <= spec_idxmap(idx).1 < REGION_HEIGHT,
        0 <= spec_idxmap(idx).2 < REGION_DEPTH,
{
    let z = idx / (REGION_LAYER_SIZE as int);
    let rem = idx % (REGION_LAYER_SIZE as int);
    lemma_fundamental_div_mod(idx, REGION_LAYER_SIZE as int);
    lemma_fundamental_div_mod(rem, REGION_WIDTH as int);
    assert(idx == z * 65536 + rem);
    assert(rem == (rem / 256) * 256 + rem % 256);
    assert(idx / (REGION_LAYER_SIZE as int) < 256) by (nonlinear_arith)
        requires 0 <= idx < 16777216;
    assert(idx % (REGION_LAYER_SIZE as int) / (REGION_WIDTH as int) < 256) by (nonlinear_arith)
        requires 0 <= idx % 65536 < 65536;
}

/// Two tiles of the region have the same index only if they are the same tile.
pub proof fn lemma_mapidx_injective(x1: int, y1: int, z1: int, x2: int, y2: int, z2: int)
    requires
        0 <= x1 < REGION_WIDTH,
        0 <= y1 < REGION_HEIGHT,
        0 <= z1 < REGION_DEPTH,
        0 <= x2 < REGION_WIDTH,
        0 <= y2 < REGION_HEIGHT,
        0 <= z2 < REGION_DEPTH,
        spec_mapidx(x1, y1, z1) == spec_mapidx(x2, y2, z2),
    ensures
        x1 == x2 && y1 == y2 && z1 == z2,
{
    lemma_idxmap_of_mapidx(x1, y1, z1);
    lemma_idxmap_of_mapidx(x2, y2, z2);
}

} // verus!
