use vstd::prelude::*;

verus! {

use crate::utils::{
    mapidx, spec_idxmap, spec_mapidx, lemma_idxmap_of_mapidx, lemma_mapidx_of_idxmap, REGION_DEPTH,
    REGION_HEIGHT, REGION_TILES_COUNT, REGION_WIDTH,
};

/// Which way a ramp climbs.
#[derive(Clone, Copy, Debug, PartialEq, Eq, Structural)]
pub enum RampDirection {
    NorthSouth,
    SouthNorth,
    EastWest,
    WestEast,
}

/// What occupies a tile of a region.
#[derive(Clone, Copy, Debug, PartialEq, Eq, Structural)]
pub enum TileType {
    Empty,
    Solid,
    Floor,
    Ramp { direction: RampDirection },
}

/// A region of the planet: one tile type per tile, indexed by `mapidx`.
pub struct Region {
    pub tile_types: Vec<TileType>,
}

impl Region {
    /// The region holds exactly one tile type per tile.
    pub open spec fn wf(&self) -> bool {
        self.tile_types.len() == REGION_TILES_COUNT
    }
}

/// Scanning down the column `(x, y)` from layer `z`: one above the first solid
/// tile met at a layer of at least 2, or 1 when there is none.
pub open spec fn ground_from(tiles: Seq<TileType>, x: int, y: int, z: int) -> int
    decreases z,
{
    if z <= 2 {
        if tiles[spec_mapidx(x, y, z)] == TileType::Solid { z + 1 } else { 1 }
    } else if tiles[spec_mapidx(x, y, z)] == TileType::Solid {
        z + 1
    } else {
        ground_from(tiles, x, y, z - 1)
    }
}

/// The ground found scanning down from a layer is at least layer 1.
pub proof fn lemma_ground_from_positive(tiles: Seq<TileType>, x: int, y: int, z: int)
    requires
        0 <= z,
    ensures
        1 <= ground_from(tiles, x, y, z) <= z + 1,
    decreases z,
{
    if z > 2 {
        lemma_ground_from_positive(tiles, x, y, z - 1);
    }
}

/// Ground level of column `(x, y)`: the layer just above its highest solid tile
/// (looking no lower than layer 2), or 1.
pub open spec fn spec_ground_z(tiles: Seq<TileType>, x: int, y: int) -> int {
    ground_from(tiles, x, y, REGION_DEPTH - 1)
}

/// Layer of the ground in column `(x, y)`.
pub fn ground_z(region: &Region, x: usize, y: usize) -> (z: usize)
    requires
        region.wf(),
        x < REGION_WIDTH,
        y < REGION_HEIGHT,
    ensures
        z == spec_ground_z(region.tile_types@, x as int, y as int),
        1 <= z <= REGION_DEPTH,
{
    let mut z: usize = REGION_DEPTH - 1;
    let mut hit_ground = false;
    while !hit_ground
        invariant
            region.wf(),
            x < REGION_WIDTH,
            y < REGION_HEIGHT,
            1 <= z <= REGION_DEPTH,
            !hit_ground ==> 2 <= z < REGION_DEPTH
                && spec_ground_z(region.tile_types@, x as int, y as int)
                == ground_from(region.tile_types@, x as int, y as int, z as int),
            hit_ground ==> z == spec_ground_z(region.tile_types@, x as int, y as int),
        decreases (if hit_ground { 0int } else { z + 1 }),
    {
        let idx = mapidx(x, y, z);
        assert(spec_mapidx(x as int, y as int, z as int) < REGION_TILES_COUNT) by (nonlinear_arith)
            requires x < 256, y < 256, z < 256,
                spec_mapidx(x as int, y as int, z as int) == z * 65536 + y * 256 + x;
        if region.tile_types[idx] == TileType::Solid {
            hit_ground = true;
            z += 1;
        } else {
            z -= 1;
        }
        if z == 1 {
            hit_ground = true;
        }
    }
    z
}

/// Number of columns that `build_ramps` visits in a row (and of rows it visits).
pub const INTERIOR_SPAN: usize = 254;

/// The ramp, if any, that the ground tile of column `(x, y)` at layer `z` turns
/// into: the first of the north, south, east and west neighbours one layer up
/// that is a floor gives the direction.
pub open spec fn ramp_for(tiles: Seq<TileType>, x: int, y: int, z: int) -> Option<RampDirection> {
    if tiles[spec_mapidx(x, y - 1, z + 1)] == TileType::Floor {
        Some(RampDirection::NorthSouth)
    } else if tiles[spec_mapidx(x, y + 1, z + 1)] == TileType::Floor {
        Some(RampDirection::SouthNorth)
    } else if tiles[spec_mapidx(x + 1, y, z + 1)] == TileType::Floor {
        Some(RampDirection::WestEast)
    } else if tiles[spec_mapidx(x - 1, y, z + 1)] == TileType::Floor {
        Some(RampDirection::EastWest)
    } else {
        None
    }
}

/// The tiles after column `(x, y)` is considered: a floor at ground level with a
/// floor next to it one layer up becomes a ramp towards that floor.
pub open spec fn column_ramp(tiles: Seq<TileType>, x: int, y: int) -> Seq<TileType> {
    let z = spec_ground_z(tiles, x, y);
    let idx = spec_mapidx(x, y, z);
    if tiles[idx] == TileType::Floor {
        match ramp_for(tiles, x, y, z) {
            Some(direction) => tiles.update(idx, TileType::Ramp { direction }),
            None => tiles,
        }
    } else {
        tiles
    }
}

/// The tiles after the first `k` interior columns are considered, row by row,
/// each column seeing the tiles as the previous ones left them.
pub open spec fn ramps_after(tiles: Seq<TileType>, k: int) -> Seq<TileType>
    decreases k,
{
    if k <= 0 {
        tiles
    } else {
        column_ramp(
            ramps_after(tiles, k - 1),
            1 + (k - 1) % (INTERIOR_SPAN as int),
            1 + (k - 1) / (INTERIOR_SPAN as int),
        )
    }
}

/// Column `(x, y)` has its ground inside the region, and a ground that is a floor
/// has a layer above it.
pub open spec fn ground_buildable(tiles: Seq<TileType>, x: int, y: int) -> bool {
    let z = spec_ground_z(tiles, x, y);
    &&& z < REGION_DEPTH
    &&& tiles[spec_mapidx(x, y, z)] == TileType::Floor ==> z + 1 < REGION_DEPTH
}

/// Every interior column has its ground inside the region, and a ground that is a
/// floor has a layer above it.
pub open spec fn ramps_buildable(tiles: Seq<TileType>) -> bool {
    forall|x: int, y: int|
        1 <= x < REGION_WIDTH - 1 && 1 <= y < REGION_HEIGHT - 1 ==> #[trigger] ground_buildable(tiles, x, y)
}

/// Tile `i` of `after` differs from `before` only where a floor at the ground of an
/// interior column became a ramp.
pub open spec fn only_ground_floors_ramped(before: Seq<TileType>, after: Seq<TileType>) -> bool {
    &&& after.len() == before.len()
    &&& forall|i: int| 0 <= i < before.len() && #[trigger] after[i] != before[i] ==> {
        let (x, y, z) = spec_idxmap(i);
        &&& before[i] == TileType::Floor
        &&& after[i] is Ramp
        &&& 1 <= x < REGION_WIDTH - 1
        &&& 1 <= y < REGION_HEIGHT - 1
        &&& z == spec_ground_z(before, x, y)
    }
}

/// The index of a tile of the region lies inside the region.
pub proof fn lemma_mapidx_in_region(x: int, y: int, z: int)
    requires
        0 <= x < REGION_WIDTH,
        0 <= y < REGION_HEIGHT,
        0 <= z < REGION_DEPTH,
    ensures
        0 <= spec_mapidx(x, y, z) < REGION_TILES_COUNT,
{
    assert(0 <= spec_mapidx(x, y, z) < REGION_TILES_COUNT) by (nonlinear_arith)
        requires 0 <= x < 256, 0 <= y < 256, 0 <= z < 256,
            spec_mapidx(x, y, z) == z * 65536 + y * 256 + x;
}

/// The ground of a column depends only on which tiles are solid.
pub proof fn lemma_ground_from_solid(a: Seq<TileType>, b: Seq<TileType>, x: int, y: int, z: int)
    requires
        a.len() == REGION_TILES_COUNT,
        b.len() == REGION_TILES_COUNT,
        forall|i: int| 0 <= i < a.len() ==> (#[trigger] a[i] == TileType::Solid) == (b[i] == TileType::Solid),
        0 <= x < REGION_WIDTH,
        0 <= y < REGION_HEIGHT,
        0 <= z < REGION_DEPTH,
    ensures
        ground_from(a, x, y, z) == ground_from(b, x, y, z),
    decreases z,
{
    lemma_mapidx_in_region(x, y, z);
    if z > 2 {
        lemma_ground_from_solid(a, b, x, y, z - 1);
    }
}

/// Turns the floor at the ground of each interior column into a ramp when a
/// neighbouring column has a floor one layer up, trying north, south, east and
/// west in that order.
pub fn build_ramps(region: &mut Region)
    requires
        old(region).wf(),
        ramps_buildable(old(region).tile_types@),
    ensures
        final(region).wf(),
        final(region).tile_types@ == ramps_after(
            old(region).tile_types@,
            (INTERIOR_SPAN * INTERIOR_SPAN) as int,
        ),
        only_ground_floors_ramped(old(region).tile_types@, final(region).tile_types@),
{
    let ghost start = region.tile_types@;
    let mut y: usize = 1;
    while y < REGION_HEIGHT - 1
        invariant
            1 <= y <= REGION_HEIGHT - 1,
            region.wf(),
            ramps_buildable(start),
            start.len() == REGION_TILES_COUNT,
            region.tile_types@ == ramps_after(start, (y - 1) * INTERIOR_SPAN),
            only_ground_floors_ramped(start, region.tile_types@),
        decreases REGION_HEIGHT - 1 - y,
    {
        let mut x: usize = 1;
        while x < REGION_WIDTH - 1
            invariant
                1 <= y < REGION_HEIGHT - 1,
                1 <= x <= REGION_WIDTH - 1,
                region.wf(),
                ramps_buildable(start),
                start.len() == REGION_TILES_COUNT,
                region.tile_types@ == ramps_after(start, (y - 1) * INTERIOR_SPAN + (x - 1)),
                only_ground_floors_ramped(start, region.tile_types@),
            decreases REGION_WIDTH - 1 - x,
        {
            let ghost cur = region.tile_types@;
            let ghost k = (y - 1) * INTERIOR_SPAN + (x - 1);
            proof {
                vstd::arithmetic::div_mod::lemma_fundamental_div_mod_converse(
                    k as int, INTERIOR_SPAN as int, (y - 1) as int, (x - 1) as int);
                assert forall|i: int| 0 <= i < cur.len() implies
                    (#[trigger] cur[i] == TileType::Solid) == (start[i] == TileType::Solid) by {
                    if cur[i] != start[i] {
                        assert(start[i] == TileType::Floor);
                    }
                }
                lemma_ground_from_solid(cur, start, x as int, y as int, REGION_DEPTH - 1);
                assert(ground_buildable(start, x as int, y as int));
            }
            let z = ground_z(region, x, y);
            let idx = mapidx(x, y, z);
            proof {
                lemma_mapidx_in_region(x as int, y as int, z as int);
                lemma_idxmap_of_mapidx(x as int, y as int, z as int);
            }
            if region.tile_types[idx] == TileType::Floor {
                proof {
                    if cur[idx as int] != start[idx as int] {
                        assert(cur[idx as int] is Ramp);
                    }
                    assert(start[idx as int] == TileType::Floor);
                    lemma_mapidx_in_region(x as int, (y - 1) as int, (z + 1) as int);
                    lemma_mapidx_in_region(x as int, (y + 1) as int, (z + 1) as int);
                    lemma_mapidx_in_region((x + 1) as int, y as int, (z + 1) as int);
                    lemma_mapidx_in_region((x - 1) as int, y as int, (z + 1) as int);
                }
                if region.tile_types[mapidx(x, y - 1, z + 1)] == TileType::Floor {
                    region.tile_types.set(idx, TileType::Ramp { direction: RampDirection::NorthSouth });
                } else if region.tile_types[mapidx(x, y + 1, z + 1)] == TileType::Floor {
                    region.tile_types.set(idx, TileType::Ramp { direction: RampDirection::SouthNorth });
                } else if region.tile_types[mapidx(x + 1, y, z + 1)] == TileType::Floor {
                    region.tile_types.set(idx, TileType::Ramp { direction: RampDirection::WestEast });
                } else if region.tile_types[mapidx(x - 1, y, z + 1)] == TileType::Floor {
                    region.tile_types.set(idx, TileType::Ramp { direction: RampDirection::EastWest });
                }
            }
            proof {
                assert(region.tile_types@ == column_ramp(cur, x as int, y as int));
                assert(ramps_after(start, k + 1) == column_ramp(ramps_after(start, k), x as int, y as int));
                assert forall|i: int| 0 <= i < start.len() && #[trigger] region.tile_types@[i] != start[i] implies {
                    let (xi, yi, zi) = spec_idxmap(i);
                    &&& start[i] == TileType::Floor
                    &&& region.tile_types@[i] is Ramp
                    &&& 1 <= xi < REGION_WIDTH - 1
                    &&& 1 <= yi < REGION_HEIGHT - 1
                    &&& zi == spec_ground_z(start, xi, yi)
                } by {
                    if i != idx as int {
                        assert(region.tile_types@[i] == cur[i]);
                    }
                }
            }
            x += 1;
        }
        y += 1;
    }
}


/// Whether `build_ramps` can run on the region: every interior column has its
/// ground inside the region, and a ground that is a floor has a layer above it.
pub fn ramps_buildable_check(region: &Region) -> (ok: bool)
    requires
        region.wf(),
    ensures
        ok == ramps_buildable(region.tile_types@),
{
    let ghost tiles = region.tile_types@;
    let mut y: usize = 1;
    while y < REGION_HEIGHT - 1
        invariant
            1 <= y <= REGION_HEIGHT - 1,
            region.wf(),
            tiles == region.tile_types@,
            forall|xx: int, yy: int| 1 <= xx < REGION_WIDTH - 1 && 1 <= yy < y
                ==> #[trigger] ground_buildable(tiles, xx, yy),
        decreases REGION_HEIGHT - 1 - y,
    {
        let mut x: usize = 1;
        while x < REGION_WIDTH - 1
            invariant
                1 <= y < REGION_HEIGHT - 1,
                1 <= x <= REGION_WIDTH - 1,
                region.wf(),
                tiles == region.tile_types@,
                forall|xx: int, yy: int| 1 <= xx < REGION_WIDTH - 1 && 1 <= yy < y
                    ==> #[trigger] ground_buildable(tiles, xx, yy),
                forall|xx: int| 1 <= xx < x ==> #[trigger] ground_buildable(tiles, xx, y as int),
            decreases REGION_WIDTH - 1 - x,
        {
            let z = ground_z(region, x, y);
            if z >= REGION_DEPTH {
                assert(!ground_buildable(tiles, x as int, y as int));
                return false;
            }
            let idx = mapidx(x, y, z);
            proof { lemma_mapidx_in_region(x as int, y as int, z as int); }
            if region.tile_types[idx] == TileType::Floor && z + 1 >= REGION_DEPTH {
                assert(!ground_buildable(tiles, x as int, y as int));
                return false;
            }
            assert(ground_buildable(tiles, x as int, y as int));
            x += 1;
        }
        y += 1;
    }
    true
}

/// Place of column `(x, y)` in the order in which `build_ramps` visits the
/// interior columns, row by row.
pub open spec fn column_order(x: int, y: int) -> int {
    (y - 1) * (INTERIOR_SPAN as int) + (x - 1)
}

/// Between the tiles after `j` and after `k` interior columns, the only tiles that
/// changed are floors at the ground of the columns `j .. k`, which became ramps.
pub proof fn lemma_ramps_between(t: Seq<TileType>, j: int, k: int)
    requires
        t.len() == REGION_TILES_COUNT,
        ramps_buildable(t),
        0 <= j <= k <= INTERIOR_SPAN * INTERIOR_SPAN,
    ensures
        ramps_after(t, k).len() == REGION_TILES_COUNT,
        forall|i: int| 0 <= i < REGION_TILES_COUNT && #[trigger] ramps_after(t, k)[i] != ramps_after(t, j)[i]
            ==> {
            let (x, y, z) = spec_idxmap(i);
            &&& ramps_after(t, j)[i] == TileType::Floor
            &&& ramps_after(t, k)[i] is Ramp
            &&& 1 <= x < REGION_WIDTH - 1
            &&& 1 <= y < REGION_HEIGHT - 1
            &&& z == spec_ground_z(t, x, y)
            &&& j <= column_order(x, y) < k
        },
    decreases k, j,
{
    if k == j {
        if k > 0 {
            lemma_ramps_between(t, 0, k);
        }
    } else {
        lemma_ramps_between(t, j, k - 1);
        lemma_ramps_between(t, 0, k - 1);
        let s = ramps_after(t, k - 1);
        let sj = ramps_after(t, j);
        let x = 1 + (k - 1) % (INTERIOR_SPAN as int);
        let y = 1 + (k - 1) / (INTERIOR_SPAN as int);
        assert(1 <= y < REGION_HEIGHT - 1) by (nonlinear_arith)
            requires y == 1 + (k - 1) / 254, 1 <= k <= 254 * 254;
        vstd::arithmetic::div_mod::lemma_fundamental_div_mod(k - 1, INTERIOR_SPAN as int);
        assert(column_order(x, y) == k - 1);
        assert forall|i: int| 0 <= i < s.len() implies
            (#[trigger] s[i] == TileType::Solid) == (t[i] == TileType::Solid) by {
            if s[i] != ramps_after(t, 0)[i] {
                assert(s[i] is Ramp);
            }
        }
        lemma_ground_from_solid(s, t, x, y, REGION_DEPTH - 1);
        assert(ground_buildable(t, x, y));
        let g = spec_ground_z(t, x, y);
        lemma_ground_from_positive(t, x, y, REGION_DEPTH - 1);
        let idx = spec_mapidx(x, y, g);
        lemma_mapidx_in_region(x, y, g);
        lemma_idxmap_of_mapidx(x, y, g);
        let n = ramps_after(t, k);
        assert(n == column_ramp(s, x, y));
        assert forall|i: int| 0 <= i < REGION_TILES_COUNT && #[trigger] n[i] != sj[i] implies {
            let (xi, yi, zi) = spec_idxmap(i);
            &&& sj[i] == TileType::Floor
            &&& n[i] is Ramp
            &&& 1 <= xi < REGION_WIDTH - 1
            &&& 1 <= yi < REGION_HEIGHT - 1
            &&& zi == spec_ground_z(t, xi, yi)
            &&& j <= column_order(xi, yi) < k
        } by {
            if n[i] != s[i] {
                assert(i == idx);
                assert(s[i] == TileType::Floor);
                if s[i] != sj[i] {
                    assert(column_order(x, y) < k - 1);
                }
            } else {
                assert(s[i] != sj[i]);
            }
        }
    }
}

/// The ground of every column is where it was before any ramp was built.
pub proof fn lemma_ramps_keep_ground(t: Seq<TileType>, k: int, x: int, y: int)
    requires
        t.len() == REGION_TILES_COUNT,
        ramps_buildable(t),
        0 <= k <= INTERIOR_SPAN * INTERIOR_SPAN,
        0 <= x < REGION_WIDTH,
        0 <= y < REGION_HEIGHT,
    ensures
        ramps_after(t, k).len() == REGION_TILES_COUNT,
        spec_ground_z(ramps_after(t, k), x, y) == spec_ground_z(t, x, y),
{
    lemma_ramps_between(t, 0, k);
    let s = ramps_after(t, k);
    assert forall|i: int| 0 <= i < s.len() implies
        (#[trigger] s[i] == TileType::Solid) == (t[i] == TileType::Solid) by {
        if s[i] != ramps_after(t, 0)[i] {
            assert(s[i] is Ramp);
        }
    }
    lemma_ground_from_solid(s, t, x, y, REGION_DEPTH - 1);
}

/// A tile whose column is not among the columns `j .. k` is the same after `j`
/// and after `k` columns.
proof fn lemma_tile_outside(t: Seq<TileType>, j: int, k: int, i: int)
    requires
        t.len() == REGION_TILES_COUNT,
        ramps_buildable(t),
        0 <= j <= k <= INTERIOR_SPAN * INTERIOR_SPAN,
        0 <= i < REGION_TILES_COUNT,
        !(j <= column_order(spec_idxmap(i).0, spec_idxmap(i).1) < k),
    ensures
        ramps_after(t, k)[i] == ramps_after(t, j)[i],
{
    lemma_ramps_between(t, j, k);
}

/// A tile that is not a floor after `j` columns stays as it is.
proof fn lemma_tile_not_floor(t: Seq<TileType>, j: int, k: int, i: int)
    requires
        t.len() == REGION_TILES_COUNT,
        ramps_buildable(t),
        0 <= j <= k <= INTERIOR_SPAN * INTERIOR_SPAN,
        0 <= i < REGION_TILES_COUNT,
        ramps_after(t, j)[i] != TileType::Floor,
    ensures
        ramps_after(t, k)[i] == ramps_after(t, j)[i],
{
    lemma_ramps_between(t, j, k);
}

/// Once every interior column has been considered, considering column number `c`
/// again changes nothing.
proof fn lemma_column_settled(t: Seq<TileType>, c: int)
    requires
        t.len() == REGION_TILES_COUNT,
        ramps_buildable(t),
        0 <= c < INTERIOR_SPAN * INTERIOR_SPAN,
    ensures
        column_ramp(
            ramps_after(t, INTERIOR_SPAN * INTERIOR_SPAN),
            1 + c % (INTERIOR_SPAN as int),
            1 + c / (INTERIOR_SPAN as int),
        ) == ramps_after(t, INTERIOR_SPAN * INTERIOR_SPAN),
{
    let full = INTERIOR_SPAN * INTERIOR_SPAN;
    let r1 = ramps_after(t, full);
    let sc = ramps_after(t, c);
    let x = 1 + c % (INTERIOR_SPAN as int);
    let y = 1 + c / (INTERIOR_SPAN as int);
    assert(1 <= y < REGION_HEIGHT - 1) by (nonlinear_arith)
        requires y == 1 + c / 254, 0 <= c < 254 * 254;
    vstd::arithmetic::div_mod::lemma_fundamental_div_mod(c, INTERIOR_SPAN as int);
    assert(column_order(x, y) == c);
    lemma_ramps_keep_ground(t, full, x, y);
    lemma_ramps_keep_ground(t, c, x, y);
    assert(ground_buildable(t, x, y));
    let g = spec_ground_z(t, x, y);
    lemma_ground_from_positive(t, x, y, REGION_DEPTH - 1);
    let idx = spec_mapidx(x, y, g);
    lemma_mapidx_in_region(x, y, g);
    lemma_idxmap_of_mapidx(x, y, g);
    if r1[idx] == TileType::Floor {
        assert(sc[idx] == TileType::Floor && ramp_for(sc, x, y, g) is None) by {
            lemma_tile_outside(t, c + 1, full, idx);
            lemma_tile_outside(t, 0, c, idx);
            assert(ramps_after(t, 0) == t);
            assert(ramps_after(t, c + 1) == column_ramp(sc, x, y));
        }
        assert(g + 1 < REGION_DEPTH) by {
            lemma_tile_outside(t, 0, c, idx);
            assert(ramps_after(t, 0) == t);
        }
        lemma_mapidx_in_region(x, y - 1, g + 1);
        lemma_mapidx_in_region(x, y + 1, g + 1);
        lemma_mapidx_in_region(x + 1, y, g + 1);
        lemma_mapidx_in_region(x - 1, y, g + 1);
        let n1 = spec_mapidx(x, y - 1, g + 1);
        let n2 = spec_mapidx(x, y + 1, g + 1);
        let n3 = spec_mapidx(x + 1, y, g + 1);
        let n4 = spec_mapidx(x - 1, y, g + 1);
        assert(sc[n1] != TileType::Floor);
        lemma_tile_not_floor(t, c, full, n1);
        assert(sc[n2] != TileType::Floor);
        lemma_tile_not_floor(t, c, full, n2);
        assert(sc[n3] != TileType::Floor);
        lemma_tile_not_floor(t, c, full, n3);
        assert(sc[n4] != TileType::Floor);
        lemma_tile_not_floor(t, c, full, n4);
        assert(ramp_for(r1, x, y, g) is None);
    }
}

/// Considering every interior column of the tiles that `build_ramps` left, any
/// number of them, gives back those tiles.
proof fn lemma_ramps_settled(t: Seq<TileType>, k: int)
    requires
        t.len() == REGION_TILES_COUNT,
        ramps_buildable(t),
        0 <= k <= INTERIOR_SPAN * INTERIOR_SPAN,
    ensures
        ramps_after(ramps_after(t, INTERIOR_SPAN * INTERIOR_SPAN), k)
            == ramps_after(t, INTERIOR_SPAN * INTERIOR_SPAN),
    decreases k,
{
    if k > 0 {
        lemma_ramps_settled(t, k - 1);
        lemma_column_settled(t, k - 1);
    }
}

/// Building ramps a second time changes nothing: the tiles that `build_ramps`
/// leaves still meet its precondition, and building ramps on them gives them back.
pub proof fn lemma_build_ramps_idempotent(t: Seq<TileType>)
    requires
        t.len() == REGION_TILES_COUNT,
        ramps_buildable(t),
    ensures
        ramps_buildable(ramps_after(t, INTERIOR_SPAN * INTERIOR_SPAN)),
        ramps_after(ramps_after(t, INTERIOR_SPAN * INTERIOR_SPAN), INTERIOR_SPAN * INTERIOR_SPAN)
            == ramps_after(t, INTERIOR_SPAN * INTERIOR_SPAN),
{
    let full = INTERIOR_SPAN * INTERIOR_SPAN;
    let r1 = ramps_after(t, full);
    lemma_ramps_between(t, 0, full);
    assert forall|x: int, y: int| 1 <= x < REGION_WIDTH - 1 && 1 <= y < REGION_HEIGHT - 1 implies
        #[trigger] ground_buildable(r1, x, y) by {
        lemma_ramps_keep_ground(t, full, x, y);
        assert(ground_buildable(t, x, y));
        let g = spec_ground_z(t, x, y);
        lemma_ground_from_positive(t, x, y, REGION_DEPTH - 1);
        lemma_mapidx_in_region(x, y, g);
        let idx = spec_mapidx(x, y, g);
        if r1[idx] != t[idx] {
            assert(ramps_after(t, 0) == t);
            assert(r1[idx] is Ramp);
        }
    }
    lemma_ramps_settled(t, full);
}


/// The tile next to column `(x, y)` at layer `z + 1` that a ramp at `(x, y, z)`
/// climbing in direction `d` leads to: north is `y - 1`, south `y + 1`, east
/// `x + 1`, west `x - 1`.
pub open spec fn ramp_target(d: RampDirection, x: int, y: int, z: int) -> int {
    match d {
        RampDirection::NorthSouth => spec_mapidx(x, y - 1, z + 1),
        RampDirection::SouthNorth => spec_mapidx(x, y + 1, z + 1),
        RampDirection::WestEast => spec_mapidx(x + 1, y, z + 1),
        RampDirection::EastWest => spec_mapidx(x - 1, y, z + 1),
    }
}

/// Order in which the directions are tried: north, south, east, west.
pub open spec fn direction_rank(d: RampDirection) -> int {
    match d {
        RampDirection::NorthSouth => 0,
        RampDirection::SouthNorth => 1,
        RampDirection::WestEast => 2,
        RampDirection::EastWest => 3,
    }
}

/// The tiles that `build_ramps` changes are ground floors of interior columns that
/// became ramps, and a ramp always leads to a floor: when its column was
/// considered, the tile next to it one layer up in its direction was a floor, and
/// no direction tried before it led to a floor.
pub proof fn lemma_ramps_lead_to_floors(t: Seq<TileType>, i: int)
    requires
        t.len() == REGION_TILES_COUNT,
        ramps_buildable(t),
        0 <= i < REGION_TILES_COUNT,
        ramps_after(t, INTERIOR_SPAN * INTERIOR_SPAN)[i] != t[i],
    ensures
        t[i] == TileType::Floor,
        1 <= spec_idxmap(i).0 < REGION_WIDTH - 1,
        1 <= spec_idxmap(i).1 < REGION_HEIGHT - 1,
        spec_idxmap(i).2 == spec_ground_z(t, spec_idxmap(i).0, spec_idxmap(i).1),
        ramps_after(t, INTERIOR_SPAN * INTERIOR_SPAN)[i] matches TileType::Ramp { direction } && {
            let (x, y, z) = spec_idxmap(i);
            let seen = ramps_after(t, column_order(x, y));
            &&& seen[ramp_target(direction, x, y, z)] == TileType::Floor
            &&& forall|d: RampDirection| direction_rank(d) < direction_rank(direction)
                ==> seen[#[trigger] ramp_target(d, x, y, z)] != TileType::Floor
        },
{
    let full = INTERIOR_SPAN * INTERIOR_SPAN;
    lemma_ramps_between(t, 0, full);
    assert(ramps_after(t, 0) == t);
    let (x, y, z) = spec_idxmap(i);
    let c = column_order(x, y);
    lemma_mapidx_of_idxmap(i);
    vstd::arithmetic::div_mod::lemma_fundamental_div_mod_converse(
        c, INTERIOR_SPAN as int, y - 1, x - 1);
    lemma_tile_outside(t, c + 1, full, i);
    lemma_tile_outside(t, 0, c, i);
    lemma_ramps_keep_ground(t, c, x, y);
    let sc = ramps_after(t, c);
    assert(ramps_after(t, c + 1) == column_ramp(sc, x, y));
    assert(ground_buildable(t, x, y));
    lemma_mapidx_in_region(x, y, z);
}

/// A floor at the ground of an interior column that, when its column is
/// considered, has a floor next to it one layer up in some direction ends up a ramp.
pub proof fn lemma_floor_by_floor_becomes_ramp(t: Seq<TileType>, x: int, y: int, d: RampDirection)
    requires
        t.len() == REGION_TILES_COUNT,
        ramps_buildable(t),
        1 <= x < REGION_WIDTH - 1,
        1 <= y < REGION_HEIGHT - 1,
        t[spec_mapidx(x, y, spec_ground_z(t, x, y))] == TileType::Floor,
        ramps_after(t, column_order(x, y))[ramp_target(d, x, y, spec_ground_z(t, x, y))] == TileType::Floor,
    ensures
        ramps_after(t, INTERIOR_SPAN * INTERIOR_SPAN)[spec_mapidx(x, y, spec_ground_z(t, x, y))] is Ramp,
{
    let full = INTERIOR_SPAN * INTERIOR_SPAN;
    let c = column_order(x, y);
    assert(0 <= c < full) by (nonlinear_arith)
        requires c == (y - 1) * 254 + (x - 1), 1 <= x <= 254, 1 <= y <= 254, full == 254 * 254;
    vstd::arithmetic::div_mod::lemma_fundamental_div_mod_converse(
        c, INTERIOR_SPAN as int, y - 1, x - 1);
    assert(ground_buildable(t, x, y));
    let g = spec_ground_z(t, x, y);
    lemma_ground_from_positive(t, x, y, REGION_DEPTH - 1);
    let idx = spec_mapidx(x, y, g);
    lemma_mapidx_in_region(x, y, g);
    lemma_idxmap_of_mapidx(x, y, g);
    lemma_tile_outside(t, c + 1, full, idx);
    lemma_tile_outside(t, 0, c, idx);
    assert(ramps_after(t, 0) == t);
    lemma_ramps_keep_ground(t, c, x, y);
    let sc = ramps_after(t, c);
    assert(ramps_after(t, c + 1) == column_ramp(sc, x, y));
    assert(ramp_for(sc, x, y, g) is Some);
}


/// Scanning down from layer `z` finds the ground just above the highest solid tile
/// at a layer from 2 to `z`, or 1 when there is none.
proof fn lemma_ground_from_top_solid(t: Seq<TileType>, x: int, y: int, z: int)
    requires
        2 <= z,
    ensures
        ground_from(t, x, y, z) == 1 || (3 <= ground_from(t, x, y, z) <= z + 1
            && t[spec_mapidx(x, y, ground_from(t, x, y, z) - 1)] == TileType::Solid),
        forall|w: int| 2 <= w <= z && ground_from(t, x, y, z) <= w
            ==> t[#[trigger] spec_mapidx(x, y, w)] != TileType::Solid,
        ground_from(t, x, y, z) == 1 ==> forall|w: int| 2 <= w <= z
            ==> t[#[trigger] spec_mapidx(x, y, w)] != TileType::Solid,
    decreases z,
{
    if z > 2 {
        lemma_ground_from_top_solid(t, x, y, z - 1);
    }
}

/// The ground of a column lies just above its highest solid tile from layer 2 up:
/// no tile of the column at or above the ground is solid, and a ground above
/// layer 1 stands on a solid tile; a ground of 1 means no tile from layer 2 up is
/// solid.
pub proof fn lemma_ground_above_top_solid(t: Seq<TileType>, x: int, y: int)
    ensures
        spec_ground_z(t, x, y) == 1 || (3 <= spec_ground_z(t, x, y) <= REGION_DEPTH
            && t[spec_mapidx(x, y, spec_ground_z(t, x, y) - 1)] == TileType::Solid),
        forall|w: int| 2 <= w < REGION_DEPTH && spec_ground_z(t, x, y) <= w
            ==> t[#[trigger] spec_mapidx(x, y, w)] != TileType::Solid,
        spec_ground_z(t, x, y) == 1 ==> forall|w: int| 2 <= w < REGION_DEPTH
            ==> t[#[trigger] spec_mapidx(x, y, w)] != TileType::Solid,
{
    lemma_ground_from_top_solid(t, x, y, REGION_DEPTH - 1);
}

} // verus!
