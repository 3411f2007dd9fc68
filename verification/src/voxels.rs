use vstd::prelude::*;
use std::collections::{HashMap, HashSet};

verus! {

broadcast use vstd::std_specs::hash::group_hash_axioms;

/// Voxels of a model, keyed by flat index, holding a material number.
pub type VoxMap = HashMap<i32, u8>;

/// Keys `start`, `start + 1`, ..., `start + len - 1`.
pub open spec fn span(start: int, len: int) -> Set<i32> {
    Set::new(|k: i32| start <= k < start + len)
}

/// `n` rows of `width` keys; row `j` starts at `start + j * stride`.
pub open spec fn rows(start: int, width: int, stride: int, n: int) -> Set<i32>
    decreases n,
{
    if n <= 0 {
        Set::empty()
    } else {
        rows(start, width, stride, n - 1).union(span(start + (n - 1) * stride, width))
    }
}

/// `n` planes of `height` rows of `width` keys; plane `l` starts at `start + l * layer`.
pub open spec fn planes(start: int, width: int, stride: int, height: int, layer: int, n: int) -> Set<i32>
    decreases n,
{
    if n <= 0 {
        Set::empty()
    } else {
        planes(start, width, stride, height, layer, n - 1).union(
            rows(start + (n - 1) * layer, width, stride, height),
        )
    }
}

/// Voxel `k` is present in `m` with material `mat`.
pub open spec fn holds(m: Map<i32, u8>, k: i32, mat: u8) -> bool {
    m.contains_key(k) && m[k] == mat
}

/// Position `p` names a key of `m` that holds material `mat`; a position outside
/// the range of `i32` names no key.
pub open spec fn holds_at(m: Map<i32, u8>, p: int, mat: u8) -> bool {
    i32::MIN <= p <= i32::MAX && holds(m, p as i32, mat)
}

/// Every position of `start .. start + width` holds material `mat` in `m`.
pub open spec fn row_available(m: Map<i32, u8>, start: int, width: int, mat: u8) -> bool {
    forall|p: int| start <= p < start + width ==> #[trigger] holds_at(m, p, mat)
}

/// Every row of a plane is available in `m` with material `mat`.
pub open spec fn plane_available(
    m: Map<i32, u8>,
    start: int,
    width: int,
    stride: int,
    height: int,
    mat: u8,
) -> bool {
    forall|j: int| 0 <= j < height ==> #[trigger] row_available(m, start + j * stride, width, mat)
}

/// Every key of `m` lies in `0 .. bound`.
pub open spec fn keys_below(m: Map<i32, u8>, bound: int) -> bool {
    forall|k: i32| #[trigger] m.contains_key(k) ==> 0 <= k < bound
}

/// No key of `m` is negative.
pub open spec fn keys_nonneg(m: Map<i32, u8>) -> bool {
    forall|k: i32| #[trigger] m.contains_key(k) ==> 0 <= k
}

/// Dimensions of a voxel model; voxel `(x, y, z)` has index `z * x_size * y_size + y * x_size + x`.
#[derive(Clone, Copy, Debug, PartialEq, Eq)]
pub struct ModelSize {
    pub x: u32,
    pub y: u32,
    pub z: u32,
}

impl ModelSize {
    /// Positive dimensions; every index of the model is an `i32` key, and the
    /// square of the width (the offset of the neighbours two layers apart along
    /// the index) is one too.
    pub open spec fn wf(self) -> bool {
        &&& 0 < self.x
        &&& 0 < self.y
        &&& 0 < self.z
        &&& self.x * self.y * self.z <= i32::MAX + 1
        &&& self.x * self.x <= i32::MAX
    }

    /// Number of voxels in the model.
    pub open spec fn volume(self) -> int {
        self.x * self.y * self.z
    }

    /// Number of voxels in one `z` layer.
    pub open spec fn layer(self) -> int {
        self.x * self.y
    }

    /// Index of voxel `(x, y, z)`.
    pub open spec fn index_of(self, x: int, y: int, z: int) -> int {
        z * self.layer() + y * self.x + x
    }

    /// Coordinates of the voxel with index `idx`.
    pub fn idxmap(&self, idx: u32) -> (xyz: (u32, u32, u32))
        requires
            0 < self.x,
            0 < self.y,
            self.x * self.y <= u32::MAX,
        ensures
            xyz.0 < self.x,
            xyz.1 < self.y,
            self.index_of(xyz.0 as int, xyz.1 as int, xyz.2 as int) == idx,
            idx < self.volume() ==> xyz.2 < self.z,
    {
        let layer = self.x * self.y;
        assert(layer > 0) by (nonlinear_arith)
            requires layer == self.x * self.y, self.x > 0, self.y > 0;
        let z = idx / layer;
        let rem = idx % layer;
        let y = rem / self.x;
        let x = rem % self.x;
        proof {
            vstd::arithmetic::div_mod::lemma_fundamental_div_mod(idx as int, layer as int);
            vstd::arithmetic::div_mod::lemma_fundamental_div_mod(rem as int, self.x as int);
            assert(y < self.y) by (nonlinear_arith)
                requires y == rem / self.x, rem < layer, layer == self.x * self.y, self.x > 0;
            assert(idx < self.volume() ==> z < self.z) by (nonlinear_arith)
                requires z == idx / layer, layer == self.x * self.y, layer > 0,
                    self.volume() == self.x * self.y * self.z;
            assert(self.index_of(x as int, y as int, z as int) == idx) by (nonlinear_arith)
                requires idx == layer * z + rem, rem == self.x * y + x, layer == self.layer();
        }
        (x, y, z)
    }
}

/// Bounds that follow from a well-formed size.
pub proof fn lemma_size_bounds(size: ModelSize)
    requires
        size.wf(),
    ensures
        0 < size.layer() <= size.volume() <= i32::MAX + 1,
        size.x <= size.layer(),
        size.x * size.y == size.layer(),
        size.x <= 46340,
{
    assert(0 < size.layer() <= size.volume()) by (nonlinear_arith)
        requires size.x > 0, size.y > 0, size.z > 0,
            size.layer() == size.x * size.y, size.volume() == size.x * size.y * size.z;
    assert(size.x <= size.layer()) by (nonlinear_arith)
        requires size.x > 0, size.y > 0, size.layer() == size.x * size.y;
    assert(size.x <= 46340) by (nonlinear_arith)
        requires size.x * size.x <= 2147483647, size.x > 0;
}

/// A finite set of keys that all lie in `lo .. hi` has at most `hi - lo` members.
pub proof fn lemma_keys_in_range_len(s: Set<i32>, lo: int, hi: int)
    requires
        s.finite(),
        lo <= hi,
        forall|k: i32| #[trigger] s.contains(k) ==> lo <= k < hi,
    ensures
        s.len() <= hi - lo,
    decreases hi - lo,
{
    if hi == lo {
        assert(s =~= Set::empty());
    } else if i32::MIN <= hi - 1 <= i32::MAX && s.contains((hi - 1) as i32) {
        lemma_keys_in_range_len(s.remove((hi - 1) as i32), lo, hi - 1);
    } else {
        lemma_keys_in_range_len(s, lo, hi - 1);
    }
}

/// The smallest key of a voxel map, if it has any.
fn min_key(cube_index: &VoxMap) -> (r: Option<i32>)
    ensures
        r is None <==> cube_index@.dom().is_empty(),
        r matches Some(k) ==> cube_index@.contains_key(k)
            && forall|j: i32| cube_index@.contains_key(j) ==> k <= j,
{
    let mut best: Option<i32> = None;
    for k in it: cube_index.keys()
        invariant
            it.seq().unref().to_set() == cube_index@.dom(),
            best is None <==> it.index() == 0,
            best matches Some(b) ==> cube_index@.contains_key(b)
                && forall|i: int| 0 <= i < it.index() ==> b <= *it.seq()[i],
    {
        match best {
            None => { best = Some(*k); },
            Some(b) => { if *k < b { best = Some(*k); } },
        }
    }
    best
}

/// Removes the run of voxels of material `mat` that follows `idx`, and returns
/// the length of the run counting `idx` itself. The run is no longer than the
/// map, so when `idx` plus the map's length fits an `i32`, every index it looks at
/// is at most one past `i32::MAX`.
pub fn grow_right(cube_index: &mut VoxMap, idx: u32, mat: u8) -> (width: u32)
    requires
        idx + old(cube_index)@.len() <= i32::MAX,
    ensures
        width >= 1,
        idx + width <= i32::MAX + 1,
        row_available(old(cube_index)@, idx + 1, width - 1, mat),
        !holds(old(cube_index)@, (idx + width) as i32, mat),
        final(cube_index)@ == old(cube_index)@.remove_keys(span(idx + 1, width - 1)),
{
    let ghost start = cube_index@;
    assert(start.dom().finite());
    let mut width: u32 = 1;
    let mut candidate_idx: u32 = idx + 1;
    while cube_index.contains_key(&(candidate_idx as i32))
        && *cube_index.get(&(candidate_idx as i32)).unwrap() == mat
        invariant
            start.dom().finite(),
            idx + start.len() <= i32::MAX,
            candidate_idx == idx + width,
            width >= 1,
            cube_index@.dom().finite(),
            cube_index@.len() + (width - 1) == start.len(),
            row_available(start, idx + 1, width - 1, mat),
            cube_index@ == start.remove_keys(span(idx + 1, width - 1)),
        decreases cube_index@.len(),
    {
        assert(candidate_idx <= i32::MAX) by {
            assert(cube_index@.contains_key(candidate_idx as i32));
            assert(cube_index@.dom().len() > 0);
        }
        let ghost k = candidate_idx as i32;
        let ghost before = cube_index@;
        assert(holds_at(start, candidate_idx as int, mat)) by {
            assert(!span(idx + 1, width - 1).contains(k));
        }
        cube_index.remove(&(candidate_idx as i32));
        assert(span(idx + 1, width - 1).insert(k) =~= span(idx + 1, width as int));
        assert(start.remove_keys(span(idx + 1, width - 1)).remove(k)
            =~= start.remove_keys(span(idx + 1, width as int)));
        assert(cube_index@.dom() =~= before.dom().remove(k));
        width += 1;
        candidate_idx += 1;
    }
    proof {
        let k = candidate_idx as i32;
        if candidate_idx > i32::MAX {
            assert(candidate_idx == 0x8000_0000u32);
            assert(k == i32::MIN) by (bit_vector)
                requires k == candidate_idx as i32, candidate_idx == 0x8000_0000u32;
        }
        assert(!span(idx + 1, width - 1).contains(k));
    }
    width
}

/// Whether every position of `start .. start + width` holds material `mat`.
fn check_row(cube_index: &VoxMap, start: u64, width: u64, mat: u8) -> (r: bool)
    requires
        start + width <= u64::MAX,
    ensures
        r == row_available(cube_index@, start as int, width as int, mat),
{
    let mut cidx = start;
    let end = start + width;
    while cidx < end
        invariant
            start <= cidx <= end,
            end == start + width,
            row_available(cube_index@, start as int, cidx - start, mat),
        decreases end - cidx,
    {
        if cidx > 2147483647u64 {
            assert(!holds_at(cube_index@, cidx as int, mat));
            return false;
        }
        let present = match cube_index.get(&(cidx as i32)) {
            Some(v) => *v == mat,
            None => false,
        };
        if !present {
            assert(!holds_at(cube_index@, cidx as int, mat));
            return false;
        }
        cidx += 1;
    }
    true
}

/// Removes the keys `start .. start + width`.
fn remove_row(cube_index: &mut VoxMap, start: u64, width: u64)
    requires
        start + width <= i32::MAX + 1,
    ensures
        final(cube_index)@ == old(cube_index)@.remove_keys(span(start as int, width as int)),
{
    let ghost before = cube_index@;
    let mut cidx = start;
    let end = start + width;
    while cidx < end
        invariant
            start <= cidx <= end,
            end == start + width,
            end <= i32::MAX + 1,
            cube_index@ == before.remove_keys(span(start as int, cidx - start)),
        decreases end - cidx,
    {
        cube_index.remove(&(cidx as i32));
        assert(span(start as int, cidx - start).insert(cidx as i32)
            =~= span(start as int, cidx + 1 - start));
        assert(before.remove_keys(span(start as int, cidx - start)).remove(cidx as i32)
            =~= before.remove_keys(span(start as int, cidx + 1 - start)));
        cidx += 1;
    }
}

/// The last position of an available row holds a key of `m`.
proof fn lemma_row_end(m: Map<i32, u8>, start: int, width: int, mat: u8)
    requires
        width >= 1,
        row_available(m, start, width, mat),
    ensures
        holds(m, (start + width - 1) as i32, mat),
        i32::MIN <= start + width - 1 <= i32::MAX,
        i32::MIN <= start <= i32::MAX,
        holds(m, start as i32, mat),
{
    assert(holds_at(m, start + width - 1, mat));
    assert(holds_at(m, start, mat));
}

/// Removes the rows of `width` voxels of material `mat` that follow the row at
/// `idx`, each `size.x` further on, as long as a whole row is there; returns the
/// number of rows counting the one at `idx`. The first row looked at ends at
/// `idx + size.x + width`, which is a `u32`.
pub fn grow_down(cube_index: &mut VoxMap, idx: u32, width: u32, mat: u8, size: &ModelSize) -> (height: u32)
    requires
        size.wf(),
        width >= 1,
        idx + size.x + width <= u32::MAX,
        keys_below(old(cube_index)@, size.volume()),
    ensures
        height >= 1,
        height == 1 || idx + (height - 1) * size.x + width <= size.volume(),
        forall|j: int| 1 <= j < height ==> #[trigger] row_available(
            old(cube_index)@.remove_keys(rows(idx + size.x, width as int, size.x as int, j - 1)),
            idx + j * size.x, width as int, mat),
        !row_available(final(cube_index)@, idx + height * size.x, width as int, mat),
        final(cube_index)@ == old(cube_index)@.remove_keys(
            rows(idx + size.x, width as int, size.x as int, height - 1)),
        forall|k: i32| #[trigger] rows(idx + size.x, width as int, size.x as int, height - 1).contains(k)
            ==> holds(old(cube_index)@, k, mat),
{
    let ghost start = cube_index@;
    let ghost first = idx + size.x;
    let ghost vol = size.volume();
    proof { lemma_size_bounds(*size); }
    let sx = size.x as u64;
    let w = width as u64;
    let mut height: u32 = 1;
    let mut candidate_idx: u64 = idx as u64 + sx;
    loop
        invariant_except_break
            size.wf(),
            0 < vol <= i32::MAX + 1,
            vol == size.volume(),
            sx == size.x,
            1 <= sx <= 46340,
            w == width,
            width >= 1,
            idx + size.x + width <= u32::MAX,
            keys_below(start, vol),
            first == idx + size.x,
            height >= 1,
            candidate_idx == idx + height * size.x,
            height == 1 || idx + (height - 1) * size.x + width <= vol,
            forall|j: int| 1 <= j < height ==> #[trigger] row_available(
                start.remove_keys(rows(first, width as int, size.x as int, j - 1)),
                idx + j * size.x, width as int, mat),
            cube_index@ == start.remove_keys(rows(first, width as int, size.x as int, height - 1)),
            forall|k: i32| #[trigger] rows(first, width as int, size.x as int, height - 1).contains(k)
                ==> holds(start, k, mat),
        ensures
            height >= 1,
            height == 1 || idx + (height - 1) * size.x + width <= vol,
            forall|j: int| 1 <= j < height ==> #[trigger] row_available(
                start.remove_keys(rows(first, width as int, size.x as int, j - 1)),
                idx + j * size.x, width as int, mat),
            !row_available(cube_index@, idx + height * size.x, width as int, mat),
            cube_index@ == start.remove_keys(rows(first, width as int, size.x as int, height - 1)),
            forall|k: i32| #[trigger] rows(first, width as int, size.x as int, height - 1).contains(k)
                ==> holds(start, k, mat),
        decreases idx + vol + size.x - candidate_idx,
    {
        assert(candidate_idx <= idx + vol + size.x) by (nonlinear_arith)
            requires candidate_idx == idx + height * size.x, height >= 1,
                height == 1 || idx + (height - 1) * size.x + width <= vol, width >= 1, vol >= 1;
        if !check_row(cube_index, candidate_idx, w, mat) {
            break;
        }
        let ghost before = cube_index@;
        proof {
            lemma_row_end(before, candidate_idx as int, width as int, mat);
            assert(before.contains_key((candidate_idx + width - 1) as i32));
            assert(start.contains_key((candidate_idx + width - 1) as i32));
        }
        remove_row(cube_index, candidate_idx, w);
        proof {
            let old_rows = rows(first, width as int, size.x as int, height - 1);
            let new_rows = rows(first, width as int, size.x as int, height as int);
            assert(new_rows == old_rows.union(span(candidate_idx as int, width as int))) by {
                assert(first + (height - 1) * size.x == candidate_idx) by (nonlinear_arith)
                    requires first == idx + size.x, candidate_idx == idx + height * size.x;
            }
            assert(start.remove_keys(old_rows).remove_keys(span(candidate_idx as int, width as int))
                =~= start.remove_keys(new_rows));
            assert forall|k: i32| #[trigger] new_rows.contains(k) implies holds(start, k, mat) by {
                if !old_rows.contains(k) {
                    assert(holds_at(before, k as int, mat));
                    assert(holds(before, k, mat));
                }
            }
            assert(candidate_idx + size.x == idx + (height + 1) * size.x) by (nonlinear_arith)
                requires candidate_idx == idx + height * size.x;
            assert(height < vol) by (nonlinear_arith)
                requires size.x >= 1, idx + height * size.x + width <= vol, width >= 1;
        }
        height += 1;
        candidate_idx += sx;
    }
    height
}

/// Keys of rows that are all available are available.
pub proof fn lemma_rows_available(
    m: Map<i32, u8>,
    start: int,
    width: int,
    stride: int,
    n: int,
    mat: u8,
)
    requires
        plane_available(m, start, width, stride, n, mat),
    ensures
        forall|k: i32| #[trigger] rows(start, width, stride, n).contains(k) ==> holds(m, k, mat),
    decreases n,
{
    if n > 0 {
        assert(plane_available(m, start, width, stride, n - 1, mat)) by {
            assert forall|j: int| 0 <= j < n - 1 implies #[trigger] row_available(
                m, start + j * stride, width, mat) by {
                assert(row_available(m, start + j * stride, width, mat));
            }
        }
        lemma_rows_available(m, start, width, stride, n - 1, mat);
        assert(row_available(m, start + (n - 1) * stride, width, mat));
        assert forall|k: i32| #[trigger] rows(start, width, stride, n).contains(k) implies holds(m, k, mat) by {
            if !rows(start, width, stride, n - 1).contains(k) {
                assert(span(start + (n - 1) * stride, width).contains(k));
                assert(start + (n - 1) * stride <= k < start + (n - 1) * stride + width);
                assert(holds_at(m, k as int, mat));
            }
        }
    }
}

/// Whether each of the `height` rows of `width` voxels, the first at `start` and
/// each `stride` after the last, holds material `mat`.
fn check_plane(cube_index: &VoxMap, start: u64, width: u64, stride: u64, height: u64, mat: u8) -> (r: bool)
    requires
        width >= 1,
        start <= 0x2_0000_0000u64,
        width <= u32::MAX,
        stride <= u32::MAX,
    ensures
        r == plane_available(cube_index@, start as int, width as int, stride as int, height as int, mat),
{
    let mut y: u64 = 0;
    let mut row_start: u64 = start;
    while y < height
        invariant
            y <= height,
            width >= 1,
            start <= 0x2_0000_0000u64,
            width <= u32::MAX,
            stride <= u32::MAX,
            row_start == start + y * stride,
            row_start <= start + 0x1_8000_0000u64,
            plane_available(cube_index@, start as int, width as int, stride as int, y as int, mat),
        decreases height - y,
    {
        if row_start > 2147483647u64 {
            assert(!holds_at(cube_index@, row_start as int, mat));
            assert(!row_available(cube_index@, start + y * stride, width as int, mat));
            return false;
        }
        if !check_row(cube_index, row_start, width, mat) {
            return false;
        }
        assert(row_start + stride == start + (y + 1) * stride) by (nonlinear_arith)
            requires row_start == start + y * stride;
        y += 1;
        row_start += stride;
    }
    true
}

/// Removes the `height` rows of `width` voxels, the first at `start` and each
/// `stride` after the last.
fn remove_plane(cube_index: &mut VoxMap, start: u64, width: u64, stride: u64, height: u64)
    requires
        height >= 1,
        start + (height - 1) * stride + width <= i32::MAX + 1,
    ensures
        final(cube_index)@ == old(cube_index)@.remove_keys(
            rows(start as int, width as int, stride as int, height as int)),
{
    let ghost before = cube_index@;
    let mut y: u64 = 0;
    while y < height
        invariant
            y <= height,
            height >= 1,
            start + (height - 1) * stride + width <= i32::MAX + 1,
            cube_index@ == before.remove_keys(rows(start as int, width as int, stride as int, y as int)),
        decreases height - y,
    {
        assert(start + y * stride + width <= start + (height - 1) * stride + width) by (nonlinear_arith)
            requires y < height, stride >= 0;
        remove_row(cube_index, start + y * stride, width);
        assert(before.remove_keys(rows(start as int, width as int, stride as int, y as int)).remove_keys(
            span(start + y * stride, width as int))
            =~= before.remove_keys(rows(start as int, width as int, stride as int, y + 1)));
        y += 1;
    }
}

/// Removes the planes of `height` rows of `width` voxels of material `mat` that
/// follow the plane at `idx`, each one layer of the model further on, as long as a
/// whole plane is there; returns the number of planes counting the one at `idx`.
/// The first plane looked at starts at `idx + size.layer()`, which is a `u32`.
pub fn grow_in(
    cube_index: &mut VoxMap,
    idx: u32,
    width: u32,
    height: u32,
    mat: u8,
    size: &ModelSize,
) -> (depth: u32)
    requires
        size.wf(),
        width >= 1,
        height >= 1,
        idx + size.layer() <= u32::MAX,
        keys_below(old(cube_index)@, size.volume()),
    ensures
        depth >= 1,
        forall|l: int| 1 <= l < depth ==> #[trigger] plane_available(
            old(cube_index)@.remove_keys(planes(idx + size.layer(), width as int, size.x as int,
                height as int, size.layer(), l - 1)),
            idx + l * size.layer(), width as int, size.x as int, height as int, mat),
        !plane_available(final(cube_index)@, idx + depth * size.layer(), width as int, size.x as int,
            height as int, mat),
        final(cube_index)@ == old(cube_index)@.remove_keys(
            planes(idx + size.layer(), width as int, size.x as int, height as int, size.layer(), depth - 1)),
        forall|k: i32| #[trigger] planes(idx + size.layer(), width as int, size.x as int, height as int,
            size.layer(), depth - 1).contains(k) ==> holds(old(cube_index)@, k, mat),
{
    let ghost start = cube_index@;
    proof { lemma_size_bounds(*size); }
    let ghost sxi = size.x as int;
    let ghost layer = size.layer();
    let ghost vol = size.volume();
    let ghost first = idx + size.layer();
    let mut depth: u32 = 1;
    let layer_size: u64 = (size.x * size.y) as u64;
    let sx = size.x as u64;
    let mut candidate_idx: u64 = idx as u64 + layer_size;
    loop
        invariant_except_break
            size.wf(),
            0 < layer <= vol <= i32::MAX + 1,
            layer == size.layer(),
            vol == size.volume(),
            layer_size == layer,
            sxi == size.x,
            sx == size.x,
            1 <= sx <= 46340,
            width >= 1,
            height >= 1,
            keys_below(start, vol),
            first == idx + layer,
            depth >= 1,
            candidate_idx == idx + depth * layer,
            depth == 1 || idx + (depth - 1) * layer + (height - 1) * sxi + width <= vol,
            forall|l: int| 1 <= l < depth ==> #[trigger] plane_available(
                start.remove_keys(planes(first, width as int, sxi, height as int, layer, l - 1)),
                idx + l * layer, width as int, sxi, height as int, mat),
            cube_index@ == start.remove_keys(
                planes(first, width as int, sxi, height as int, layer, depth - 1)),
            forall|k: i32| #[trigger] planes(first, width as int, sxi, height as int, layer,
                depth - 1).contains(k) ==> holds(start, k, mat),
        ensures
            depth >= 1,
            forall|l: int| 1 <= l < depth ==> #[trigger] plane_available(
                start.remove_keys(planes(first, width as int, sxi, height as int, layer, l - 1)),
                idx + l * layer, width as int, sxi, height as int, mat),
            !plane_available(cube_index@, idx + depth * layer, width as int, sxi, height as int, mat),
            cube_index@ == start.remove_keys(
                planes(first, width as int, sxi, height as int, layer, depth - 1)),
            forall|k: i32| #[trigger] planes(first, width as int, sxi, height as int, layer,
                depth - 1).contains(k) ==> holds(start, k, mat),
        decreases idx + vol + layer - candidate_idx,
    {
        assert(candidate_idx <= idx + vol + layer) by (nonlinear_arith)
            requires candidate_idx == idx + depth * layer, depth >= 1,
                depth == 1 || idx + (depth - 1) * layer + (height - 1) * sxi + width <= vol,
                width >= 1, height >= 1, sxi >= 1, vol >= 1;
        if !check_plane(cube_index, candidate_idx, width as u64, sx, height as u64, mat) {
            break;
        }
        let ghost before = cube_index@;
        let ghost last_row = candidate_idx + (height - 1) * sxi;
        proof {
            assert(row_available(before, candidate_idx + (height - 1) * sxi, width as int, mat));
            lemma_row_end(before, last_row, width as int, mat);
            assert(start.contains_key((last_row + width - 1) as i32));
            assert(row_available(before, candidate_idx + 0 * sxi, width as int, mat));
            lemma_row_end(before, candidate_idx as int, width as int, mat);
        }
        remove_plane(cube_index, candidate_idx, width as u64, sx, height as u64);
        proof {
            let plane = rows(candidate_idx as int, width as int, sxi, height as int);
            let old_planes = planes(first, width as int, sxi, height as int, layer, depth - 1);
            let new_planes = planes(first, width as int, sxi, height as int, layer, depth as int);
            assert(new_planes == old_planes.union(plane)) by {
                assert(first + (depth - 1) * layer == candidate_idx) by (nonlinear_arith)
                    requires first == idx + layer, candidate_idx == idx + depth * layer;
            }
            assert(start.remove_keys(old_planes).remove_keys(plane) =~= start.remove_keys(new_planes));
            lemma_rows_available(before, candidate_idx as int, width as int, sxi, height as int, mat);
            assert forall|k: i32| #[trigger] new_planes.contains(k) implies holds(start, k, mat) by {
                if !old_planes.contains(k) {
                    assert(plane.contains(k));
                    assert(holds(before, k, mat));
                }
            }
            assert(candidate_idx + layer == idx + (depth + 1) * layer) by (nonlinear_arith)
                requires candidate_idx == idx + depth * layer;
            assert(depth < vol) by (nonlinear_arith)
                requires layer >= 1, idx + depth * layer + (height - 1) * sxi + width <= vol,
                    width >= 1, height >= 1, sxi >= 1;
        }
        depth += 1;
        candidate_idx += layer_size;
    }
    depth
}

/// Position `p` names a key present in `m`; a position outside the range of
/// `i32` names none.
pub open spec fn key_present(m: Map<i32, u8>, p: int) -> bool {
    i32::MIN <= p <= i32::MAX && m.contains_key(p as i32)
}

/// `k` is a voxel whose six neighbours are all present in `m`: one step along
/// the row either way, one row (`sx` voxels) either way, and `sx * sx` voxels
/// either way.
pub open spec fn hidden(m: Map<i32, u8>, k: i32, sx: int) -> bool {
    &&& key_present(m, k - 1)
    &&& key_present(m, k + 1)
    &&& key_present(m, k - sx)
    &&& key_present(m, k + sx)
    &&& key_present(m, k + sx * sx)
    &&& key_present(m, k - sx * sx)
}

/// The keys of `m` that are hidden.
pub open spec fn hidden_keys(m: Map<i32, u8>, sx: int) -> Set<i32> {
    Set::new(|k: i32| m.contains_key(k) && hidden(m, k, sx))
}

/// `m` without its hidden voxels.
pub open spec fn visible(m: Map<i32, u8>, sx: int) -> Map<i32, u8> {
    m.remove_keys(hidden_keys(m, sx))
}

/// Whether position `p` names a key of the map.
fn has_key(cube_index: &VoxMap, p: i64) -> (r: bool)
    ensures
        r == key_present(cube_index@, p as int),
{
    if p < -2147483648i64 || p > 2147483647i64 {
        false
    } else {
        cube_index.contains_key(&(p as i32))
    }
}

/// Removes every voxel whose six neighbours are all present. Keys are voxel
/// indices, so none is negative.
pub fn cull_hidden(cube_index: &mut VoxMap, size: &ModelSize)
    requires
        size.x * size.x <= i32::MAX,
        keys_nonneg(old(cube_index)@),
    ensures
        final(cube_index)@ == visible(old(cube_index)@, size.x as int),
{
    let ghost start = cube_index@;
    let ghost hidden_set = hidden_keys(start, size.x as int);
    let sx = size.x as i64;
    let sq = sx * sx;
    let mut invisible: HashSet<i32> = HashSet::new();
    for k in it: cube_index.keys()
        invariant
            cube_index@ == start,
            hidden_set == hidden_keys(start, size.x as int),
            sx == size.x,
            sq == size.x * size.x,
            0 <= sq <= i32::MAX,
            0 <= sx <= u32::MAX,
            it.seq().unref().to_set() == start.dom(),
            forall|x: i32| #[trigger] invisible@.contains(x) ==> hidden_set.contains(x),
            forall|i: int| 0 <= i < it.index() && hidden_set.contains(*it.seq()[i])
                ==> invisible@.contains(*it.seq()[i]),
        ensures
            forall|x: i32| #[trigger] invisible@.contains(x) ==> hidden_set.contains(x),
            forall|x: i32| hidden_set.contains(x) ==> invisible@.contains(x),
    {
        let key = *k;
        let kk = key as i64;
        assert(it.seq().unref().to_set().contains(key)) by {
            assert(it.seq().unref()[it.index()] == key);
        }
        if has_key(cube_index, kk - 1) && has_key(cube_index, kk + 1)
            && has_key(cube_index, kk - sx) && has_key(cube_index, kk + sx)
            && has_key(cube_index, kk + sq) && has_key(cube_index, kk - sq)
        {
            assert(hidden_set.contains(key));
            invisible.insert(key);
        } else {
            assert(!hidden_set.contains(key));
        }
    }
    assert(invisible@ =~= hidden_set);
    for k in it: invisible.iter()
        invariant
            it.seq().unref().to_set() == hidden_set,
            hidden_set == hidden_keys(start, size.x as int),
            forall|i: int| 0 <= i < it.index() ==> !cube_index@.contains_key(*it.seq()[i]),
            forall|x: i32| #[trigger] cube_index@.contains_key(x)
                ==> start.contains_key(x) && cube_index@[x] == start[x],
            forall|x: i32| #[trigger] start.contains_key(x) && !hidden_set.contains(x)
                ==> cube_index@.contains_key(x),
        ensures
            forall|x: i32| hidden_set.contains(x) ==> !cube_index@.contains_key(x),
            forall|x: i32| #[trigger] cube_index@.contains_key(x)
                ==> start.contains_key(x) && cube_index@[x] == start[x],
            forall|x: i32| #[trigger] start.contains_key(x) && !hidden_set.contains(x)
                ==> cube_index@.contains_key(x),
    {
        cube_index.remove(k);
    }
    assert(cube_index@ =~= start.remove_keys(hidden_set));
}


/// A box of voxels of one material found by the greedy mesher: it starts at voxel
/// `(x, y, z)` and spans `width` voxels along a row, `height` rows and `depth` layers.
#[derive(Clone, Copy, Debug, PartialEq, Eq)]
pub struct GreedyCube {
    pub x: u32,
    pub y: u32,
    pub z: u32,
    pub width: u32,
    pub height: u32,
    pub depth: u32,
    pub material: u8,
}

/// Index of the first voxel of a cube.
pub open spec fn cube_base(c: GreedyCube, size: ModelSize) -> int {
    size.index_of(c.x as int, c.y as int, c.z as int)
}

/// Indices of the voxels that a cube covers: `base + l * layer + j * size.x + i`
/// for `i < width`, `j < height`, `l < depth`.
pub open spec fn cube_cells(c: GreedyCube, size: ModelSize) -> Set<i32> {
    planes(cube_base(c, size), c.width as int, size.x as int, c.height as int, size.layer(), c.depth as int)
}

/// Voxels covered by a sequence of cubes.
pub open spec fn covered(cubes: Seq<GreedyCube>, size: ModelSize) -> Set<i32>
    decreases cubes.len(),
{
    if cubes.len() == 0 {
        Set::empty()
    } else {
        covered(cubes.drop_last(), size).union(cube_cells(cubes.last(), size))
    }
}

/// `cubes` cover exactly the voxels of `m`, each voxel once, each cube in one
/// material, in increasing order of first voxel, each cube starting inside the model.
pub open spec fn is_greedy_cover(m: Map<i32, u8>, cubes: Seq<GreedyCube>, size: ModelSize) -> bool {
    &&& covered(cubes, size) == m.dom()
    &&& forall|i: int, k: i32| 0 <= i < cubes.len() && #[trigger] cube_cells(cubes[i], size).contains(k)
        ==> holds(m, k, cubes[i].material)
    &&& forall|i: int, j: int| 0 <= i < j < cubes.len()
        ==> #[trigger] cube_cells(cubes[i], size).disjoint(#[trigger] cube_cells(cubes[j], size))
    &&& forall|i: int, j: int| 0 <= i < j < cubes.len()
        ==> cube_base(#[trigger] cubes[i], size) < cube_base(#[trigger] cubes[j], size)
    &&& forall|i: int| 0 <= i < cubes.len() ==> {
        &&& (#[trigger] cubes[i]).x < size.x
        &&& cubes[i].y < size.y
        &&& cubes[i].z < size.z
        &&& cubes[i].width >= 1
        &&& cubes[i].height >= 1
        &&& cubes[i].depth >= 1
    }
}

/// `c` is the box that one greedy step takes out of the voxels `m`: it starts at
/// the smallest index of `m`, its row runs as far as voxels of its material follow,
/// then whole rows are added while the next row (among what is left) is all of its
/// material, then whole planes likewise.
pub open spec fn is_greedy_box(m: Map<i32, u8>, c: GreedyCube, size: ModelSize) -> bool {
    let b = cube_base(c, size);
    let w = c.width as int;
    let h = c.height as int;
    let d = c.depth as int;
    let sx = size.x as int;
    let layer = size.layer();
    let mat = c.material;
    let m1 = m.remove_keys(span(b, w));
    let m2 = m.remove_keys(rows(b, w, sx, h));
    &&& holds(m, b as i32, mat)
    &&& forall|k: i32| #[trigger] m.contains_key(k) ==> b <= k
    &&& row_available(m, b + 1, w - 1, mat)
    &&& !holds(m, (b + w) as i32, mat)
    &&& forall|j: int| 1 <= j < h ==> #[trigger] row_available(
        m1.remove_keys(rows(b + sx, w, sx, j - 1)), b + j * sx, w, mat)
    &&& !row_available(m1.remove_keys(rows(b + sx, w, sx, h - 1)), b + h * sx, w, mat)
    &&& forall|l: int| 1 <= l < d ==> #[trigger] plane_available(
        m2.remove_keys(planes(b + layer, w, sx, h, layer, l - 1)), b + l * layer, w, sx, h, mat)
    &&& !plane_available(m2.remove_keys(planes(b + layer, w, sx, h, layer, d - 1)), b + d * layer, w, sx, h, mat)
}

/// Each cube is the box that a greedy step takes out of what the earlier cubes left.
pub open spec fn is_greedy_sequence(m: Map<i32, u8>, cubes: Seq<GreedyCube>, size: ModelSize) -> bool {
    forall|i: int| 0 <= i < cubes.len() ==> #[trigger] is_greedy_box(
        m.remove_keys(covered(cubes.take(i), size)), cubes[i], size)
}

/// A run of one key followed by a run of `len` keys is a run of `len + 1` keys.
pub proof fn lemma_span_front(start: int, len: int)
    requires
        len >= 0,
    ensures
        span(start, 1).union(span(start + 1, len)) == span(start, len + 1),
{
    assert(span(start, 1).union(span(start + 1, len)) =~= span(start, len + 1));
}

/// A row followed by `n` rows is `n + 1` rows.
pub proof fn lemma_rows_front(start: int, width: int, stride: int, n: int)
    requires
        n >= 0,
    ensures
        span(start, width).union(rows(start + stride, width, stride, n)) == rows(start, width, stride, n + 1),
    decreases n,
{
    if n == 0 {
        assert(rows(start, width, stride, 0) == Set::<i32>::empty());
        assert(start + 0 * stride == start);
        assert(rows(start, width, stride, 1) =~= span(start, width));
        assert(span(start, width).union(rows(start + stride, width, stride, 0)) =~= span(start, width));
    } else {
        lemma_rows_front(start, width, stride, n - 1);
        assert(start + stride + (n - 1) * stride == start + n * stride) by (nonlinear_arith);
        assert(span(start, width).union(rows(start + stride, width, stride, n))
            =~= rows(start, width, stride, n + 1));
    }
}

/// A plane followed by `n` planes is `n + 1` planes.
pub proof fn lemma_planes_front(start: int, width: int, stride: int, height: int, layer: int, n: int)
    requires
        n >= 0,
    ensures
        rows(start, width, stride, height).union(planes(start + layer, width, stride, height, layer, n))
            == planes(start, width, stride, height, layer, n + 1),
    decreases n,
{
    if n == 0 {
        assert(planes(start, width, stride, height, layer, 0) == Set::<i32>::empty());
        assert(start + 0 * layer == start);
        assert(planes(start, width, stride, height, layer, 1) =~= rows(start, width, stride, height));
        assert(rows(start, width, stride, height).union(planes(start + layer, width, stride, height, layer, 0))
            =~= rows(start, width, stride, height));
    } else {
        lemma_planes_front(start, width, stride, height, layer, n - 1);
        assert(start + layer + (n - 1) * layer == start + n * layer) by (nonlinear_arith);
        assert(rows(start, width, stride, height).union(planes(start + layer, width, stride, height, layer, n))
            =~= planes(start, width, stride, height, layer, n + 1));
    }
}

/// Each cube's cells are part of what the sequence covers.
pub proof fn lemma_covered_contains(cubes: Seq<GreedyCube>, size: ModelSize, i: int)
    requires
        0 <= i < cubes.len(),
    ensures
        cube_cells(cubes[i], size).subset_of(covered(cubes, size)),
    decreases cubes.len(),
{
    if i < cubes.len() - 1 {
        lemma_covered_contains(cubes.drop_last(), size, i);
    }
}

/// Meshes a voxel model greedily: drops the voxels whose six neighbours are all
/// present, then, taking each time the smallest index left, grows a box of its
/// material along the row, then down the rows, then into the layers, removes it and
/// records it. Every voxel ends up removed.
pub fn greedy_cubes(cube_index: &mut VoxMap, size: &ModelSize) -> (cubes: Vec<GreedyCube>)
    requires
        size.wf(),
        keys_below(old(cube_index)@, size.volume()),
    ensures
        final(cube_index)@ == Map::<i32, u8>::empty(),
        is_greedy_cover(visible(old(cube_index)@, size.x as int), cubes@, *size),
        is_greedy_sequence(visible(old(cube_index)@, size.x as int), cubes@, *size),
{
    proof { lemma_size_bounds(*size); }
    cull_hidden(cube_index, size);
    let ghost vis = cube_index@;
    let mut cubes: Vec<GreedyCube> = Vec::new();
    loop
        invariant_except_break
            size.wf(),
            0 < size.layer() <= size.volume() <= i32::MAX + 1,
            size.x <= 46340,
            keys_below(vis, size.volume()),
            cube_index@ == vis.remove_keys(covered(cubes@, *size)),
            covered(cubes@, *size).subset_of(vis.dom()),
            forall|i: int, k: i32| 0 <= i < cubes.len() && #[trigger] cube_cells(cubes@[i], *size).contains(k)
                ==> holds(vis, k, cubes@[i].material),
            forall|i: int, j: int| 0 <= i < j < cubes.len()
                ==> #[trigger] cube_cells(cubes@[i], *size).disjoint(#[trigger] cube_cells(cubes@[j], *size)),
            forall|i: int, j: int| 0 <= i < j < cubes.len()
                ==> cube_base(#[trigger] cubes@[i], *size) < cube_base(#[trigger] cubes@[j], *size),
            forall|i: int, k: i32| 0 <= i < cubes.len() && #[trigger] cube_index@.contains_key(k)
                ==> cube_base(#[trigger] cubes@[i], *size) < k,
            is_greedy_sequence(vis, cubes@, *size),
            forall|i: int| 0 <= i < cubes.len() ==> {
                &&& (#[trigger] cubes@[i]).x < size.x
                &&& cubes@[i].y < size.y
                &&& cubes@[i].z < size.z
                &&& cubes@[i].width >= 1
                &&& cubes@[i].height >= 1
                &&& cubes@[i].depth >= 1
            },
        ensures
            cube_index@ == Map::<i32, u8>::empty(),
            is_greedy_cover(vis, cubes@, *size),
            is_greedy_sequence(vis, cubes@, *size),
        decreases cube_index@.dom().len(),
    {
        let min_key = min_key(cube_index);
        if min_key.is_none() {
            proof {
                assert(cube_index@ =~= Map::<i32, u8>::empty());
                assert forall|k: i32| vis.dom().contains(k) implies covered(cubes@, *size).contains(k) by {
                    if !covered(cubes@, *size).contains(k) {
                        assert(cube_index@.contains_key(k));
                    }
                }
                assert(covered(cubes@, *size) =~= vis.dom());
            }
            break;
        }
        let idx = min_key.unwrap();
        let ghost cur = cube_index@;
        let mat_idx = cube_index.remove(&idx).unwrap();
        assert(0 <= idx < size.volume());
        let (x, y, z) = size.idxmap(idx as u32);
        let ghost cur1 = cube_index@;
        proof {
            assert(cur1.dom().finite());
            assert forall|k: i32| #[trigger] cur1.dom().contains(k) implies idx + 1 <= k < size.volume() by {
                assert(cur.contains_key(k));
            }
            lemma_keys_in_range_len(cur1.dom(), idx + 1, size.volume());
        }
        let width = grow_right(cube_index, idx as u32, mat_idx);
        let ghost cur2 = cube_index@;
        proof {
            if width >= 2 {
                assert(holds_at(cur1, idx + width - 1, mat_idx));
                assert(cur.contains_key((idx + width - 1) as i32));
            }
            assert(idx + width <= size.volume());
            assert forall|k: i32| #[trigger] cur2.contains_key(k) implies 0 <= k < size.volume() by {
                assert(cur.contains_key(k));
            }
        }
        let height = grow_down(cube_index, idx as u32, width, mat_idx, size);
        let ghost cur3 = cube_index@;
        proof {
            assert forall|k: i32| #[trigger] cur3.contains_key(k) implies 0 <= k < size.volume() by {
                assert(cur.contains_key(k));
            }
        }
        let depth = grow_in(cube_index, idx as u32, width, height, mat_idx, size);
        let cube = GreedyCube { x, y, z, width, height, depth, material: mat_idx };
        proof {
            let sx = size.x as int;
            let layer = size.layer();
            let w = width as int;
            let h = height as int;
            let d = depth as int;
            let ii = idx as int;
            let r0 = span(ii, 1);
            let r1 = span(ii + 1, w - 1);
            let r2 = rows(ii + sx, w, sx, h - 1);
            let r3 = planes(ii + layer, w, sx, h, layer, d - 1);
            let cells = cube_cells(cube, *size);
            assert(cube_base(cube, *size) == ii);
            lemma_span_front(ii, w - 1);
            lemma_rows_front(ii, w, sx, h - 1);
            lemma_planes_front(ii, w, sx, h, layer, d - 1);
            assert(cells == r0.union(r1).union(r2).union(r3));
            assert(r0 =~= set![idx]);
            assert(cube_index@ =~= cur.remove_keys(cells));
            assert forall|k: i32| #[trigger] cells.contains(k) implies holds(cur, k, mat_idx) by {
                if r0.contains(k) {
                } else if r1.contains(k) {
                    assert(holds_at(cur1, k as int, mat_idx));
                    assert(holds(cur1, k, mat_idx));
                } else if r2.contains(k) {
                    assert(holds(cur2, k, mat_idx));
                } else {
                    assert(holds(cur3, k, mat_idx));
                }
            }
            let old_cubes = cubes@;
            let new_cubes = old_cubes.push(cube);
            assert(new_cubes.drop_last() =~= old_cubes);
            assert(covered(new_cubes, *size) == covered(old_cubes, *size).union(cells));
            assert(vis.remove_keys(covered(old_cubes, *size)).remove_keys(cells)
                =~= vis.remove_keys(covered(new_cubes, *size)));
            assert forall|i: int| 0 <= i < old_cubes.len() implies
                #[trigger] cube_cells(old_cubes[i], *size).disjoint(cells) by {
                lemma_covered_contains(old_cubes, *size, i);
            }
            assert forall|i: int| 0 <= i < old_cubes.len() implies
                cube_base(#[trigger] old_cubes[i], *size) < ii by {
                assert(cur.contains_key(idx));
            }
            assert forall|k: i32| #[trigger] cube_index@.contains_key(k) implies ii < k by {
                assert(cur.contains_key(k));
                assert(k != idx);
            }
            assert(cube_index@.dom().subset_of(cur.dom().remove(idx)));
            vstd::set_lib::lemma_len_subset(cube_index@.dom(), cur.dom().remove(idx));
            // the step is a greedy box of `cur`
            let m1 = cur.remove_keys(span(ii, w));
            let m2 = cur.remove_keys(rows(ii, w, sx, h));
            assert(row_available(cur, ii + 1, w - 1, mat_idx)) by {
                assert forall|p: int| ii + 1 <= p < ii + 1 + (w - 1) implies #[trigger] holds_at(cur, p, mat_idx) by {
                    assert(holds_at(cur1, p, mat_idx));
                }
            }
            assert(!holds(cur, (ii + w) as i32, mat_idx)) by {
                assert(!holds(cur1, (ii + w) as i32, mat_idx));
                if ii + w > i32::MAX {
                    let c: u32 = 0x8000_0000u32;
                    assert(c as i32 == i32::MIN) by (bit_vector)
                        requires c == 0x8000_0000u32;
                    assert((ii + w) as i32 == c as i32);
                }
                assert((ii + w) as i32 != idx);
            }
            assert(cur2 =~= m1) by {
                assert(span(ii, w) == r0.union(r1));
            }
            assert(cur3 =~= m2) by {
                assert(rows(ii, w, sx, h) == span(ii, w).union(r2));
            }
            assert(is_greedy_box(cur, cube, *size));
        }
        let ghost old_cubes = cubes@;
        cubes.push(cube);
        proof {
            assert(cubes@.take(old_cubes.len() as int) =~= old_cubes);
            assert forall|i: int| 0 <= i < cubes.len() implies #[trigger] is_greedy_box(
                vis.remove_keys(covered(cubes@.take(i), *size)), cubes@[i], *size) by {
                if i < old_cubes.len() {
                    assert(cubes@.take(i) =~= old_cubes.take(i));
                    assert(cubes@[i] == old_cubes[i]);
                }
            }
            let cells = cube_cells(cube, *size);
            assert forall|i: int, j: int| 0 <= i < j < cubes.len() implies
                #[trigger] cube_cells(cubes@[i], *size).disjoint(#[trigger] cube_cells(cubes@[j], *size)) by {
                if j == cubes.len() - 1 {
                    assert(cubes@[j] == cube);
                }
            }
        }
    }
    cubes
}


/// A voxel is culled exactly when all six of its index neighbours, `k - 1`, `k + 1`,
/// `k - sx`, `k + sx`, `k + sx * sx` and `k - sx * sx`, are voxels, whatever their
/// material; every other voxel is kept with its material.
pub proof fn lemma_visible_keys(m: Map<i32, u8>, sx: int, k: i32)
    ensures
        visible(m, sx).contains_key(k) <==> m.contains_key(k) && !(
            (i32::MIN <= k - 1 <= i32::MAX && m.contains_key((k - 1) as i32))
            && (i32::MIN <= k + 1 <= i32::MAX && m.contains_key((k + 1) as i32))
            && (i32::MIN <= k - sx <= i32::MAX && m.contains_key((k - sx) as i32))
            && (i32::MIN <= k + sx <= i32::MAX && m.contains_key((k + sx) as i32))
            && (i32::MIN <= k + sx * sx <= i32::MAX && m.contains_key((k + sx * sx) as i32))
            && (i32::MIN <= k - sx * sx <= i32::MAX && m.contains_key((k - sx * sx) as i32))),
        visible(m, sx).contains_key(k) ==> visible(m, sx)[k] == m[k],
{
    assert(hidden_keys(m, sx).contains(k) == (m.contains_key(k) && hidden(m, k, sx)));
}

/// The cubes of a greedy cover of the visible voxels of `m` cover exactly the
/// voxels of `m` that have a missing index neighbour, each in its own material:
/// a voxel whose six index neighbours are all voxels (of any material) lies in no
/// cube, and every other voxel lies in one whose material is its own.
pub proof fn lemma_greedy_covers_unhidden(
    m: Map<i32, u8>,
    cubes: Seq<GreedyCube>,
    size: ModelSize,
    k: i32,
)
    requires
        is_greedy_cover(visible(m, size.x as int), cubes, size),
    ensures
        covered(cubes, size).contains(k) <==> m.contains_key(k) && !(
            (i32::MIN <= k - 1 <= i32::MAX && m.contains_key((k - 1) as i32))
            && (i32::MIN <= k + 1 <= i32::MAX && m.contains_key((k + 1) as i32))
            && (i32::MIN <= k - size.x <= i32::MAX && m.contains_key((k - size.x) as i32))
            && (i32::MIN <= k + size.x <= i32::MAX && m.contains_key((k + size.x) as i32))
            && (i32::MIN <= k + size.x * size.x <= i32::MAX
                && m.contains_key((k + size.x * size.x) as i32))
            && (i32::MIN <= k - size.x * size.x <= i32::MAX
                && m.contains_key((k - size.x * size.x) as i32))),
        forall|i: int| 0 <= i < cubes.len() && #[trigger] cube_cells(cubes[i], size).contains(k)
            ==> m.contains_key(k) && m[k] == cubes[i].material,
{
    lemma_visible_keys(m, size.x as int, k);
}


/// Key `k` lies in row `j` of `width` keys that start `j * stride` after `start`.
pub open spec fn in_row(start: int, width: int, stride: int, j: int, k: int) -> bool {
    start + j * stride <= k < start + j * stride + width
}

/// A key lies in `n` rows exactly when it lies in one of them.
pub proof fn lemma_rows_members(start: int, width: int, stride: int, n: int, k: i32)
    requires
        n >= 0,
    ensures
        rows(start, width, stride, n).contains(k) <==> exists|j: int|
            0 <= j < n && #[trigger] in_row(start, width, stride, j, k as int),
    decreases n,
{
    if n > 0 {
        lemma_rows_members(start, width, stride, n - 1, k);
        if in_row(start, width, stride, n - 1, k as int) {
            assert(span(start + (n - 1) * stride, width).contains(k));
        }
        if exists|j: int| 0 <= j < n && #[trigger] in_row(start, width, stride, j, k as int) {
            let j = choose|j: int| 0 <= j < n && #[trigger] in_row(start, width, stride, j, k as int);
            if j == n - 1 {
                assert(span(start + (n - 1) * stride, width).contains(k));
            }
        }
    }
}

/// A key lies in `n` planes exactly when it lies in one row of one of them.
pub proof fn lemma_planes_members(
    start: int,
    width: int,
    stride: int,
    height: int,
    layer: int,
    n: int,
    k: i32,
)
    requires
        n >= 0,
        height >= 0,
    ensures
        planes(start, width, stride, height, layer, n).contains(k) <==> exists|l: int, j: int|
            0 <= l < n && 0 <= j < height && #[trigger] in_row(start + l * layer, width, stride, j, k as int),
    decreases n,
{
    if n > 0 {
        lemma_planes_members(start, width, stride, height, layer, n - 1, k);
        lemma_rows_members(start + (n - 1) * layer, width, stride, height, k);
        if exists|l: int, j: int|
            0 <= l < n && 0 <= j < height && #[trigger] in_row(start + l * layer, width, stride, j, k as int) {
            let (l, j) = choose|l: int, j: int|
                0 <= l < n && 0 <= j < height && #[trigger] in_row(start + l * layer, width, stride, j, k as int);
            if l == n - 1 {
                assert(in_row(start + (n - 1) * layer, width, stride, j, k as int));
            } else {
                assert(in_row(start + l * layer, width, stride, j, k as int));
            }
        }
        if rows(start + (n - 1) * layer, width, stride, height).contains(k) {
            let j = choose|j: int| 0 <= j < height && #[trigger] in_row(start + (n - 1) * layer, width, stride, j, k as int);
            assert(in_row(start + (n - 1) * layer, width, stride, j, k as int));
        }
    }
}

/// The voxels of a cube are those at `(x + a, y + b, z + l)` for `a` below its
/// width, `b` below its height and `l` below its depth.
pub proof fn lemma_cube_cells_members(c: GreedyCube, size: ModelSize, k: i32)
    ensures
        cube_cells(c, size).contains(k) <==> exists|a: int, b: int, l: int|
            0 <= a < c.width && 0 <= b < c.height && 0 <= l < c.depth
            && k == #[trigger] size.index_of(c.x + a, c.y + b, c.z + l),
{
    let base = cube_base(c, size);
    let layer = size.layer();
    let sx = size.x as int;
    lemma_planes_members(base, c.width as int, sx, c.height as int, layer, c.depth as int, k);
    if cube_cells(c, size).contains(k) {
        let (l, j) = choose|l: int, j: int|
            0 <= l < c.depth && 0 <= j < c.height && #[trigger] in_row(base + l * layer, c.width as int, sx, j, k as int);
        let a = k - (base + l * layer + j * sx);
        assert(size.index_of(c.x + a, c.y + j, c.z + l) == base + l * layer + j * sx + a) by (nonlinear_arith)
            requires base == c.z * layer + c.y * sx + c.x, layer == size.layer(), sx == size.x,
                size.index_of(c.x + a, c.y + j, c.z + l) == (c.z + l) * size.layer() + (c.y + j) * size.x + (c.x + a);
        assert(k == size.index_of(c.x + a, c.y + j, c.z + l));
    }
    if exists|a: int, b: int, l: int|
        0 <= a < c.width && 0 <= b < c.height && 0 <= l < c.depth
        && k == #[trigger] size.index_of(c.x + a, c.y + b, c.z + l) {
        let (a, b, l) = choose|a: int, b: int, l: int|
            0 <= a < c.width && 0 <= b < c.height && 0 <= l < c.depth
            && k == #[trigger] size.index_of(c.x + a, c.y + b, c.z + l);
        assert(size.index_of(c.x + a, c.y + b, c.z + l) == base + l * layer + b * sx + a) by (nonlinear_arith)
            requires base == c.z * layer + c.y * sx + c.x, layer == size.layer(), sx == size.x,
                size.index_of(c.x + a, c.y + b, c.z + l) == (c.z + l) * size.layer() + (c.y + b) * size.x + (c.x + a);
        assert(in_row(base + l * layer, c.width as int, sx, b, k as int));
    }
}

} // verus!
