use vstd::prelude::*;

verus! {


/// Number of light slots in the lighting uniforms; slot 0 is the sun.
pub const MAX_LIGHTS: usize = 32;

/// What the lighting needs to know of a light in the world.
#[derive(Clone, Debug)]
pub struct LightSource {
    /// Whether the light is switched on.
    pub enabled: bool,
    /// The layer the light stands on.
    pub z: i32,
    /// Indices of the tiles that the light reaches.
    pub visible_tiles: Vec<usize>,
}

/// Number of enabled lights among the first `n`.
pub open spec fn enabled_before(lights: Seq<LightSource>, n: int) -> int
    decreases n,
{
    if n <= 0 {
        0
    } else {
        enabled_before(lights, n - 1) + if lights[n - 1].enabled { 1int } else { 0int }
    }
}

/// A count is never negative.
pub proof fn lemma_enabled_before_nonneg(lights: Seq<LightSource>, n: int)
    ensures
        0 <= enabled_before(lights, n),
    decreases n,
{
    if n > 0 {
        lemma_enabled_before_nonneg(lights, n - 1);
    }
}

/// Slot of light `i` when enabled lights take slots 1, 2, ... in order while
/// slots remain.
pub open spec fn slot_of_enabled(lights: Seq<LightSource>, i: int) -> Option<usize> {
    if lights[i].enabled && 1 + enabled_before(lights, i) < MAX_LIGHTS {
        Some((1 + enabled_before(lights, i)) as usize)
    } else {
        None
    }
}

/// Slot of light `i` when light `i` owns slot `i + 1` and uses it only if it stands
/// no higher than `camera_level`.
pub open spec fn slot_below_camera(lights: Seq<LightSource>, camera_level: i32, i: int) -> Option<usize> {
    if 1 + i < MAX_LIGHTS && lights[i].z <= camera_level {
        Some((1 + i) as usize)
    } else {
        None
    }
}

/// Bits of the slots, among the first `n` lights, whose light reaches `tile`.
pub open spec fn lit_mask(
    lights: Seq<LightSource>,
    slots: spec_fn(int) -> Option<usize>,
    tile: usize,
    n: int,
) -> u32
    decreases n,
{
    if n <= 0 {
        0
    } else {
        lit_mask(lights, slots, tile, n - 1) | match slots(n - 1) {
            Some(b) => if lights[n - 1].visible_tiles@.contains(tile) { 1u32 << (b as u32) } else { 0u32 },
            None => 0u32,
        }
    }
}

/// Bit 0 of a tile: set when the tile is outdoors.
pub open spec fn outdoor_bit(outside: bool) -> u32 {
    if outside { 1u32 } else { 0u32 }
}

/// The light bits of every tile once each light with a slot has lit its tiles.
pub open spec fn lit_bits(
    bits: Seq<u32>,
    outside: Seq<bool>,
    lights: Seq<LightSource>,
    slots: spec_fn(int) -> Option<usize>,
) -> bool {
    forall|t: int| 0 <= t < bits.len() ==> #[trigger] bits[t] == outdoor_bit(outside[t]) | lit_mask(
        lights, slots, t as usize, lights.len() as int)
}

/// Every light that gets a slot reaches only tiles that have light bits.
pub open spec fn tiles_in_range(
    lights: Seq<LightSource>,
    slots: spec_fn(int) -> Option<usize>,
    n: int,
) -> bool {
    forall|i: int, j: int| 0 <= i < lights.len() && slots(i) is Some && 0 <= j < lights[i].visible_tiles.len()
        ==> #[trigger] lights[i].visible_tiles@[j] < n
}

proof fn lemma_or_facts(a: u32, b: u32, c: u32)
    ensures
        (a | b) | c == a | (b | c),
        (a | b) | b == a | b,
        a | 0u32 == a,
{
    assert((a | b) | c == a | (b | c)) by (bit_vector);
    assert((a | b) | b == a | b) by (bit_vector);
    assert(a | 0u32 == a) by (bit_vector);
}

/// Sets each tile's bits to its outdoor bit alone.
pub fn mark_outdoors(light_bits: &mut [u32], outside: &[bool])
    requires
        outside.len() >= old(light_bits).len(),
    ensures
        final(light_bits)@.len() == old(light_bits)@.len(),
        forall|t: int| 0 <= t < final(light_bits)@.len() ==> #[trigger] final(light_bits)@[t] == outdoor_bit(outside@[t]),
{
    let mut idx: usize = 0;
    while idx < light_bits.len()
        invariant
            idx <= light_bits@.len(),
            light_bits@.len() == old(light_bits)@.len(),
            outside.len() >= light_bits@.len(),
            forall|t: int| 0 <= t < idx ==> #[trigger] light_bits@[t] == outdoor_bit(outside@[t]),
        decreases light_bits@.len() - idx,
    {
        if outside[idx] {
            light_bits[idx] = 1;
        } else {
            light_bits[idx] = 0;
        }
        idx += 1;
    }
}

/// Lights the tiles that light `i`, holding slot `slot`, reaches.
fn light_tiles(
    light_bits: &mut [u32],
    outside: Ghost<Seq<bool>>,
    lights: &[LightSource],
    slots: Ghost<spec_fn(int) -> Option<usize>>,
    i: usize,
    slot: usize,
)
    requires
        i < lights.len(),
        slot < 32,
        slots@(i as int) == Some(slot),
        tiles_in_range(lights@, slots@, old(light_bits)@.len() as int),
        forall|t: int| 0 <= t < old(light_bits)@.len() ==> #[trigger] old(light_bits)@[t]
            == outdoor_bit(outside@[t]) | lit_mask(lights@, slots@, t as usize, i as int),
    ensures
        final(light_bits)@.len() == old(light_bits)@.len(),
        forall|t: int| 0 <= t < final(light_bits)@.len() ==> #[trigger] final(light_bits)@[t]
            == outdoor_bit(outside@[t]) | lit_mask(lights@, slots@, t as usize, i + 1),
{
    let bit: u32 = 1u32 << (slot as u32);
    let visible = &lights[i].visible_tiles;
    let ghost start = light_bits@;
    let mut j: usize = 0;
    assert forall|t: int| 0 <= t < light_bits@.len() implies #[trigger] light_bits@[t]
        == start[t] | (if visible@.take(0).contains(t as usize) { bit } else { 0u32 }) by {
        lemma_or_facts(start[t], 0u32, 0u32);
    }
    while j < visible.len()
        invariant
            j <= visible.len(),
            i < lights.len(),
            visible@ == lights@[i as int].visible_tiles@,
            slots@(i as int) == Some(slot),
            bit == 1u32 << (slot as u32),
            tiles_in_range(lights@, slots@, start.len() as int),
            light_bits@.len() == start.len(),
            forall|t: int| 0 <= t < start.len() ==> #[trigger] start[t]
                == outdoor_bit(outside@[t]) | lit_mask(lights@, slots@, t as usize, i as int),
            forall|t: int| 0 <= t < light_bits@.len() ==> #[trigger] light_bits@[t]
                == start[t] | (if visible@.take(j as int).contains(t as usize) { bit } else { 0u32 }),
        decreases visible.len() - j,
    {
        let tile = visible[j];
        assert(lights@[i as int].visible_tiles@[j as int] == tile);
        assert(tile < light_bits@.len());
        let ghost before = light_bits@;
        let v = light_bits[tile];
        light_bits[tile] = v | bit;
        assert(visible@.take(j + 1) =~= visible@.take(j as int).push(tile));
        assert forall|t: int| 0 <= t < light_bits@.len() implies #[trigger] light_bits@[t]
            == start[t] | (if visible@.take(j + 1).contains(t as usize) { bit } else { 0u32 }) by {
            lemma_or_facts(start[t], bit, bit);
            lemma_or_facts(start[t], 0u32, bit);
            if t == tile as int {
                assert(visible@.take(j + 1)[j as int] == tile);
                assert(visible@.take(j + 1).contains(tile));
                if !visible@.take(j as int).contains(tile) {
                    assert(0u32 | bit == bit) by (bit_vector);
                }
            } else {
                assert(visible@.take(j + 1).contains(t as usize) == visible@.take(j as int).contains(t as usize));
            }
        }
        j += 1;
    }
    assert(visible@.take(visible.len() as int) =~= visible@);
    assert forall|t: int| 0 <= t < light_bits@.len() implies #[trigger] light_bits@[t]
        == outdoor_bit(outside@[t]) | lit_mask(lights@, slots@, t as usize, i + 1) by {
        let c = if visible@.contains(t as usize) { bit } else { 0u32 };
        lemma_or_facts(outdoor_bit(outside@[t]), lit_mask(lights@, slots@, t as usize, i as int), c);
    }
}

/// The mask of a tile depends only on the slots of the lights counted.
pub proof fn lemma_lit_mask_same_slots(
    lights: Seq<LightSource>,
    f: spec_fn(int) -> Option<usize>,
    g: spec_fn(int) -> Option<usize>,
    tile: usize,
    n: int,
)
    requires
        forall|i: int| 0 <= i < n ==> #[trigger] f(i) == g(i),
    ensures
        lit_mask(lights, f, tile, n) == lit_mask(lights, g, tile, n),
    decreases n,
{
    if n > 0 {
        lemma_lit_mask_same_slots(lights, f, g, tile, n - 1);
    }
}

/// Sets each tile's outdoor bit, then, for each light `i` holding slot
/// `slots[i]`, sets that slot's bit on every tile the light reaches.
pub fn light_tile_bits(
    light_bits: &mut [u32],
    outside: &[bool],
    lights: &[LightSource],
    slots: &Vec<Option<usize>>,
)
    requires
        outside.len() >= old(light_bits).len(),
        slots.len() == lights.len(),
        forall|i: int| 0 <= i < slots.len() ==> (#[trigger] slots@[i] matches Some(b) ==> b < MAX_LIGHTS),
        tiles_in_range(lights@, |i: int| slots@[i], old(light_bits)@.len() as int),
    ensures
        final(light_bits)@.len() == old(light_bits)@.len(),
        lit_bits(final(light_bits)@, outside@, lights@, |i: int| slots@[i]),
{
    let ghost slot_spec = |i: int| slots@[i];
    mark_outdoors(light_bits, outside);
    assert forall|t: int| 0 <= t < light_bits@.len() implies #[trigger] light_bits@[t]
        == outdoor_bit(outside@[t]) | lit_mask(lights@, slot_spec, t as usize, 0) by {
        lemma_or_facts(outdoor_bit(outside@[t]), 0u32, 0u32);
    }
    let mut i: usize = 0;
    while i < lights.len()
        invariant
            i <= lights.len(),
            slots.len() == lights.len(),
            slot_spec == (|i: int| slots@[i]),
            light_bits@.len() == old(light_bits)@.len(),
            outside.len() >= light_bits@.len(),
            forall|i: int| 0 <= i < slots.len() ==> (#[trigger] slots@[i] matches Some(b) ==> b < MAX_LIGHTS),
            tiles_in_range(lights@, slot_spec, light_bits@.len() as int),
            forall|t: int| 0 <= t < light_bits@.len() ==> #[trigger] light_bits@[t]
                == outdoor_bit(outside@[t]) | lit_mask(lights@, slot_spec, t as usize, i as int),
        decreases lights.len() - i,
    {
        match slots[i] {
            Some(slot) => {
                assert(slot_spec(i as int) == Some(slot));
                light_tiles(light_bits, Ghost(outside@), lights, Ghost(slot_spec), i, slot);
            },
            None => {
                assert forall|t: int| 0 <= t < light_bits@.len() implies #[trigger] light_bits@[t]
                    == outdoor_bit(outside@[t]) | lit_mask(lights@, slot_spec, t as usize, i + 1) by {
                    lemma_or_facts(lit_mask(lights@, slot_spec, t as usize, i as int), 0u32, 0u32);
                }
            },
        }
        i += 1;
    }
}

/// The slots that enabled lights take, in order, while slots remain.
pub fn enabled_light_slots(lights: &[LightSource]) -> (slots: Vec<Option<usize>>)
    ensures
        slots.len() == lights.len(),
        forall|i: int| 0 <= i < lights.len() ==> #[trigger] slots@[i] == slot_of_enabled(lights@, i),
{
    let mut slots: Vec<Option<usize>> = Vec::new();
    let mut index: usize = 1;
    let mut i: usize = 0;
    while i < lights.len()
        invariant
            i <= lights.len(),
            slots.len() == i,
            forall|j: int| 0 <= j < i ==> #[trigger] slots@[j] == slot_of_enabled(lights@, j),
            1 + enabled_before(lights@, i as int) < MAX_LIGHTS ==> index == 1 + enabled_before(lights@, i as int),
            1 + enabled_before(lights@, i as int) >= MAX_LIGHTS ==> index == MAX_LIGHTS,
        decreases lights.len() - i,
    {
        if index < MAX_LIGHTS && lights[i].enabled {
            slots.push(Some(index));
            index += 1;
        } else {
            slots.push(None);
        }
        i += 1;
    }
    slots
}

/// The slots of lights that stand no higher than `camera_level`: light `i` owns slot `i + 1`.
pub fn camera_light_slots(lights: &[LightSource], camera_level: i32) -> (slots: Vec<Option<usize>>)
    ensures
        slots.len() == lights.len(),
        forall|i: int| 0 <= i < lights.len() ==> #[trigger] slots@[i] == slot_below_camera(lights@, camera_level, i),
{
    let mut slots: Vec<Option<usize>> = Vec::new();
    let mut i: usize = 0;
    while i < lights.len()
        invariant
            i <= lights.len(),
            slots.len() == i,
            forall|j: int| 0 <= j < i ==> #[trigger] slots@[j] == slot_below_camera(lights@, camera_level, j),
        decreases lights.len() - i,
    {
        let index = i + 1;
        if index < MAX_LIGHTS && lights[i].z <= camera_level {
            slots.push(Some(index));
        } else {
            slots.push(None);
        }
        i += 1;
    }
    slots
}

/// Sets each tile's outdoor bit, then gives enabled lights slots 1, 2, ... in order
/// while slots remain, and sets a light's slot bit on every tile it reaches.
/// Returns the slot of each light.
pub fn index_enabled_lights(light_bits: &mut [u32], outside: &[bool], lights: &[LightSource]) -> (slots: Vec<Option<usize>>)
    requires
        outside.len() >= old(light_bits).len(),
        tiles_in_range(lights@, |i: int| slot_of_enabled(lights@, i), old(light_bits)@.len() as int),
    ensures
        slots.len() == lights.len(),
        forall|i: int| 0 <= i < lights.len() ==> #[trigger] slots@[i] == slot_of_enabled(lights@, i),
        final(light_bits)@.len() == old(light_bits)@.len(),
        lit_bits(final(light_bits)@, outside@, lights@, |i: int| slot_of_enabled(lights@, i)),
{
    let slots = enabled_light_slots(lights);
    proof {
        assert forall|i: int| 0 <= i < slots.len() implies (#[trigger] slots@[i] matches Some(b) ==> b < MAX_LIGHTS) by {
            lemma_enabled_before_nonneg(lights@, i);
        }
        assert forall|i: int, j: int| 0 <= i < lights.len() && (|i: int| slots@[i])(i) is Some
            && 0 <= j < lights@[i].visible_tiles.len()
            implies #[trigger] lights@[i].visible_tiles@[j] < old(light_bits)@.len() by {
            assert((|i: int| slot_of_enabled(lights@, i))(i) is Some);
        }
    }
    light_tile_bits(light_bits, outside, lights, &slots);
    proof {
        assert forall|t: int| 0 <= t < light_bits@.len() implies #[trigger] light_bits@[t]
            == outdoor_bit(outside@[t]) | lit_mask(lights@, |i: int| slot_of_enabled(lights@, i), t as usize,
                lights.len() as int) by {
            lemma_lit_mask_same_slots(lights@, |i: int| slots@[i], |i: int| slot_of_enabled(lights@, i),
                t as usize, lights.len() as int);
        }
    }
    slots
}

/// Sets each tile's outdoor bit, then gives light `i` slot `i + 1` when that slot
/// exists and the light stands no higher than `camera_level`, and sets a light's
/// slot bit on every tile it reaches. Returns the slot of each light.
pub fn index_lights_below_camera(
    light_bits: &mut [u32],
    outside: &[bool],
    lights: &[LightSource],
    camera_level: i32,
) -> (slots: Vec<Option<usize>>)
    requires
        outside.len() >= old(light_bits).len(),
        tiles_in_range(lights@, |i: int| slot_below_camera(lights@, camera_level, i), old(light_bits)@.len() as int),
    ensures
        slots.len() == lights.len(),
        forall|i: int| 0 <= i < lights.len() ==> #[trigger] slots@[i] == slot_below_camera(lights@, camera_level, i),
        final(light_bits)@.len() == old(light_bits)@.len(),
        lit_bits(final(light_bits)@, outside@, lights@, |i: int| slot_below_camera(lights@, camera_level, i)),
{
    let slots = camera_light_slots(lights, camera_level);
    proof {
        assert forall|i: int, j: int| 0 <= i < lights.len() && (|i: int| slots@[i])(i) is Some
            && 0 <= j < lights@[i].visible_tiles.len()
            implies #[trigger] lights@[i].visible_tiles@[j] < old(light_bits)@.len() by {
            assert((|i: int| slot_below_camera(lights@, camera_level, i))(i) is Some);
        }
    }
    light_tile_bits(light_bits, outside, lights, &slots);
    proof {
        assert forall|t: int| 0 <= t < light_bits@.len() implies #[trigger] light_bits@[t]
            == outdoor_bit(outside@[t]) | lit_mask(lights@, |i: int| slot_below_camera(lights@, camera_level, i),
                t as usize, lights.len() as int) by {
            lemma_lit_mask_same_slots(lights@, |i: int| slots@[i],
                |i: int| slot_below_camera(lights@, camera_level, i), t as usize, lights.len() as int);
        }
    }
    slots
}

/// The count of enabled lights grows past each enabled light.
pub proof fn lemma_enabled_before_grows(lights: Seq<LightSource>, i: int, j: int)
    requires
        0 <= i < j,
        i < lights.len(),
        lights[i].enabled,
    ensures
        enabled_before(lights, i) < enabled_before(lights, j),
    decreases j,
{
    if j > i + 1 {
        lemma_enabled_before_grows(lights, i, j - 1);
    }
    lemma_enabled_before_nonneg(lights, i);
}

/// Enabled lights get distinct slots in the order of the lights, none of them the
/// outdoor slot 0.
pub proof fn lemma_enabled_slots_distinct(lights: Seq<LightSource>, i: int, j: int)
    requires
        0 <= i < j < lights.len(),
        slot_of_enabled(lights, i) is Some,
        slot_of_enabled(lights, j) is Some,
    ensures
        1 <= slot_of_enabled(lights, i)->0 < slot_of_enabled(lights, j)->0 < MAX_LIGHTS,
{
    lemma_enabled_before_grows(lights, i, j);
    lemma_enabled_before_nonneg(lights, i);
}

/// Lights below the camera get distinct slots in the order of the lights, none of
/// them the outdoor slot 0.
pub proof fn lemma_camera_slots_distinct(lights: Seq<LightSource>, camera_level: i32, i: int, j: int)
    requires
        0 <= i < j < lights.len(),
        slot_below_camera(lights, camera_level, i) is Some,
        slot_below_camera(lights, camera_level, j) is Some,
    ensures
        1 <= slot_below_camera(lights, camera_level, i)->0 < slot_below_camera(lights, camera_level, j)->0
            < MAX_LIGHTS,
{
}


/// Below the camera, light `i` owns slot `i + 1`: it gets that slot exactly when
/// the slot is one of the 31 light slots (slot 0 is the sun) and the light stands
/// no higher than the camera, and gets none otherwise.
pub proof fn lemma_camera_slot(lights: Seq<LightSource>, camera_level: i32, i: int)
    requires
        0 <= i < lights.len(),
    ensures
        i + 1 < 32 && lights[i].z <= camera_level
            ==> slot_below_camera(lights, camera_level, i) == Some((i + 1) as usize),
        !(i + 1 < 32 && lights[i].z <= camera_level)
            ==> slot_below_camera(lights, camera_level, i) == None::<usize>,
{
}

/// The enabled lights before light `i` are counted by `enabled_before`.
proof fn lemma_enabled_before_counts(lights: Seq<LightSource>, i: int)
    requires
        0 <= i <= lights.len(),
    ensures
        enabled_before(lights, i) == lights.take(i).filter(|l: LightSource| l.enabled).len(),
    decreases i,
{
    if i > 0 {
        lemma_enabled_before_counts(lights, i - 1);
        assert(lights.take(i) =~= lights.take(i - 1).push(lights[i - 1]));
        lights.take(i - 1).lemma_filter_push(lights[i - 1], |l: LightSource| l.enabled);
    }
}

/// Enabled lights take the light slots 1, 2, ... in their order: an enabled light
/// with `n` enabled lights before it gets slot `n + 1` when that is one of the 31
/// light slots (slot 0 is the sun); a light that is off, or comes after the slots
/// run out, gets none.
pub proof fn lemma_enabled_slot(lights: Seq<LightSource>, i: int)
    requires
        0 <= i < lights.len(),
    ensures
        ({
            let n = lights.take(i).filter(|l: LightSource| l.enabled).len();
            &&& lights[i].enabled && n + 1 < 32 ==> slot_of_enabled(lights, i) == Some((n + 1) as usize)
            &&& !(lights[i].enabled && n + 1 < 32) ==> slot_of_enabled(lights, i) == None::<usize>
        }),
{
    lemma_enabled_before_counts(lights, i);
}


/// Bit `b` of `x | (1 << s)` is set exactly when it is set in `x` or `b` is `s`.
proof fn lemma_or_bit(x: u32, s: u32, b: u32)
    requires
        s < 32,
        b < 32,
    ensures
        ((x | (1u32 << s)) >> b) & 1u32 == 1u32 <==> ((x >> b) & 1u32 == 1u32 || s == b),
        ((x | 0u32) >> b) & 1u32 == (x >> b) & 1u32,
{
    assert(((x | (1u32 << s)) >> b) & 1u32 == 1u32 <==> ((x >> b) & 1u32 == 1u32 || s == b)) by (bit_vector)
        requires s < 32, b < 32;
    assert(((x | 0u32) >> b) & 1u32 == (x >> b) & 1u32) by (bit_vector);
}

/// Bit `b` of a tile's light mask is set exactly when one of the lights counted
/// holds slot `b` and reaches the tile.
pub proof fn lemma_lit_mask_bit(
    lights: Seq<LightSource>,
    slots: spec_fn(int) -> Option<usize>,
    tile: usize,
    n: int,
    b: u32,
)
    requires
        b < 32,
        n <= lights.len(),
        forall|i: int| 0 <= i < n && #[trigger] slots(i) is Some ==> slots(i)->0 < 32,
    ensures
        (lit_mask(lights, slots, tile, n) >> b) & 1u32 == 1u32 <==> exists|i: int|
            0 <= i < n && slots(i) == Some(b as usize) && #[trigger] lights[i].visible_tiles@.contains(tile),
    decreases n,
{
    if n <= 0 {
        assert((0u32 >> b) & 1u32 == 0u32) by (bit_vector);
    } else {
        lemma_lit_mask_bit(lights, slots, tile, n - 1, b);
        let prev = lit_mask(lights, slots, tile, n - 1);
        match slots(n - 1) {
            Some(s) => {
                assert(slots(n - 1) is Some);
                if lights[n - 1].visible_tiles@.contains(tile) {
                    lemma_or_bit(prev, s as u32, b);
                    if s == b as usize {
                        assert(lights[n - 1].visible_tiles@.contains(tile));
                    }
                } else {
                    lemma_or_bit(prev, 0, b);
                }
            },
            None => {
                lemma_or_bit(prev, 0, b);
            },
        }
    }
}

/// The light bits of a tile say which lights reach it: bit 0 is set exactly when
/// the tile is outdoors, and bit `b` of a light slot exactly when the light that
/// holds slot `b` reaches the tile.
pub proof fn lemma_lit_bits_meaning(
    bits: Seq<u32>,
    outside: Seq<bool>,
    lights: Seq<LightSource>,
    slots: spec_fn(int) -> Option<usize>,
    t: int,
    b: u32,
)
    requires
        lit_bits(bits, outside, lights, slots),
        forall|i: int| 0 <= i < lights.len() && #[trigger] slots(i) is Some ==> 1 <= slots(i)->0 < 32,
        0 <= t < bits.len(),
        b < 32,
    ensures
        (bits[t] >> b) & 1u32 == 1u32 <==> (b == 0 && outside[t]) || exists|i: int|
            0 <= i < lights.len() && slots(i) == Some(b as usize)
            && #[trigger] lights[i].visible_tiles@.contains(t as usize),
{
    lemma_lit_mask_bit(lights, slots, t as usize, lights.len() as int, b);
    let mask = lit_mask(lights, slots, t as usize, lights.len() as int);
    let o = outdoor_bit(outside[t]);
    assert(bits[t] == o | mask);
    assert(((o | mask) >> b) & 1u32 == 1u32 <==> ((o >> b) & 1u32 == 1u32 || (mask >> b) & 1u32 == 1u32))
        by (bit_vector);
    assert((1u32 >> b) & 1u32 == 1u32 <==> b == 0) by (bit_vector)
        requires b < 32;
    assert((0u32 >> b) & 1u32 == 0u32) by (bit_vector);
}

} // verus!
