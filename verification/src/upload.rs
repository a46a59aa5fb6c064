//! The height ring: the resident height fields of one tier in a toroidal directory of fixed slots, each
//! tagged with the chunk it holds, and a flat buffer of nodes with a pyramid of levels per chunk.
//!
//! A node is four lanes, each the bit pattern of a float.

use vstd::prelude::*;

pub mod laws;

verus! {

/// Width of the ring in chunks, on both axes.
pub const HEIGHT_RING_CHUNKS: i32 = 8;

/// Cells per axis of a chunk's field.
pub const HEIGHT_FIELD_RES: u32 = 64;

/// Edge of a chunk of the finest tier, in base cells.
pub const HEIGHT_CHUNK_CELLS: u32 = 128;

/// Nodes per axis of a chunk's field.
pub const HEIGHT_NODES_PER_AXIS: u32 = 65;

/// Nodes of a chunk's field.
pub const HEIGHT_NODES_PER_CHUNK: u32 = 4225;

/// Slots of the ring.
pub const HEIGHT_RING_SLOTS: u32 = 64;

/// The coarsest level of a chunk's pyramid.
pub const MAX_HEIGHT_MIP: u32 = 6;

/// Nodes per axis of each level.
pub const MIP_NODES_PER_AXIS: [u32; 7] = [65, 33, 17, 9, 5, 3, 2];

/// Where each level begins among the nodes of a chunk.
pub const MIP_NODE_OFFSET: [u32; 7] = [0, 4225, 5314, 5603, 5684, 5709, 5718];

/// Nodes of a chunk with all its levels.
pub const NODES_PER_CHUNK_MIPPED: u32 = 5722;

/// The tag of an empty slot.
pub const HEIGHT_SENTINEL_KEY: (u32, u32) = (0xFFFF_FFFF, 0xFFFF_FFFF);

/// One record of the ring's directory: the tag of the chunk that the slot holds, and where its nodes begin.
#[derive(Clone, Copy, Debug, Default, PartialEq, Eq, Structural)]
pub struct GpuHeightCell {
    pub key_hi: u32,
    pub key_lo: u32,
    pub node_base: u32,
    pub _pad: u32,
}

/// The record of an empty slot.
pub open spec fn empty_cell() -> GpuHeightCell {
    GpuHeightCell { key_hi: 0xFFFF_FFFF, key_lo: 0xFFFF_FFFF, node_base: 0, _pad: 0 }
}

impl GpuHeightCell {
    /// The record of an empty slot.
    pub fn sentinel() -> (c: GpuHeightCell)
        ensures
            c == empty_cell(),
    {
        GpuHeightCell { key_hi: HEIGHT_SENTINEL_KEY.0, key_lo: HEIGHT_SENTINEL_KEY.1, node_base: 0, _pad: 0 }
    }
}

/// The height and its two slopes at a point, and a lane that is not used.
pub type GpuHeightNode = [u32; 4];

/// The slot of the chunk at `(x, z)`.
pub open spec fn slot_of(x: int, z: int) -> int {
    (z % 8) * 8 + x % 8
}

/// The slot of the chunk at `(x, z)` in the ring.
pub fn ring_slot(x: i32, z: i32) -> (s: usize)
    ensures
        s == slot_of(x as int, z as int),
        s < 64,
{
    let mx: i32 = crate::math::floor_rem8(x);
    let mz: i32 = crate::math::floor_rem8(z);
    (mz * HEIGHT_RING_CHUNKS + mx) as usize
}

/// Two chunks share a slot only where they are a multiple of the ring's width apart on both axes.
pub proof fn law_slots_part(x: int, z: int, u: int, v: int)
    ensures
        slot_of(x, z) == slot_of(u, v) <==> (x - u) % 8 == 0 && (z - v) % 8 == 0,
{
}

/// Nodes per axis of level `m`.
pub open spec fn mip_axis(m: int) -> int {
    if m == 0 {
        65
    } else if m == 1 {
        33
    } else if m == 2 {
        17
    } else if m == 3 {
        9
    } else if m == 4 {
        5
    } else if m == 5 {
        3
    } else {
        2
    }
}

/// Where level `m` begins among the nodes of a chunk: after the nodes of the finer levels.
pub open spec fn mip_start(m: int) -> int
    decreases m,
{
    if m <= 0 {
        0
    } else {
        mip_start(m - 1) + mip_axis(m - 1) * mip_axis(m - 1)
    }
}

/// Each level halves the cells of the one before it, and the levels fill the nodes of a chunk exactly.
pub proof fn law_mip_layout(m: int)
    requires
        0 <= m <= 6,
    ensures
        m < 6 ==> mip_axis(m + 1) - 1 == (mip_axis(m) - 1) / 2,
        mip_start(7) == 5722,
        mip_start(m) == MIP_NODE_OFFSET@[m],
        mip_axis(m) == MIP_NODES_PER_AXIS@[m],
        mip_start(m) + mip_axis(m) * mip_axis(m) <= 5722,
{
    reveal_with_fuel(mip_start, 8);
    assert(mip_start(m + 1) == mip_start(m) + mip_axis(m) * mip_axis(m));
    assert(mip_start(m + 1) <= 5722);
}

/// A resident chunk of a height field: its tier, its place, its tag, and the nodes of all its levels.
#[derive(Clone, Debug)]
pub struct RingChunk {
    pub layer: u32,
    pub x: i32,
    pub z: i32,
    pub key_hi: u32,
    pub key_lo: u32,
    pub nodes: Vec<GpuHeightNode>,
}

/// The height ring of one tier.
#[derive(Clone, Debug)]
pub struct HeightRingCpu {
    /// One record per slot.
    pub directory: Vec<GpuHeightCell>,
    /// The nodes of the slots, one block after the other.
    pub nodes: Vec<GpuHeightNode>,
    /// Edge of a chunk, in base cells.
    pub chunk_cells: u32,
    /// Cells per axis of a chunk's field.
    pub res: u32,
}

/// The last of the first `n` chunks that is of the tier and belongs in the slot.
pub open spec fn holder(chunks: Seq<RingChunk>, layer: u32, slot: int, n: nat) -> Option<int>
    decreases n,
{
    if n == 0 {
        None
    } else {
        let c = chunks[n - 1];
        if c.layer == layer && slot_of(c.x as int, c.z as int) == slot {
            Some(n - 1)
        } else {
            holder(chunks, layer, slot, (n - 1) as nat)
        }
    }
}

/// The record of a slot, given the chunk it holds.
pub open spec fn slot_cell(chunks: Seq<RingChunk>, slot: int, held: Option<int>) -> GpuHeightCell {
    match held {
        None => empty_cell(),
        Some(k) => GpuHeightCell {
            key_hi: chunks[k].key_hi,
            key_lo: chunks[k].key_lo,
            node_base: (slot * 5722) as u32,
            _pad: 0,
        },
    }
}

/// Whether a slot's block of nodes is that of the chunk it holds: its nodes, or zeros where it holds none.
pub open spec fn slot_nodes(chunks: Seq<RingChunk>, nodes: Seq<GpuHeightNode>, slot: int, held: Option<int>) -> bool {
    match held {
        None => forall|j: int| slot * 5722 <= j < slot * 5722 + 5722 ==> (#[trigger] nodes[j])@ == seq![0u32, 0, 0, 0],
        Some(k) => nodes.subrange(slot * 5722, slot * 5722 + 5722) == chunks[k].nodes@,
    }
}

/// Whether a ring is that of the first `n` chunks for a tier: each slot holds the last chunk of the tier that
/// belongs in it, and chunks of other tiers leave no trace.
pub open spec fn is_ring(
    directory: Seq<GpuHeightCell>,
    nodes: Seq<GpuHeightNode>,
    chunks: Seq<RingChunk>,
    layer: u32,
    n: nat,
) -> bool {
    &&& directory.len() == 64
    &&& nodes.len() == 64 * 5722
    &&& forall|s: int|
        0 <= s < 64 ==> #[trigger] directory[s] == slot_cell(chunks, s, holder(chunks, layer, s, n)) && slot_nodes(
            chunks,
            nodes,
            s,
            holder(chunks, layer, s, n),
        )
}

/// The height ring of a tier.
pub fn build_height_ring_for_tier(chunks: &Vec<RingChunk>, layer: u32, chunk_cells: u32) -> (ring: HeightRingCpu)
    requires
        forall|k: int| 0 <= k < chunks@.len() ==> (#[trigger] chunks@[k]).nodes@.len() == 5722,
    ensures
        is_ring(ring.directory@, ring.nodes@, chunks@, layer, chunks@.len()),
        ring.chunk_cells == chunk_cells,
        ring.res == HEIGHT_FIELD_RES,
{
    let mut directory: Vec<GpuHeightCell> = Vec::new();
    let mut s: usize = 0;
    while s < 64
        invariant
            s <= 64,
            directory@.len() == s,
            forall|i: int| 0 <= i < s ==> #[trigger] directory@[i] == empty_cell(),
        decreases 64 - s,
    {
        directory.push(GpuHeightCell::sentinel());
        s = s + 1;
    }
    let mut nodes: Vec<GpuHeightNode> = Vec::new();
    let mut j: usize = 0;
    while j < 366208
        invariant
            j <= 366208,
            nodes@.len() == j,
            forall|i: int| 0 <= i < j ==> (#[trigger] nodes@[i])@ == seq![0u32, 0, 0, 0],
        decreases 366208 - j,
    {
        let zero: GpuHeightNode = [0u32, 0u32, 0u32, 0u32];
        assert(zero@ =~= seq![0u32, 0, 0, 0]);
        nodes.push(zero);
        j = j + 1;
    }
    let mut n: usize = 0;
    while n < chunks.len()
        invariant
            n <= chunks@.len(),
            forall|k: int| 0 <= k < chunks@.len() ==> (#[trigger] chunks@[k]).nodes@.len() == 5722,
            is_ring(directory@, nodes@, chunks@, layer, n as nat),
        decreases chunks@.len() - n,
    {
        let c: &RingChunk = &chunks[n];
        assert(chunks@[n as int].nodes@.len() == 5722);
        if c.layer == layer {
            let slot: usize = ring_slot(c.x, c.z);
            let base: usize = slot * 5722;
            let ghost dir0 = directory@;
            let ghost nodes0 = nodes@;
            directory.set(
                slot,
                GpuHeightCell { key_hi: c.key_hi, key_lo: c.key_lo, node_base: base as u32, _pad: 0 },
            );
            put_block(&mut nodes, base, &c.nodes);
            proof {
                assert forall|s: int| 0 <= s < 64 implies #[trigger] directory@[s] == slot_cell(
                    chunks@,
                    s,
                    holder(chunks@, layer, s, (n + 1) as nat),
                ) && slot_nodes(chunks@, nodes@, s, holder(chunks@, layer, s, (n + 1) as nat)) by {
                    if s == slot {
                        assert(holder(chunks@, layer, s, (n + 1) as nat) == Some(n as int));
                        assert(nodes@.subrange(s * 5722, s * 5722 + 5722) == chunks@[n as int].nodes@);
                    } else {
                        let held = holder(chunks@, layer, s, n as nat);
                        assert(holder(chunks@, layer, s, (n + 1) as nat) == held);
                        assert(dir0[s] == directory@[s]);
                        assert(slot_nodes(chunks@, nodes0, s, held));
                        lemma_block_kept(chunks@, nodes0, nodes@, s, held);
                    }
                }
                assert(is_ring(directory@, nodes@, chunks@, layer, (n + 1) as nat));
            }
        } else {
            assert forall|s: int| 0 <= s < 64 implies #[trigger] directory@[s] == slot_cell(
                chunks@,
                s,
                holder(chunks@, layer, s, (n + 1) as nat),
            ) && slot_nodes(chunks@, nodes@, s, holder(chunks@, layer, s, (n + 1) as nat)) by {
                assert(holder(chunks@, layer, s, (n + 1) as nat) == holder(chunks@, layer, s, n as nat));
            }
        }
        n = n + 1;
    }
    HeightRingCpu { directory, nodes, chunk_cells, res: HEIGHT_FIELD_RES }
}

/// A slot whose nodes stay holds what it held.
proof fn lemma_block_kept(
    chunks: Seq<RingChunk>,
    before: Seq<GpuHeightNode>,
    after: Seq<GpuHeightNode>,
    slot: int,
    held: Option<int>,
)
    requires
        0 <= slot < 64,
        before.len() == 64 * 5722,
        after.len() == before.len(),
        slot_nodes(chunks, before, slot, held),
        forall|j: int| slot * 5722 <= j < slot * 5722 + 5722 ==> #[trigger] after[j] == before[j],
    ensures
        slot_nodes(chunks, after, slot, held),
{
    if let Some(k) = held {
        assert(after.subrange(slot * 5722, slot * 5722 + 5722) =~= before.subrange(slot * 5722, slot * 5722 + 5722));
    } else {
        assert forall|j: int| slot * 5722 <= j < slot * 5722 + 5722 implies (#[trigger] after[j])@ == seq![
            0u32,
            0,
            0,
            0,
        ] by {
            assert(before[j] == after[j]);
        }
    }
}

/// Write a chunk's nodes into its block.
fn put_block(nodes: &mut Vec<GpuHeightNode>, base: usize, block: &Vec<GpuHeightNode>)
    requires
        block@.len() == 5722,
        base + 5722 <= old(nodes)@.len(),
    ensures
        final(nodes)@.len() == old(nodes)@.len(),
        final(nodes)@.subrange(base as int, base + 5722) == block@,
        forall|j: int|
            0 <= j < old(nodes)@.len() && !(base <= j < base + 5722) ==> #[trigger] final(nodes)@[j] == old(
                nodes,
            )@[j],
{
    assert(nodes.len() == nodes@.len());
    let mut i: usize = 0;
    while i < 5722
        invariant
            i <= 5722,
            block@.len() == 5722,
            base + 5722 <= usize::MAX,
            base + 5722 <= nodes@.len(),
            nodes@.len() == old(nodes)@.len(),
            forall|k: int| 0 <= k < i ==> nodes@[base + k] == #[trigger] block@[k],
            forall|j: int|
                0 <= j < nodes@.len() && !(base <= j < base + 5722) ==> #[trigger] nodes@[j] == old(nodes)@[j],
        decreases 5722 - i,
    {
        nodes.set(base + i, block[i]);
        i = i + 1;
    }
    assert(nodes@.subrange(base as int, base + 5722) =~= block@);
}

/// The height ring of the finest tier.
pub fn build_height_ring(chunks: &Vec<RingChunk>) -> (ring: HeightRingCpu)
    requires
        forall|k: int| 0 <= k < chunks@.len() ==> (#[trigger] chunks@[k]).nodes@.len() == 5722,
    ensures
        is_ring(ring.directory@, ring.nodes@, chunks@, 0, chunks@.len()),
        ring.chunk_cells == HEIGHT_CHUNK_CELLS,
        ring.res == HEIGHT_FIELD_RES,
{
    build_height_ring_for_tier(chunks, 0, HEIGHT_CHUNK_CELLS)
}

/// The height rings of all tiers: tier `t` has the chunks of layer `t`.
pub fn build_height_clipmap(chunks: &Vec<RingChunk>, tier_cells: &[u32]) -> (rings: Vec<HeightRingCpu>)
    requires
        forall|k: int| 0 <= k < chunks@.len() ==> (#[trigger] chunks@[k]).nodes@.len() == 5722,
        tier_cells@.len() <= 0x1_0000_0000,
    ensures
        rings@.len() == tier_cells@.len(),
        forall|t: int|
            0 <= t < rings@.len() ==> is_ring(
                (#[trigger] rings@[t]).directory@,
                rings@[t].nodes@,
                chunks@,
                t as u32,
                chunks@.len(),
            ) && rings@[t].chunk_cells == tier_cells@[t] && rings@[t].res == HEIGHT_FIELD_RES,
{
    let mut rings: Vec<HeightRingCpu> = Vec::new();
    let mut t: usize = 0;
    while t < tier_cells.len()
        invariant
            t <= tier_cells@.len() <= 0x1_0000_0000,
            forall|k: int| 0 <= k < chunks@.len() ==> (#[trigger] chunks@[k]).nodes@.len() == 5722,
            rings@.len() == t,
            forall|u: int|
                0 <= u < t ==> is_ring(
                    (#[trigger] rings@[u]).directory@,
                    rings@[u].nodes@,
                    chunks@,
                    u as u32,
                    chunks@.len(),
                ) && rings@[u].chunk_cells == tier_cells@[u] && rings@[u].res == HEIGHT_FIELD_RES,
        decreases tier_cells@.len() - t,
    {
        rings.push(build_height_ring_for_tier(chunks, t as u32, tier_cells[t]));
        t = t + 1;
    }
    rings
}

/// Whether a directory holds the chunk at `(x, z)`, whose tag is `key`.
pub open spec fn holds(directory: Seq<GpuHeightCell>, x: i32, z: i32, key: (u32, u32)) -> bool {
    let c = directory[slot_of(x as int, z as int)];
    c.key_hi == key.0 && c.key_lo == key.1
}

/// Whether the ring holds the chunk at `(x, z)`, whose tag is `key`.
pub fn ring_covers(directory: &Vec<GpuHeightCell>, x: i32, z: i32, key: (u32, u32)) -> (b: bool)
    requires
        directory@.len() == 64,
    ensures
        b == holds(directory@, x, z, key),
{
    let c: GpuHeightCell = directory[ring_slot(x, z)];
    c.key_hi == key.0 && c.key_lo == key.1
}

/// Whether the ring holds the chunk at `(x, z)`, whose tag is what `key_of` gives for it.
pub open spec fn holds_keyed<K: Fn(i32, i32) -> (u32, u32)>(
    directory: Seq<GpuHeightCell>,
    key_of: K,
    x: i32,
    z: i32,
    held: bool,
) -> bool {
    exists|key: (u32, u32)| #[trigger] call_ensures(key_of, (x, z), key) && holds(directory, x, z, key) == held
}

/// A rectangle of chunks, both ends included.
#[derive(Clone, Copy, Debug, PartialEq, Eq, Structural)]
pub struct ChunkRect {
    pub x0: i32,
    pub x1: i32,
    pub z0: i32,
    pub z1: i32,
}

impl ChunkRect {
    /// Whether the rectangle has the chunk at `(x, z)`.
    pub open spec fn has(self, x: i32, z: i32) -> bool {
        self.x0 <= x <= self.x1 && self.z0 <= z <= self.z1
    }
}

/// Whether the ring holds every chunk of a rectangle. `key_of` gives the tag of a chunk.
pub fn ring_covers_aabb<K: Fn(i32, i32) -> (u32, u32)>(
    directory: &Vec<GpuHeightCell>,
    rect: ChunkRect,
    key_of: &K,
) -> (b: bool)
    requires
        directory@.len() == 64,
        forall|x: i32, z: i32| #[trigger] rect.has(x, z) ==> call_requires(*key_of, (x, z)),
    ensures
        b ==> forall|x: i32, z: i32| #[trigger] rect.has(x, z) ==> holds_keyed(directory@, *key_of, x, z, true),
        !b ==> exists|x: i32, z: i32| #[trigger] rect.has(x, z) && holds_keyed(directory@, *key_of, x, z, false),
{
    let mut z: i32 = rect.z0;
    let mut row: bool = rect.z0 <= rect.z1;
    while row
        invariant
            directory@.len() == 64,
            forall|x: i32, z: i32| #[trigger] rect.has(x, z) ==> call_requires(*key_of, (x, z)),
            row ==> rect.z0 <= z <= rect.z1,
            forall|i: i32, k: i32| #[trigger]
                rect.has(i, k) && (k < z || !row) ==> holds_keyed(directory@, *key_of, i, k, true),
        decreases (if row { rect.z1 - z + 1 } else { 0 }),
    {
        let mut x: i32 = rect.x0;
        let mut cell: bool = rect.x0 <= rect.x1;
        while cell
            invariant
                directory@.len() == 64,
                forall|x: i32, z: i32| #[trigger] rect.has(x, z) ==> call_requires(*key_of, (x, z)),
                rect.z0 <= z <= rect.z1,
                cell ==> rect.x0 <= x <= rect.x1,
                forall|i: i32, k: i32| #[trigger]
                    rect.has(i, k) && (k < z || (k == z && (i < x || !cell))) ==> holds_keyed(
                        directory@,
                        *key_of,
                        i,
                        k,
                        true,
                    ),
            decreases (if cell { rect.x1 - x + 1 } else { 0 }),
        {
            assert(rect.has(x, z));
            let key: (u32, u32) = key_of(x, z);
            let held: bool = ring_covers(directory, x, z, key);
            assert(holds_keyed(directory@, *key_of, x, z, held));
            if !held {
                return false;
            }
            if x == rect.x1 {
                cell = false;
            } else {
                x = x + 1;
            }
        }
        if z == rect.z1 {
            row = false;
        } else {
            z = z + 1;
        }
    }
    true
}

/// The finest tier that holds the chunk a point lies in: `probes` has, for each tier, the point's chunk and
/// its tag.
pub fn finest_covering_tier(clipmap: &Vec<HeightRingCpu>, probes: &Vec<(i32, i32, (u32, u32))>) -> (r: Option<usize>)
    requires
        probes@.len() == clipmap@.len(),
        forall|t: int| 0 <= t < clipmap@.len() ==> (#[trigger] clipmap@[t]).directory@.len() == 64,
    ensures
        r matches Some(t) ==> t < clipmap@.len() && tier_holds(clipmap@, probes@, t as int) && forall|u: int|
            0 <= u < t ==> !#[trigger] tier_holds(clipmap@, probes@, u),
        r is None ==> forall|u: int| 0 <= u < clipmap@.len() ==> !#[trigger] tier_holds(clipmap@, probes@, u),
{
    let mut t: usize = 0;
    while t < clipmap.len()
        invariant
            t <= clipmap@.len(),
            probes@.len() == clipmap@.len(),
            forall|t: int| 0 <= t < clipmap@.len() ==> (#[trigger] clipmap@[t]).directory@.len() == 64,
            forall|u: int| 0 <= u < t ==> !#[trigger] tier_holds(clipmap@, probes@, u),
        decreases clipmap@.len() - t,
    {
        let p: (i32, i32, (u32, u32)) = probes[t];
        assert(clipmap@[t as int].directory@.len() == 64);
        if ring_covers(&clipmap[t].directory, p.0, p.1, p.2) {
            assert(tier_holds(clipmap@, probes@, t as int));
            return Some(t);
        }
        assert(!tier_holds(clipmap@, probes@, t as int));
        t = t + 1;
    }
    None
}

/// Whether tier `t` holds the chunk it is probed for.
pub open spec fn tier_holds(clipmap: Seq<HeightRingCpu>, probes: Seq<(i32, i32, (u32, u32))>, t: int) -> bool {
    holds(clipmap[t].directory@, probes[t].0, probes[t].1, probes[t].2)
}

/// Whether some tier holds every chunk of its rectangle.
pub fn clipmap_covers_aabb<K: Fn(i32, i32) -> (u32, u32)>(
    clipmap: &Vec<HeightRingCpu>,
    rects: &Vec<ChunkRect>,
    key_of: &K,
) -> (b: bool)
    requires
        rects@.len() == clipmap@.len(),
        forall|t: int| 0 <= t < clipmap@.len() ==> (#[trigger] clipmap@[t]).directory@.len() == 64,
        forall|x: i32, z: i32| call_requires(*key_of, (x, z)),
    ensures
        b ==> exists|t: int|
            0 <= t < clipmap@.len() && #[trigger] rect_held(clipmap@[t].directory@, rects@[t], *key_of),
        !b ==> forall|t: int|
            0 <= t < clipmap@.len() ==> #[trigger] rect_missed(clipmap@[t].directory@, rects@[t], *key_of),
{
    let mut t: usize = 0;
    while t < clipmap.len()
        invariant
            t <= clipmap@.len(),
            rects@.len() == clipmap@.len(),
            forall|t: int| 0 <= t < clipmap@.len() ==> (#[trigger] clipmap@[t]).directory@.len() == 64,
            forall|x: i32, z: i32| call_requires(*key_of, (x, z)),
            forall|u: int|
                0 <= u < t ==> #[trigger] rect_missed(clipmap@[u].directory@, rects@[u], *key_of),
        decreases clipmap@.len() - t,
    {
        assert(clipmap@[t as int].directory@.len() == 64);
        let rect: ChunkRect = rects[t];
        if ring_covers_aabb(&clipmap[t].directory, rect, key_of) {
            assert(rect_held(clipmap@[t as int].directory@, rects@[t as int], *key_of));
            return true;
        }
        assert(rect_missed(clipmap@[t as int].directory@, rects@[t as int], *key_of));
        t = t + 1;
    }
    false
}

/// Whether a directory holds every chunk of a rectangle.
pub open spec fn rect_held<K: Fn(i32, i32) -> (u32, u32)>(
    directory: Seq<GpuHeightCell>,
    rect: ChunkRect,
    key_of: K,
) -> bool {
    forall|x: i32, z: i32| #[trigger] rect.has(x, z) ==> holds_keyed(directory, key_of, x, z, true)
}

/// Whether a directory lacks a chunk of a rectangle.
pub open spec fn rect_missed<K: Fn(i32, i32) -> (u32, u32)>(
    directory: Seq<GpuHeightCell>,
    rect: ChunkRect,
    key_of: K,
) -> bool {
    exists|x: i32, z: i32| #[trigger] rect.has(x, z) && holds_keyed(directory, key_of, x, z, false)
}

/// A ring resolves what is resident and nothing else: a slot holds the chunk that was the last to belong in
/// it, and a chunk whose tag is neither that of an empty slot nor that of a chunk of the tier is missed.
pub proof fn law_ring_resolves(
    directory: Seq<GpuHeightCell>,
    nodes: Seq<GpuHeightNode>,
    chunks: Seq<RingChunk>,
    layer: u32,
    x: i32,
    z: i32,
    key: (u32, u32),
)
    requires
        is_ring(directory, nodes, chunks, layer, chunks.len()),
    ensures
        holder(chunks, layer, slot_of(x as int, z as int), chunks.len()) matches Some(k) ==> 0 <= k < chunks.len()
            && chunks[k].layer == layer && (holds(directory, x, z, key) <==> (chunks[k].key_hi, chunks[k].key_lo)
            == key),
        key != HEIGHT_SENTINEL_KEY && (forall|k: int|
            0 <= k < chunks.len() && (#[trigger] chunks[k]).layer == layer ==> (chunks[k].key_hi, chunks[k].key_lo)
                != key) ==> !holds(directory, x, z, key),
{
    let s = slot_of(x as int, z as int);
    lemma_holder(chunks, layer, s, chunks.len());
    assert(directory[s] == slot_cell(chunks, s, holder(chunks, layer, s, chunks.len())));
}

proof fn lemma_holder(chunks: Seq<RingChunk>, layer: u32, slot: int, n: nat)
    requires
        n <= chunks.len(),
    ensures
        holder(chunks, layer, slot, n) matches Some(k) ==> 0 <= k < n && chunks[k].layer == layer && slot_of(
            chunks[k].x as int,
            chunks[k].z as int,
        ) == slot,
    decreases n,
{
    if n > 0 {
        lemma_holder(chunks, layer, slot, (n - 1) as nat);
    }
}

/// Whether `lo` and `hi` bound the decoded chunks of a list, each side touching one.
pub open spec fn bounds_chunks(list: Seq<(i32, i32)>, lo: (i32, i32), hi: (i32, i32)) -> bool {
    &&& forall|i: int|
        0 <= i < list.len() ==> lo.0 <= (#[trigger] list[i]).0 <= hi.0 && lo.1 <= list[i].1 <= hi.1
    &&& exists|i: int| 0 <= i < list.len() && (#[trigger] list[i]).0 == lo.0
    &&& exists|i: int| 0 <= i < list.len() && (#[trigger] list[i]).0 == hi.0
    &&& exists|i: int| 0 <= i < list.len() && (#[trigger] list[i]).1 == lo.1
    &&& exists|i: int| 0 <= i < list.len() && (#[trigger] list[i]).1 == hi.1
}

/// Whether the list has, in order, what `decode` gives for the tags of the first `n` records that are not
/// those of empty slots.
pub open spec fn decoded<D: Fn(u32, u32) -> (i32, i32)>(
    directory: Seq<GpuHeightCell>,
    decode: D,
    n: nat,
    list: Seq<(i32, i32)>,
) -> bool
    decreases n,
{
    if n == 0 {
        list.len() == 0
    } else {
        let c = directory[n - 1];
        if (c.key_hi, c.key_lo) == HEIGHT_SENTINEL_KEY {
            decoded(directory, decode, (n - 1) as nat, list)
        } else {
            &&& list.len() > 0
            &&& call_ensures(decode, (c.key_hi, c.key_lo), list.last())
            &&& decoded(directory, decode, (n - 1) as nat, list.drop_last())
        }
    }
}

/// The least and the greatest chunk coordinates of a ring, or `None` for an empty ring. `decode` gives the
/// coordinates of a tag.
pub fn ring_resident_bounds<D: Fn(u32, u32) -> (i32, i32)>(directory: &Vec<GpuHeightCell>, decode: &D) -> (r: Option<
    ((i32, i32), (i32, i32)),
>)
    requires
        forall|hi: u32, lo: u32| call_requires(*decode, (hi, lo)),
    ensures
        exists|list: Seq<(i32, i32)>| #[trigger]
            decoded(directory@, *decode, directory@.len(), list) && (match r {
                None => list.len() == 0,
                Some((lo, hi)) => bounds_chunks(list, lo, hi),
            }),
{
    let mut bounds: Option<((i32, i32), (i32, i32))> = None;
    let ghost mut list: Seq<(i32, i32)> = Seq::empty();
    let mut i: usize = 0;
    while i < directory.len()
        invariant
            i <= directory@.len(),
            forall|hi: u32, lo: u32| call_requires(*decode, (hi, lo)),
            decoded(directory@, *decode, i as nat, list),
            match bounds {
                None => list.len() == 0,
                Some((lo, hi)) => bounds_chunks(list, lo, hi),
            },
        decreases directory@.len() - i,
    {
        let c: GpuHeightCell = directory[i];
        if !(c.key_hi == HEIGHT_SENTINEL_KEY.0 && c.key_lo == HEIGHT_SENTINEL_KEY.1) {
            let p: (i32, i32) = decode(c.key_hi, c.key_lo);
            let ghost before = list;
            proof {
                list = list.push(p);
                assert(list.drop_last() =~= before);
                assert(list[before.len() as int] == p);
                assert forall|k: int| 0 <= k < before.len() implies #[trigger] list[k] == before[k] by {}
            }
            bounds = match bounds {
                None => Some((p, p)),
                Some((lo, hi)) => {
                    let new_lo: (i32, i32) = (
                        if p.0 < lo.0 { p.0 } else { lo.0 },
                        if p.1 < lo.1 { p.1 } else { lo.1 },
                    );
                    let new_hi: (i32, i32) = (
                        if p.0 > hi.0 { p.0 } else { hi.0 },
                        if p.1 > hi.1 { p.1 } else { hi.1 },
                    );
                    proof {
                        lemma_bounds_push(before, p, lo, hi, new_lo, new_hi);
                    }
                    Some((new_lo, new_hi))
                },
            };
        }
        i = i + 1;
    }
    assert(decoded(directory@, *decode, directory@.len(), list));
    bounds
}

proof fn lemma_bounds_push(
    before: Seq<(i32, i32)>,
    p: (i32, i32),
    lo: (i32, i32),
    hi: (i32, i32),
    new_lo: (i32, i32),
    new_hi: (i32, i32),
)
    requires
        bounds_chunks(before, lo, hi),
        new_lo.0 == (if p.0 < lo.0 { p.0 } else { lo.0 }),
        new_lo.1 == (if p.1 < lo.1 { p.1 } else { lo.1 }),
        new_hi.0 == (if p.0 > hi.0 { p.0 } else { hi.0 }),
        new_hi.1 == (if p.1 > hi.1 { p.1 } else { hi.1 }),
    ensures
        bounds_chunks(before.push(p), new_lo, new_hi),
{
    let list = before.push(p);
    let a = choose|i: int| 0 <= i < before.len() && (#[trigger] before[i]).0 == lo.0;
    let b = choose|i: int| 0 <= i < before.len() && (#[trigger] before[i]).0 == hi.0;
    let c = choose|i: int| 0 <= i < before.len() && (#[trigger] before[i]).1 == lo.1;
    let d = choose|i: int| 0 <= i < before.len() && (#[trigger] before[i]).1 == hi.1;
    let n = before.len() as int;
    assert(list[a] == before[a] && list[b] == before[b] && list[c] == before[c] && list[d] == before[d]);
    assert(list[n] == p);
    assert forall|i: int| 0 <= i < list.len() implies new_lo.0 <= (#[trigger] list[i]).0 <= new_hi.0 && new_lo.1
        <= list[i].1 <= new_hi.1 by {
        if i < n {
            assert(list[i] == before[i]);
        }
    }
}

/// The places of the four nodes around cell `(i, j)` of level `mip` of a chunk whose nodes begin at
/// `node_base`: at the cell's corner, next to it on x, next to it on z, and next to it on both.
pub fn cell_nodes(node_base: u32, mip: u32, i: u32, j: u32) -> (r: (usize, usize, usize, usize))
    requires
        mip <= MAX_HEIGHT_MIP,
        i + 1 < mip_axis(mip as int),
        j + 1 < mip_axis(mip as int),
        node_base <= 0xFFFF_0000,
    ensures
        r.0 == node_base + mip_start(mip as int) + j * mip_axis(mip as int) + i,
        r.1 == r.0 + 1,
        r.2 == r.0 + mip_axis(mip as int),
        r.3 == r.2 + 1,
        node_base <= r.0 && r.3 < node_base + 5722,
{
    let npa: u32 = MIP_NODES_PER_AXIS[mip as usize];
    let off: u32 = MIP_NODE_OFFSET[mip as usize];
    proof {
        law_mip_layout(mip as int);
        let n = mip_axis(mip as int);
        assert(n * n <= 4225) by (nonlinear_arith)
            requires
                0 <= n <= 65,
        ;
        assert(j * n + n + n <= n * n) by (nonlinear_arith)
            requires
                j + 1 < n,
                0 <= j,
        ;
        assert(j * npa == j * n);
    }
    let at: u32 = off + j * npa + i;
    let r0: usize = node_base as usize + at as usize;
    (r0, r0 + 1, r0 + npa as usize, r0 + npa as usize + 1)
}

/// Where a terrain query gets its answer.
#[derive(Clone, Copy, Debug, PartialEq, Eq, Structural)]
pub enum TerrainQuery {
    /// From the finest tier that covers the point; a miss is an error where `strict`, and empty space where
    /// not. `normalize` says to scale the height difference to a distance.
    Sample { strict: bool, normalize: bool },
    /// There is nothing to sample, and a rendering query must not miss.
    Uncovered,
    /// There is nothing to sample: empty space.
    Empty,
}

/// How the terrain is asked for a height.
pub open spec fn query_of(rendering: bool, baking: bool, published: bool) -> TerrainQuery {
    if baking {
        TerrainQuery::Sample { strict: rendering, normalize: false }
    } else if published {
        TerrainQuery::Sample { strict: rendering, normalize: true }
    } else if rendering {
        TerrainQuery::Uncovered
    } else {
        TerrainQuery::Empty
    }
}

/// Where a terrain query gets its answer: a bake samples its own snapshot as it is, all else samples what is
/// published, scaled to a distance. Rendering queries are strict.
pub fn terrain_query(rendering: bool, baking: bool, published: bool) -> (q: TerrainQuery)
    ensures
        q == query_of(rendering, baking, published),
{
    if baking {
        TerrainQuery::Sample { strict: rendering, normalize: false }
    } else if published {
        TerrainQuery::Sample { strict: rendering, normalize: true }
    } else if rendering {
        TerrainQuery::Uncovered
    } else {
        TerrainQuery::Empty
    }
}

/// Node `i` of a grid, where it is on the grid.
pub open spec fn tap(grid: Seq<GpuHeightNode>, i: int, on_grid: bool) -> Option<GpuHeightNode> {
    if on_grid {
        Some(grid[i])
    } else {
        None
    }
}

/// Whether the tent filter gives node `(i, j)` of the grid halved on x: over the fine node at twice `i` and
/// the nodes beside it in its row, where there are any.
pub open spec fn x_halved<T: Fn(Option<GpuHeightNode>, GpuHeightNode, Option<GpuHeightNode>) -> GpuHeightNode>(
    tent: T,
    fine: Seq<GpuHeightNode>,
    n: int,
    out: Seq<GpuHeightNode>,
    c: int,
    i: int,
    j: int,
) -> bool {
    call_ensures(
        tent,
        (
            tap(fine, j * n + 2 * i - 1, i > 0),
            fine[j * n + 2 * i],
            tap(fine, j * n + 2 * i + 1, 2 * i + 1 < n),
        ),
        out[j * c + i],
    )
}

/// Whether the tent filter gives node `(i, j)` of the grid halved on z: over the row at twice `j` and the
/// rows beside it, where there are any.
pub open spec fn z_halved<T: Fn(Option<GpuHeightNode>, GpuHeightNode, Option<GpuHeightNode>) -> GpuHeightNode>(
    tent: T,
    rows: Seq<GpuHeightNode>,
    n: int,
    out: Seq<GpuHeightNode>,
    c: int,
    i: int,
    j: int,
) -> bool {
    call_ensures(
        tent,
        (
            tap(rows, (2 * j - 1) * c + i, j > 0),
            rows[(2 * j) * c + i],
            tap(rows, (2 * j + 1) * c + i, 2 * j + 1 < n),
        ),
        out[j * c + i],
    )
}

/// Whether a grid of `c` nodes per axis is that of `n` nodes per axis halved on x and then on z.
pub open spec fn halved<T: Fn(Option<GpuHeightNode>, GpuHeightNode, Option<GpuHeightNode>) -> GpuHeightNode>(
    tent: T,
    fine: Seq<GpuHeightNode>,
    n: int,
    coarse: Seq<GpuHeightNode>,
    c: int,
) -> bool {
    exists|rows: Seq<GpuHeightNode>| #[trigger] halved_by(tent, fine, n, rows, coarse, c)
}

/// Whether a grid is halved by way of `rows`, which is halved on x alone.
pub open spec fn halved_by<T: Fn(Option<GpuHeightNode>, GpuHeightNode, Option<GpuHeightNode>) -> GpuHeightNode>(
    tent: T,
    fine: Seq<GpuHeightNode>,
    n: int,
    rows: Seq<GpuHeightNode>,
    coarse: Seq<GpuHeightNode>,
    c: int,
) -> bool {
    &&& forall|i: int, j: int|
        0 <= i < c && 0 <= j < n ==> #[trigger] x_halved(tent, fine, n, rows, c, i, j)
    &&& forall|i: int, j: int|
        0 <= i < c && 0 <= j < c ==> #[trigger] z_halved(tent, rows, n, coarse, c, i, j)
}

/// Level `m` of a chunk's nodes.
pub open spec fn level(nodes: Seq<GpuHeightNode>, m: int) -> Seq<GpuHeightNode> {
    nodes.subrange(mip_start(m), mip_start(m) + mip_axis(m) * mip_axis(m))
}

/// Whether each of the levels up to `top` is the one before it, halved.
pub open spec fn is_pyramid<T: Fn(Option<GpuHeightNode>, GpuHeightNode, Option<GpuHeightNode>) -> GpuHeightNode>(
    tent: T,
    nodes: Seq<GpuHeightNode>,
    top: int,
) -> bool {
    forall|m: int|
        1 <= m <= top ==> #[trigger] halved(tent, level(nodes, m - 1), mip_axis(m - 1), level(nodes, m), mip_axis(m))
}

/// Node `(i, j)` of a grid `w` wide comes before node `(u, v)`, which comes later in row order.
proof fn lemma_row_order(w: int, i: int, j: int, u: int, v: int)
    requires
        0 <= i < w,
        0 <= u,
        0 <= j,
        j < v || (j == v && i < u),
    ensures
        0 <= j * w + i < v * w + u,
{
    assert(0 <= j * w) by (nonlinear_arith)
        requires
            0 <= j,
            0 <= w,
    ;
    if j < v {
        assert((j + 1) * w <= v * w) by (nonlinear_arith)
            requires
                j + 1 <= v,
                0 <= w,
        ;
        assert((j + 1) * w == j * w + w) by (nonlinear_arith);
    }
}

/// Halve a grid on x.
fn halve_x<T: Fn(Option<GpuHeightNode>, GpuHeightNode, Option<GpuHeightNode>) -> GpuHeightNode>(
    tent: &T,
    fine: &Vec<GpuHeightNode>,
    n: usize,
    c: usize,
) -> (out: Vec<GpuHeightNode>)
    requires
        2 <= c <= 33,
        n == 2 * c - 1,
        fine@.len() == n * n,
        forall|l: Option<GpuHeightNode>, m: GpuHeightNode, r: Option<GpuHeightNode>|
            call_requires(*tent, (l, m, r)),
    ensures
        out@.len() == n * c,
        forall|i: int, j: int|
            0 <= i < c && 0 <= j < n ==> #[trigger] x_halved(*tent, fine@, n as int, out@, c as int, i, j),
{
    let mut out: Vec<GpuHeightNode> = Vec::new();
    let mut j: usize = 0;
    while j < n
        invariant
            j <= n,
            2 <= c <= 33,
            n == 2 * c - 1,
            fine@.len() == n * n,
            forall|l: Option<GpuHeightNode>, m: GpuHeightNode, r: Option<GpuHeightNode>|
                call_requires(*tent, (l, m, r)),
            out@.len() == j * c,
            forall|a: int, b: int|
                0 <= a < c && 0 <= b < j ==> #[trigger] x_halved(*tent, fine@, n as int, out@, c as int, a, b),
        decreases n - j,
    {
        let mut i: usize = 0;
        while i < c
            invariant
                i <= c,
                j < n,
                2 <= c <= 33,
                n == 2 * c - 1,
                fine@.len() == n * n,
                forall|l: Option<GpuHeightNode>, m: GpuHeightNode, r: Option<GpuHeightNode>|
                    call_requires(*tent, (l, m, r)),
                out@.len() == j * c + i,
                forall|a: int, b: int|
                    0 <= a < c && 0 <= b && (b < j || (b == j && a < i)) ==> #[trigger] x_halved(
                        *tent,
                        fine@,
                        n as int,
                        out@,
                        c as int,
                        a,
                        b,
                    ),
            decreases c - i,
        {
            proof {
                assert(0 <= j * n && j * n + n <= n * n && n * n <= 4225) by (nonlinear_arith)
                    requires
                        0 <= j,
                        j + 1 <= n,
                        0 <= n <= 65,
                ;
            }
            let at: usize = j * n + 2 * i;
            let left: Option<GpuHeightNode> = if i == 0 { None } else { Some(fine[at - 1]) };
            let right: Option<GpuHeightNode> = if 2 * i + 1 >= n { None } else { Some(fine[at + 1]) };
            let ghost before = out@;
            let node: GpuHeightNode = tent(left, fine[at], right);
            out.push(node);
            proof {
                assert forall|a: int, b: int|
                    0 <= a < c && 0 <= b && (b < j || (b == j && a < i + 1)) implies #[trigger] x_halved(
                    *tent,
                    fine@,
                    n as int,
                    out@,
                    c as int,
                    a,
                    b,
                ) by {
                    if b == j && a == i {
                        assert(out@[j * c + i] == node);
                    } else {
                        lemma_row_order(c as int, a, b, i as int, j as int);
                        assert(x_halved(*tent, fine@, n as int, before, c as int, a, b));
                        assert(out@[b * c + a] == before[b * c + a]);
                    }
                }
            }
            i = i + 1;
        }
        proof {
            assert((j + 1) * c == j * c + c) by (nonlinear_arith);
        }
        j = j + 1;
    }
    out
}

/// Halve a grid on z.
fn halve_z<T: Fn(Option<GpuHeightNode>, GpuHeightNode, Option<GpuHeightNode>) -> GpuHeightNode>(
    tent: &T,
    rows: &Vec<GpuHeightNode>,
    n: usize,
    c: usize,
) -> (out: Vec<GpuHeightNode>)
    requires
        2 <= c <= 33,
        n == 2 * c - 1,
        rows@.len() == n * c,
        forall|l: Option<GpuHeightNode>, m: GpuHeightNode, r: Option<GpuHeightNode>|
            call_requires(*tent, (l, m, r)),
    ensures
        out@.len() == c * c,
        forall|i: int, j: int|
            0 <= i < c && 0 <= j < c ==> #[trigger] z_halved(*tent, rows@, n as int, out@, c as int, i, j),
{
    let mut out: Vec<GpuHeightNode> = Vec::new();
    let mut j: usize = 0;
    while j < c
        invariant
            j <= c,
            2 <= c <= 33,
            n == 2 * c - 1,
            rows@.len() == n * c,
            forall|l: Option<GpuHeightNode>, m: GpuHeightNode, r: Option<GpuHeightNode>|
                call_requires(*tent, (l, m, r)),
            out@.len() == j * c,
            forall|a: int, b: int|
                0 <= a < c && 0 <= b < j ==> #[trigger] z_halved(*tent, rows@, n as int, out@, c as int, a, b),
        decreases c - j,
    {
        let mut i: usize = 0;
        while i < c
            invariant
                i <= c,
                j < c,
                2 <= c <= 33,
                n == 2 * c - 1,
                rows@.len() == n * c,
                forall|l: Option<GpuHeightNode>, m: GpuHeightNode, r: Option<GpuHeightNode>|
                    call_requires(*tent, (l, m, r)),
                out@.len() == j * c + i,
                forall|a: int, b: int|
                    0 <= a < c && 0 <= b && (b < j || (b == j && a < i)) ==> #[trigger] z_halved(
                        *tent,
                        rows@,
                        n as int,
                        out@,
                        c as int,
                        a,
                        b,
                    ),
            decreases c - i,
        {
            proof {
                lemma_row_order(c as int, i as int, 2 * j, 0, n as int);
                if j > 0 {
                    lemma_row_order(c as int, i as int, 2 * j - 1, 0, n as int);
                }
                if 2 * j + 1 < n {
                    lemma_row_order(c as int, i as int, 2 * j + 1, 0, n as int);
                }
                assert(n * c <= 4225) by (nonlinear_arith)
                    requires
                        0 <= n <= 65,
                        0 <= c <= 33,
                ;
                assert((2 * j - 1) * c == (2 * j) * c - c) by (nonlinear_arith);
                assert((2 * j + 1) * c == (2 * j) * c + c) by (nonlinear_arith);
            }
            let at: usize = 2 * j * c + i;
            let up: Option<GpuHeightNode> = if j == 0 { None } else { Some(rows[at - c]) };
            let down: Option<GpuHeightNode> = if 2 * j + 1 >= n { None } else { Some(rows[at + c]) };
            let ghost before = out@;
            let node: GpuHeightNode = tent(up, rows[at], down);
            out.push(node);
            proof {
                assert forall|a: int, b: int|
                    0 <= a < c && 0 <= b && (b < j || (b == j && a < i + 1)) implies #[trigger] z_halved(
                    *tent,
                    rows@,
                    n as int,
                    out@,
                    c as int,
                    a,
                    b,
                ) by {
                    if b == j && a == i {
                        assert(out@[j * c + i] == node);
                    } else {
                        lemma_row_order(c as int, a, b, i as int, j as int);
                        assert(z_halved(*tent, rows@, n as int, before, c as int, a, b));
                        assert(out@[b * c + a] == before[b * c + a]);
                    }
                }
            }
            i = i + 1;
        }
        proof {
            assert((j + 1) * c == j * c + c) by (nonlinear_arith);
        }
        j = j + 1;
    }
    out
}

/// The nodes of all levels of a chunk, made from those of its field: each level is the one before it, halved
/// by the tent filter `tent`, which gets a node and its two neighbours, `None` where one is off the grid.
pub fn build_chunk_mips<T: Fn(Option<GpuHeightNode>, GpuHeightNode, Option<GpuHeightNode>) -> GpuHeightNode>(
    mip0: &Vec<GpuHeightNode>,
    tent: &T,
) -> (out: Vec<GpuHeightNode>)
    requires
        mip0@.len() == HEIGHT_NODES_PER_CHUNK,
        forall|l: Option<GpuHeightNode>, m: GpuHeightNode, r: Option<GpuHeightNode>|
            call_requires(*tent, (l, m, r)),
    ensures
        out@.len() == NODES_PER_CHUNK_MIPPED,
        level(out@, 0) == mip0@,
        is_pyramid(*tent, out@, 6),
{
    let mut out: Vec<GpuHeightNode> = Vec::new();
    copy_nodes(&mut out, mip0);
    let mut fine: Vec<GpuHeightNode> = Vec::new();
    copy_nodes(&mut fine, mip0);
    let mut m: usize = 1;
    proof {
        law_mip_layout(0);
        assert(mip_start(1) == 4225) by {
            reveal_with_fuel(mip_start, 2);
        }
        assert(level(out@, 0) =~= mip0@);
    }
    while m <= 6
        invariant
            1 <= m <= 7,
            forall|l: Option<GpuHeightNode>, k: GpuHeightNode, r: Option<GpuHeightNode>|
                call_requires(*tent, (l, k, r)),
            out@.len() == mip_start(m as int),
            level(out@, 0) == mip0@,
            mip0@.len() == 4225,
            fine@ == level(out@, m - 1),
            is_pyramid(*tent, out@, m - 1),
        decreases 7 - m,
    {
        proof {
            law_mip_layout(m - 1);
            law_mip_layout(m as int);
            reveal_with_fuel(mip_start, 2);
        }
        let n: usize = MIP_NODES_PER_AXIS[m - 1] as usize;
        let c: usize = MIP_NODES_PER_AXIS[m] as usize;
        assert(n == mip_axis(m - 1) && c == mip_axis(m as int));
        assert(mip_start(m as int) == mip_start(m - 1) + n * n);
        let rows: Vec<GpuHeightNode> = halve_x(tent, &fine, n, c);
        let coarse: Vec<GpuHeightNode> = halve_z(tent, &rows, n, c);
        let ghost before = out@;
        copy_nodes(&mut out, &coarse);
        proof {
            assert(mip_start(m + 1) == mip_start(m as int) + c * c);
            assert(halved_by(*tent, fine@, n as int, rows@, coarse@, c as int));
            assert(level(out@, m as int) =~= coarse@);
            assert forall|k: int| 0 <= k < m implies #[trigger] level(out@, k) == level(before, k) by {
                lemma_starts(k, m as int);
                assert(level(out@, k) =~= level(before, k));
            }
            assert forall|k: int| 1 <= k <= m implies #[trigger] halved(
                *tent,
                level(out@, k - 1),
                mip_axis(k - 1),
                level(out@, k),
                mip_axis(k),
            ) by {
                assert(level(out@, k - 1) == level(before, k - 1));
                if k < m {
                    assert(level(out@, k) == level(before, k));
                    assert(halved(*tent, level(before, k - 1), mip_axis(k - 1), level(before, k), mip_axis(k)));
                }
            }
        }
        fine = coarse;
        m = m + 1;
    }
    proof {
        law_mip_layout(6);
    }
    out
}

/// The levels up to `m` end where level `m` begins.
proof fn lemma_starts(k: int, m: int)
    requires
        0 <= k < m,
    ensures
        0 <= mip_start(k),
        mip_start(k) + mip_axis(k) * mip_axis(k) <= mip_start(m),
    decreases m,
{
    assert(mip_axis(m - 1) * mip_axis(m - 1) >= 0) by (nonlinear_arith);
    if k < m - 1 {
        lemma_starts(k, m - 1);
    } else {
        lemma_start_nonneg(k);
    }
}

proof fn lemma_start_nonneg(k: int)
    ensures
        0 <= mip_start(k),
    decreases k,
{
    if k > 0 {
        lemma_start_nonneg(k - 1);
        assert(mip_axis(k - 1) * mip_axis(k - 1) >= 0) by (nonlinear_arith);
    }
}

/// Append the nodes of a list.
fn copy_nodes(out: &mut Vec<GpuHeightNode>, from: &Vec<GpuHeightNode>)
    ensures
        final(out)@ == old(out)@ + from@,
{
    let mut i: usize = 0;
    while i < from.len()
        invariant
            i <= from@.len(),
            out@ == old(out)@ + from@.take(i as int),
        decreases from@.len() - i,
    {
        out.push(from[i]);
        assert(out@ =~= old(out)@ + from@.take(i + 1));
        i = i + 1;
    }
    assert(from@.take(i as int) =~= from@);
}

/// A filter that keeps a value among its own kind keeps a field of that value at every level.
pub proof fn law_constant_field_stays<
    T: Fn(Option<GpuHeightNode>, GpuHeightNode, Option<GpuHeightNode>) -> GpuHeightNode,
>(tent: T, nodes: Seq<GpuHeightNode>, v: GpuHeightNode, m: int, i: int, j: int)
    requires
        nodes.len() == 5722,
        is_pyramid(tent, nodes, 6),
        forall|k: int| 0 <= k < 4225 ==> #[trigger] nodes[k] == v,
        forall|l: Option<GpuHeightNode>, r: Option<GpuHeightNode>, o: GpuHeightNode|
            (l is None || l == Some(v)) && (r is None || r == Some(v)) && #[trigger] call_ensures(tent, (l, v, r), o)
                ==> o == v,
        0 <= m <= 6,
        0 <= i < mip_axis(m),
        0 <= j < mip_axis(m),
    ensures
        level(nodes, m)[j * mip_axis(m) + i] == v,
    decreases m,
{
    let c = mip_axis(m);
    lemma_row_order(c, i, j, 0, c);
    law_mip_layout(m);
    if m == 0 {
        assert(level(nodes, 0)[j * c + i] == nodes[j * c + i]);
    } else {
        let n = mip_axis(m - 1);
        let fine = level(nodes, m - 1);
        let coarse = level(nodes, m);
        law_mip_layout(m - 1);
        assert(halved(tent, fine, n, coarse, c));
        let rows = choose|rows: Seq<GpuHeightNode>| #[trigger] halved_by(tent, fine, n, rows, coarse, c);
        assert forall|a: int, b: int| 0 <= a < c && 0 <= b < n implies #[trigger] same_node(rows, c, a, b, v) by {
            assert(x_halved(tent, fine, n, rows, c, a, b));
            law_constant_field_stays(tent, nodes, v, m - 1, 2 * a, b);
            if a > 0 {
                law_constant_field_stays(tent, nodes, v, m - 1, 2 * a - 1, b);
            }
            if 2 * a + 1 < n {
                law_constant_field_stays(tent, nodes, v, m - 1, 2 * a + 1, b);
            }
        }
        assert(z_halved(tent, rows, n, coarse, c, i, j));
        assert(same_node(rows, c, i, 2 * j, v));
        if j > 0 {
            assert(same_node(rows, c, i, 2 * j - 1, v));
        }
        if 2 * j + 1 < n {
            assert(same_node(rows, c, i, 2 * j + 1, v));
        }
    }
}

/// Whether node `(i, j)` of a grid `w` wide is `v`.
spec fn same_node(grid: Seq<GpuHeightNode>, w: int, i: int, j: int, v: GpuHeightNode) -> bool {
    grid[j * w + i] == v
}

/// How many nodes of the field lie between neighbouring nodes of level `m`.
pub open spec fn stride(m: int) -> int
    decreases m,
{
    if m <= 0 {
        1
    } else {
        2 * stride(m - 1)
    }
}

/// A place on the grid of the field.
pub type Spot = (int, int);

/// Whether `b` is midway between `a` and `c` on an axis.
pub open spec fn midway(a: Spot, b: Spot, c: Spot) -> bool {
    &&& a.0 + c.0 == 2 * b.0 && a.1 + c.1 == 2 * b.1
    &&& a.0 == c.0 || a.1 == c.1
}

/// Whether a filter keeps a node of a field, given as a function of the place, between two neighbours on an axis: a
/// plane is such a field for the tent filter.
pub open spec fn keeps_field<
    T: Fn(Option<GpuHeightNode>, GpuHeightNode, Option<GpuHeightNode>) -> GpuHeightNode,
>(tent: T, f: spec_fn(Spot) -> GpuHeightNode) -> bool {
    forall|a: Spot, b: Spot, c: Spot, l: Option<GpuHeightNode>, r: Option<GpuHeightNode>, o: GpuHeightNode| #[trigger]
        midway(a, b, c) && (l is None || l == Some(f(a))) && (r is None || r == Some(f(c))) && #[trigger] call_ensures(
            tent,
            (l, f(b), r),
            o,
        ) ==> o == f(b)
}

/// A field that the filter keeps is the same at every level: each node is that of the field at its place.
pub proof fn law_kept_field_stays<
    T: Fn(Option<GpuHeightNode>, GpuHeightNode, Option<GpuHeightNode>) -> GpuHeightNode,
>(tent: T, nodes: Seq<GpuHeightNode>, f: spec_fn(Spot) -> GpuHeightNode, m: int, i: int, j: int)
    requires
        nodes.len() == 5722,
        is_pyramid(tent, nodes, 6),
        forall|x: int, z: int| 0 <= x < 65 && 0 <= z < 65 ==> nodes[z * 65 + x] == #[trigger] f((x, z)),
        keeps_field(tent, f),
        0 <= m <= 6,
        0 <= i < mip_axis(m),
        0 <= j < mip_axis(m),
    ensures
        level(nodes, m)[j * mip_axis(m) + i] == f((stride(m) * i, stride(m) * j)),
    decreases m,
{
    let c = mip_axis(m);
    lemma_row_order(c, i, j, 0, c);
    law_mip_layout(m);
    if m == 0 {
        assert(level(nodes, 0)[j * c + i] == nodes[j * c + i]);
        assert(nodes[j * 65 + i] == f((i, j)));
    } else {
        let n = mip_axis(m - 1);
        let s = stride(m - 1);
        let fine = level(nodes, m - 1);
        let coarse = level(nodes, m);
        law_mip_layout(m - 1);
        assert(halved(tent, fine, n, coarse, c));
        let rows = choose|rows: Seq<GpuHeightNode>| #[trigger] halved_by(tent, fine, n, rows, coarse, c);
        assert forall|a: int, b: int| 0 <= a < c && 0 <= b < n implies #[trigger] same_node(
            rows,
            c,
            a,
            b,
            f((2 * s * a, s * b)),
        ) by {
            assert(x_halved(tent, fine, n, rows, c, a, b));
            lemma_strides(s, a);
            law_kept_field_stays(tent, nodes, f, m - 1, 2 * a, b);
            if a > 0 {
                law_kept_field_stays(tent, nodes, f, m - 1, 2 * a - 1, b);
            }
            if 2 * a + 1 < n {
                law_kept_field_stays(tent, nodes, f, m - 1, 2 * a + 1, b);
            }
            assert(midway((2 * s * a - s, s * b), (2 * s * a, s * b), (2 * s * a + s, s * b)));
        }
        lemma_strides(s, j);
        assert(z_halved(tent, rows, n, coarse, c, i, j));
        assert(same_node(rows, c, i, 2 * j, f((2 * s * i, s * (2 * j)))));
        if j > 0 {
            assert(same_node(rows, c, i, 2 * j - 1, f((2 * s * i, s * (2 * j - 1)))));
        }
        if 2 * j + 1 < n {
            assert(same_node(rows, c, i, 2 * j + 1, f((2 * s * i, s * (2 * j + 1)))));
        }
        assert(midway((2 * s * i, 2 * s * j - s), (2 * s * i, 2 * s * j), (2 * s * i, 2 * s * j + s)));
    }
}

/// The places of neighbouring nodes.
proof fn lemma_strides(s: int, a: int)
    ensures
        s * (2 * a) == 2 * s * a,
        s * (2 * a - 1) == 2 * s * a - s,
        s * (2 * a + 1) == 2 * s * a + s,
{
    assert(s * (2 * a) == 2 * s * a) by (nonlinear_arith);
    assert(s * (2 * a - 1) == s * (2 * a) - s) by (nonlinear_arith);
    assert(s * (2 * a + 1) == s * (2 * a) + s) by (nonlinear_arith);
}

/// A filter that keeps the node at the rim, as one does that mirrors the neighbour on the other side, keeps the corners
/// of a chunk at every level, so that neighbouring chunks agree on them.
pub proof fn law_corners_stay<
    T: Fn(Option<GpuHeightNode>, GpuHeightNode, Option<GpuHeightNode>) -> GpuHeightNode,
>(tent: T, nodes: Seq<GpuHeightNode>, m: int, right: bool, far: bool)
    requires
        nodes.len() == 5722,
        is_pyramid(tent, nodes, 6),
        forall|l: Option<GpuHeightNode>, v: GpuHeightNode, r: Option<GpuHeightNode>, o: GpuHeightNode|
            (l is None || r is None) && #[trigger] call_ensures(tent, (l, v, r), o) ==> o == v,
        0 <= m <= 6,
    ensures
        corner(level(nodes, m), mip_axis(m), right, far) == corner(level(nodes, 0), 65, right, far),
    decreases m,
{
    law_mip_layout(m);
    if m > 0 {
        let c = mip_axis(m);
        let n = mip_axis(m - 1);
        let fine = level(nodes, m - 1);
        let coarse = level(nodes, m);
        law_mip_layout(m - 1);
        law_corners_stay(tent, nodes, m - 1, right, far);
        assert(halved(tent, fine, n, coarse, c));
        let rows = choose|rows: Seq<GpuHeightNode>| #[trigger] halved_by(tent, fine, n, rows, coarse, c);
        let i = if right { c - 1 } else { 0 };
        let j = if far { c - 1 } else { 0 };
        assert(x_halved(tent, fine, n, rows, c, i, 2 * j));
        assert(z_halved(tent, rows, n, coarse, c, i, j));
    }
}

/// The node at a corner of a grid `w` wide.
pub open spec fn corner(grid: Seq<GpuHeightNode>, w: int, right: bool, far: bool) -> GpuHeightNode {
    let i = if right { w - 1 } else { 0 };
    let j = if far { w - 1 } else { 0 };
    grid[j * w + i]
}

/// The terrain that one bake samples: the height rings, the offset of the bake's own space as bit patterns of
/// floats, and the source of detail normals where there is one.
#[derive(Debug)]
pub struct BakeTerrainSnapshot<C, H> {
    pub clipmap: C,
    pub offset: [u32; 2],
    pub hifi: Option<H>,
}

/// Take the snapshot for a bake. Without height rings there is none.
pub fn bake_snapshot<C, H>(clipmap: Option<C>, offset: [u32; 2], hifi: Option<H>) -> (s: Option<
    BakeTerrainSnapshot<C, H>,
>)
    ensures
        s is Some == clipmap is Some,
        s matches Some(t) ==> Some(t.clipmap) == clipmap && t.offset == offset && t.hifi == hifi,
{
    match clipmap {
        Some(c) => Some(BakeTerrainSnapshot { clipmap: c, offset, hifi }),
        None => None,
    }
}

/// The source of detail normals of a bake, with the offset: only where a snapshot is taken and has one.
pub fn bake_terrain_hifi<C, H>(snapshot: &Option<BakeTerrainSnapshot<C, H>>) -> (r: Option<(&H, [u32; 2])>)
    ensures
        r is Some == (snapshot is Some && snapshot->0.hifi is Some),
        r matches Some((h, o)) ==> Some(*h) == snapshot->0.hifi && o == snapshot->0.offset,
{
    match snapshot {
        Some(s) => match &s.hifi {
            Some(h) => Some((h, s.offset)),
            None => None,
        },
        None => None,
    }
}

} // verus!
