//! Updates whose dense bricks are encoded on the GPU.
//!
//! The packer places the bricks and hands out, instead of their bytes, commands: where each dense brick
//! goes, and a table of the cores of the brick and its 26 neighbours, out of which its haloed grid is
//! filled.

use super::plan::{all_settled, fits, lemma_used_grows, lists, settled};
use super::{
    begun, cells_differ, cells_of, class_of_voxels, content, is_freed, is_step, leavers, slots_of,
    lemma_content_len, lemma_entering, lemma_progress_end, lemma_progress_start,
    lemma_progress_step, lemma_resident_count, lemma_slot_as_before, meta_differs, near, pack_all, placed,
    pools_grow, progress, same_frame, same_slot, shows, Begun, Classification, PackerState,
    PendingClassify, Placement, ResidentPacker,
};
use crate::brickmap::{voxel_at, Brick, Key};
use crate::fxmap::{fx_get, fx_insert, fx_len, fx_new};
use crate::gpu::{zero_meta, GpuBrickMeta};
use crate::math::IVec3;
use crate::pack::{
    blocks_behind, bricks_wf, build_by_key, entries_wf, halo_block, key_ok,
    lemma_resident_blocks, origin_of, resident_blocks, shifted, Blocks, BrickVoxels, PackedBrick,
    ResidentBrick, VoxelsView,
};
use crate::palette::BlockId;
use crate::paletted::{first_seen, lemma_first_seen};
use crate::sort::keys_ascend;
use rustc_hash::FxHashMap;
use vstd::prelude::*;

verus! {

/// A neighbour table entry for a neighbour that is not there; its cells are air.
pub const NEIGHBOUR_ABSENT: u32 = 0xFFFF_FFFF;

/// The box of the slot is that of a resident brick.
pub const AABB_FLAG_RESIDENT: u32 = 1;

/// The box of the slot is degenerate.
pub const AABB_FLAG_FREED: u32 = 0;

/// The command to encode one dense brick: fifteen words. The corner is in brick spans of the level.
#[derive(Clone, Copy, Debug, PartialEq, Eq, Structural)]
pub struct GpuPackCommand {
    /// The brick's world-voxel origin.
    pub origin_x: i32,
    pub origin_y: i32,
    pub origin_z: i32,
    /// The slot that the meta goes to.
    pub slot: u32,
    /// The brick's world-minimum corner.
    pub world_min_x: i32,
    pub world_min_y: i32,
    pub world_min_z: i32,
    /// Where the index stream begins.
    pub index_word_offset: u32,
    pub lod: u32,
    /// The index width.
    pub index_bits: u32,
    /// Where the palette begins.
    pub palette_word_offset: u32,
    /// Where the brick's neighbour table begins.
    pub neighbour_base: u32,
    /// Padding, always zero.
    pub _pad0: u32,
    pub _pad1: u32,
    pub _pad2: u32,
}

/// The command to write the box of one slot: eight words.
#[derive(Clone, Copy, Debug, PartialEq, Eq, Structural)]
pub struct GpuAabbCommand {
    pub slot: u32,
    /// The level; read for a resident brick only.
    pub lod: u32,
    /// [`AABB_FLAG_RESIDENT`] or [`AABB_FLAG_FREED`].
    pub flag: u32,
    /// Padding, always zero.
    pub _pad0: u32,
    /// The brick's world-minimum corner, in brick spans; read for a resident brick only.
    pub world_min_x: i32,
    pub world_min_y: i32,
    pub world_min_z: i32,
    pub _pad1: u32,
}

impl GpuAabbCommand {
    /// The command for the slot of the brick at `k`.
    pub open spec fn for_brick(slot: u32, k: Key) -> GpuAabbCommand {
        GpuAabbCommand {
            slot,
            lod: k.3,
            flag: AABB_FLAG_RESIDENT,
            _pad0: 0,
            world_min_x: k.0,
            world_min_y: k.1,
            world_min_z: k.2,
            _pad1: 0,
        }
    }

    /// The command for a freed slot.
    pub open spec fn for_freed(slot: u32) -> GpuAabbCommand {
        GpuAabbCommand {
            slot,
            lod: 0,
            flag: AABB_FLAG_FREED,
            _pad0: 0,
            world_min_x: 0,
            world_min_y: 0,
            world_min_z: 0,
            _pad1: 0,
        }
    }

    /// The command for the slot of a resident brick.
    pub fn resident(slot: u32, world_min: IVec3, lod: u32) -> (c: GpuAabbCommand)
        ensures
            c == Self::for_brick(slot, (world_min.x, world_min.y, world_min.z, lod)),
    {
        GpuAabbCommand {
            slot,
            lod,
            flag: AABB_FLAG_RESIDENT,
            _pad0: 0,
            world_min_x: world_min.x,
            world_min_y: world_min.y,
            world_min_z: world_min.z,
            _pad1: 0,
        }
    }

    /// The command for a freed slot.
    pub fn freed(slot: u32) -> (c: GpuAabbCommand)
        ensures
            c == Self::for_freed(slot),
    {
        GpuAabbCommand {
            slot,
            lod: 0,
            flag: AABB_FLAG_FREED,
            _pad0: 0,
            world_min_x: 0,
            world_min_y: 0,
            world_min_z: 0,
            _pad1: 0,
        }
    }
}

/// The command to classify one brick.
#[derive(Clone, Copy, Debug, PartialEq, Eq, Structural)]
pub struct GpuClassifyCommand {
    /// Where the brick's neighbour table begins.
    pub neighbour_base: u32,
    /// Padding, always zero.
    pub _pad0: u32,
    pub _pad1: u32,
    pub _pad2: u32,
}

/// The classification of one brick, as it is read back.
#[derive(Clone, Copy, Debug, PartialEq, Eq, Structural)]
pub struct GpuClassifyOut {
    /// Not zero for a brick whose haloed grid is one solid block.
    pub is_uniform: u32,
    /// That block, in the low sixteen bits.
    pub uniform_block: u32,
    /// The number of distinct blocks of a dense brick.
    pub palette_k: u32,
    /// The index width of a dense brick.
    pub index_bits: u32,
}

/// One meta that is written without the GPU's help: that of a uniform brick or of a freed slot.
#[derive(Clone, Copy, Debug, PartialEq, Eq, Structural)]
pub struct GpuCpuWrite {
    pub slot: u32,
    pub meta: GpuBrickMeta,
}

/// What an update hands to the GPU.
#[derive(Clone, Debug)]
pub struct GpuPackBatch {
    /// One command per dense brick to encode.
    pub commands: Vec<GpuPackCommand>,
    /// The cores of the bricks that the tables refer to, each once, 512 words a core.
    pub cores: Vec<u32>,
    /// The neighbour tables, 27 entries each.
    pub neighbour_indices: Vec<u32>,
    /// The metas of uniform bricks and freed slots.
    pub cpu_writes: Vec<GpuCpuWrite>,
    /// One command per slot whose box is written.
    pub aabb_commands: Vec<GpuAabbCommand>,
    /// Whether a brick entered or left.
    pub topology_changed: bool,
}

impl GpuPackBatch {
    /// True iff nothing is to be written.
    pub fn is_empty(&self) -> (b: bool)
        ensures
            b == (self.commands@.len() == 0 && self.cpu_writes@.len() == 0 && self.aabb_commands@.len()
                == 0),
    {
        self.commands.len() == 0 && self.cpu_writes.len() == 0 && self.aabb_commands.len() == 0
    }
}

/// What is handed to the GPU to classify bricks.
#[derive(Clone, Debug)]
pub struct GpuClassifyBatch {
    /// One command per brick.
    pub commands: Vec<GpuClassifyCommand>,
    /// The cores that the tables refer to.
    pub cores: Vec<u32>,
    /// The neighbour tables.
    pub neighbour_indices: Vec<u32>,
}

impl GpuClassifyBatch {
    /// True iff there is nothing to classify.
    pub fn is_empty(&self) -> (b: bool)
        ensures
            b == (self.commands@.len() == 0),
    {
        self.commands.len() == 0
    }
}

/// The neighbour that entry `n` of a neighbour table is about: x fastest, then y, then z, each from one
/// below to one above; entry 13 is the brick itself.
pub open spec fn table_key(k: Key, n: int) -> Key {
    shifted(k, n % 3 - 1, (n / 3) % 3 - 1, n / 9 - 1)
}

/// Whether `cores` holds the cores of the bricks of `f`, each once and where `f` says.
pub open spec fn is_core_pool(cores: Seq<u32>, f: Map<Key, u32>, m: Blocks) -> bool {
    &&& f.dom().finite()
    &&& f.dom().subset_of(m.dom())
    &&& cores.len() == 512 * f.dom().len()
    &&& forall|k: Key| #[trigger]
        f.dom().contains(k) ==> f[k] < f.dom().len() && forall|v: int|
            0 <= v < 512 ==> #[trigger] cores[512 * f[k] + v] == m[k][v].0
    &&& forall|j: Key, k: Key|
        #![trigger f.dom().contains(j), f.dom().contains(k)]
        f.dom().contains(j) && f.dom().contains(k) && f[j] == f[k] ==> j == k
}

/// The places of the cores once that of brick `j` is wanted: it comes after the others where it is not there yet.
pub open spec fn with_core(f: Map<Key, u32>, m: Blocks, j: Key) -> Map<Key, u32> {
    if m.dom().contains(j) && !f.dom().contains(j) {
        f.insert(j, f.dom().len() as u32)
    } else {
        f
    }
}

/// The places of the cores once those of the first `n` entries of the table of brick `k` are wanted.
pub open spec fn with_table(f: Map<Key, u32>, m: Blocks, k: Key, n: nat) -> Map<Key, u32>
    decreases n,
{
    if n == 0 {
        f
    } else {
        with_core(with_table(f, m, k, (n - 1) as nat), m, table_key(k, n - 1))
    }
}

/// The places of the cores that the tables of `ks` want, in the order in which they are first wanted.
pub open spec fn core_places(m: Blocks, ks: Seq<Key>) -> Map<Key, u32>
    decreases ks.len(),
{
    if ks.len() == 0 {
        Map::empty()
    } else {
        with_table(core_places(m, ks.drop_last()), m, ks.last(), 27)
    }
}

/// Whether entry `n` of the table at `base` names the core of the neighbour that it is about, or says
/// that there is none.
pub open spec fn is_entry(table: Seq<u32>, base: int, f: Map<Key, u32>, m: Blocks, k: Key, n: int) -> bool {
    let e = table[base + n];
    let j = table_key(k, n);
    if m.dom().contains(j) {
        f.dom().contains(j) && e == f[j]
    } else {
        e == NEIGHBOUR_ABSENT
    }
}

/// Whether the cores of `bricks` bricks can be held, and the tables of as many begin at offsets of 32 bits.
pub open spec fn tables_fit(bricks: nat) -> bool {
    512 * bricks <= usize::MAX && 27 * bricks <= u32::MAX
}

/// Whether the table at `base` is that of brick `k`.
pub open spec fn is_table(table: Seq<u32>, base: int, f: Map<Key, u32>, m: Blocks, k: Key) -> bool {
    &&& 0 <= base
    &&& base + 27 <= table.len()
    &&& forall|n: int| 0 <= n < 27 ==> #[trigger] is_entry(table, base, f, m, k, n)
}

/// The block id that a table and its cores give for cell `i` of a brick's haloed grid.
pub open spec fn table_cell(cores: Seq<u32>, table: Seq<u32>, base: int, i: int) -> u32 {
    let cx = i % 10 - 1;
    let cy = (i / 10) % 10 - 1;
    let cz = i / 100 - 1;
    let e = table[base + (cz / 8 + 1) * 9 + (cy / 8 + 1) * 3 + (cx / 8 + 1)];
    if e == NEIGHBOUR_ABSENT {
        0
    } else {
        cores[512 * e + voxel_at(cx % 8, cy % 8, cz % 8)]
    }
}

/// A table and its cores give the same haloed grid as packing the brick does.
pub proof fn law_table_fills_halo(
    cores: Seq<u32>,
    table: Seq<u32>,
    base: int,
    f: Map<Key, u32>,
    m: Blocks,
    k: Key,
    i: int,
)
    requires
        key_ok(k),
        m.dom().contains(k),
        is_core_pool(cores, f, m),
        f.dom().len() < NEIGHBOUR_ABSENT,
        is_table(table, base, f, m, k),
        0 <= i < 1000,
    ensures
        table_cell(cores, table, base, i) == halo_block(m[k], m, k, i).0,
{
    let cx = i % 10 - 1;
    let cy = (i / 10) % 10 - 1;
    let cz = i / 100 - 1;
    let n = (cz / 8 + 1) * 9 + (cy / 8 + 1) * 3 + (cx / 8 + 1);
    let j = shifted(k, cx / 8, cy / 8, cz / 8);
    assert(table_key(k, n) == j);
    assert(is_entry(table, base, f, m, k, n));
    assert(table[base + n] == table[base + (cz / 8 + 1) * 9 + (cy / 8 + 1) * 3 + (cx / 8 + 1)]);
    let v = voxel_at(cx % 8, cy % 8, cz % 8);
    assert(0 <= v < 512);
    if m.dom().contains(j) {
        assert(f.dom().contains(j));
        assert(cores[512 * f[j] + v] == m[j][v].0);
    }
    if crate::brickmap::in_brick(cx, cy, cz) {
        assert(j == k);
    }
}

/// The core of a brick as 512 words, in the order of its voxels.
fn extract_core(brick: &Brick, cores: &mut Vec<u32>)
    requires
        brick.wf(),
        old(cores)@.len() + 512 <= usize::MAX,
    ensures
        final(cores)@.len() == old(cores)@.len() + 512,
        forall|i: int| 0 <= i < old(cores)@.len() ==> final(cores)@[i] == old(cores)@[i],
        forall|v: int|
            0 <= v < 512 ==> #[trigger] final(cores)@[old(cores)@.len() + v] == brick@[v].0,
{
    let ghost before = cores@;
    let mut v: usize = 0;
    while v < 512
        invariant
            v <= 512,
            brick.wf(),
            cores@.len() == before.len() + v,
            forall|i: int| 0 <= i < before.len() ==> cores@[i] == before[i],
            forall|w: int| 0 <= w < v ==> #[trigger] cores@[before.len() + w] == brick@[w].0,
        decreases 512 - v,
    {
        let b: BlockId = brick.get((v % 8) as i32, ((v / 8) % 8) as i32, (v / 64) as i32);
        assert(voxel_at(v as int % 8, (v as int / 8) % 8, v as int / 64) == v);
        cores.push(b.0 as u32);
        v = v + 1;
    }
}

/// The place of the core of brick `key` in the pool; it is appended where it is not there yet.
fn intern_core(
    cores: &mut Vec<u32>,
    core_index: &mut FxHashMap<Key, u32>,
    key: Key,
    brick: &Brick,
    m: Ghost<Blocks>,
) -> (i: u32)
    requires
        brick.wf(),
        m@.dom().contains(key),
        m@[key] == brick@,
        is_core_pool(old(cores)@, old(core_index)@, m@),
        m@.dom().finite(),
        tables_fit(m@.dom().len()),
    ensures
        is_core_pool(final(cores)@, final(core_index)@, m@),
        final(core_index)@.dom().contains(key),
        i == final(core_index)@[key],
        submap(old(core_index)@, final(core_index)@),
        final(core_index)@ == with_core(old(core_index)@, m@, key),
{
    if let Some(i) = fx_get(core_index, key) {
        return *i;
    }
    let ghost f = core_index@;
    proof {
        vstd::set_lib::lemma_len_subset(f.dom(), m@.dom());
        assert(f.dom().insert(key).subset_of(m@.dom()));
        vstd::set_lib::lemma_len_subset(f.dom().insert(key), m@.dom());
    }
    let ghost before = cores@;
    assert(cores.len() == cores@.len());
    let i: u32 = (cores.len() / 512) as u32;
    extract_core(brick, cores);
    fx_insert(core_index, key, i);
    proof {
        let g = core_index@;
        assert(g.dom() =~= f.dom().insert(key));
        assert(i == f.dom().len());
        assert forall|k: Key| #[trigger] g.dom().contains(k) implies g[k] < g.dom().len() && forall|v: int|
            0 <= v < 512 ==> #[trigger] cores@[512 * g[k] + v] == m@[k][v].0 by {
            if k != key {
                assert(f.dom().contains(k));
                assert forall|v: int| 0 <= v < 512 implies #[trigger] cores@[512 * g[k] + v] == m@[k][v].0 by {
                    assert(before[512 * f[k] + v] == m@[k][v].0);
                }
            } else {
                assert forall|v: int| 0 <= v < 512 implies #[trigger] cores@[512 * g[k] + v] == m@[k][v].0 by {
                    assert(cores@[before.len() + v] == brick@[v].0);
                }
            }
        }
        assert forall|j: Key, k: Key|
            #![trigger g.dom().contains(j), g.dom().contains(k)]
            g.dom().contains(j) && g.dom().contains(k) && g[j] == g[k] implies j == k by {
            if j != key {
                assert(f.dom().contains(j));
            }
            if k != key {
                assert(f.dom().contains(k));
            }
        }
    }
    i
}

/// Whether map `b` has all entries of `a`.
pub open spec fn submap(a: Map<Key, u32>, b: Map<Key, u32>) -> bool {
    forall|k: Key| #[trigger] a.dom().contains(k) ==> b.dom().contains(k) && b[k] == a[k]
}

/// A table stays one when the pool grows and more tables follow.
proof fn lemma_table_stays(
    table: Seq<u32>,
    more: Seq<u32>,
    base: int,
    f: Map<Key, u32>,
    g: Map<Key, u32>,
    m: Blocks,
    k: Key,
)
    requires
        is_table(table, base, f, m, k),
        submap(f, g),
        table.len() <= more.len(),
        forall|i: int| 0 <= i < table.len() ==> more[i] == table[i],
    ensures
        is_table(more, base, g, m, k),
{
    assert forall|n: int| 0 <= n < 27 implies #[trigger] is_entry(more, base, g, m, k, n) by {
        assert(is_entry(table, base, f, m, k, n));
        assert(more[base + n] == table[base + n]);
    }
}

/// Append the neighbour table of brick `key`, and the cores that it needs and that are not in the pool.
fn build_neighbour_table(
    key: Key,
    by_key: &FxHashMap<Key, &Brick>,
    core_index: &mut FxHashMap<Key, u32>,
    cores: &mut Vec<u32>,
    neighbour_indices: &mut Vec<u32>,
)
    requires
        key_ok(key),
        bricks_wf(by_key@),
        is_core_pool(old(cores)@, old(core_index)@, blocks_behind(by_key@)),
        by_key@.dom().finite(),
        tables_fit(by_key@.dom().len()),
    ensures
        is_core_pool(final(cores)@, final(core_index)@, blocks_behind(by_key@)),
        submap(old(core_index)@, final(core_index)@),
        final(core_index)@ == with_table(old(core_index)@, blocks_behind(by_key@), key, 27),
        final(neighbour_indices)@.len() == old(neighbour_indices)@.len() + 27,
        forall|i: int|
            0 <= i < old(neighbour_indices)@.len() ==> final(neighbour_indices)@[i] == old(
                neighbour_indices,
            )@[i],
        is_table(
            final(neighbour_indices)@,
            old(neighbour_indices)@.len() as int,
            final(core_index)@,
            blocks_behind(by_key@),
            key,
        ),
{
    let ghost m = blocks_behind(by_key@);
    let ghost before = neighbour_indices@;
    assert(m.dom() =~= by_key@.dom());
    let mut n: i32 = 0;
    while n < 27
        invariant
            0 <= n <= 27,
            key_ok(key),
            bricks_wf(by_key@),
            m == blocks_behind(by_key@),
            m.dom() == by_key@.dom(),
            m.dom().finite(),
            tables_fit(m.dom().len()),
            is_core_pool(cores@, core_index@, m),
            submap(old(core_index)@, core_index@),
            core_index@ == with_table(old(core_index)@, m, key, n as nat),
            neighbour_indices@.len() == before.len() + n,
            forall|i: int| 0 <= i < before.len() ==> neighbour_indices@[i] == before[i],
            forall|i: int|
                0 <= i < n ==> #[trigger] is_entry(
                    neighbour_indices@,
                    before.len() as int,
                    core_index@,
                    m,
                    key,
                    i,
                ),
        decreases 27 - n,
    {
        let nkey: Key = (key.0 + (n % 3 - 1), key.1 + ((n / 3) % 3 - 1), key.2 + (n / 9 - 1), key.3);
        assert(nkey == table_key(key, n as int));
        let ghost f = core_index@;
        let ghost t = neighbour_indices@;
        let entry: u32 = match fx_get(by_key, nkey) {
            Some(brick) => {
                assert(m[nkey] == by_key@[nkey]@);
                intern_core(cores, core_index, nkey, *brick, Ghost(m))
            },
            None => NEIGHBOUR_ABSENT,
        };
        neighbour_indices.push(entry);
        proof {
            assert forall|i: int| 0 <= i < n + 1 implies #[trigger] is_entry(
                neighbour_indices@,
                before.len() as int,
                core_index@,
                m,
                key,
                i,
            ) by {
                if i < n {
                    assert(is_entry(t, before.len() as int, f, m, key, i));
                    assert(neighbour_indices@[before.len() + i] == t[before.len() + i]);
                    assert(submap(f, core_index@));
                }
            }
        }
        n = n + 1;
    }
}

/// The number of distinct block ids among a brick's cells.
fn distinct_count(cells: &Vec<u32>) -> (k: u32)
    ensures
        k == first_seen(cells@).len(),
{
    let mut seen: FxHashMap<u16, ()> = fx_new();
    let mut i: usize = 0;
    proof {
        assert(cells@.take(0) =~= Seq::empty());
        assert(first_seen(cells@.take(0)).to_set() =~= Set::<u16>::empty());
    }
    while i < cells.len()
        invariant
            i <= cells@.len(),
            seen@.dom() == first_seen(cells@.take(i as int)).to_set(),
        decreases cells@.len() - i,
    {
        let id: u16 = cells[i] as u16;
        proof {
            let t = cells@.take(i + 1);
            assert(t.drop_last() =~= cells@.take(i as int));
            assert(t.last() == cells@[i as int]);
            let before = first_seen(cells@.take(i as int));
            if !before.contains(id) {
                assert(before.push(id).to_set() =~= before.to_set().insert(id)) by {
                    let more = before.push(id);
                    assert forall|x: u16| more.to_set().contains(x) <==> before.to_set().insert(id).contains(x) by {
                        if before.contains(x) {
                            let w = choose|w: int| 0 <= w < before.len() && before[w] == x;
                            assert(more[w] == x);
                        }
                        assert(more[before.len() as int] == id);
                        if more.contains(x) && x != id {
                            let w = choose|w: int| 0 <= w < more.len() && more[w] == x;
                            assert(before[w] == x);
                        }
                    }
                }
            } else {
                assert(before.to_set().insert(id) =~= before.to_set());
            }
        }
        fx_insert(&mut seen, id, ());
        i = i + 1;
    }
    proof {
        assert(cells@.take(i as int) =~= cells@);
        lemma_first_seen(cells@);
        first_seen(cells@).unique_seq_to_set();
    }
    fx_len(&seen) as u32
}

impl Classification {
    /// The classification that was read back for a brick.
    pub open spec fn of_out(out: GpuClassifyOut) -> Classification {
        if out.is_uniform != 0 {
            Classification::Uniform(BlockId((out.uniform_block % 0x1_0000) as u16))
        } else {
            Classification::Dense { palette_k: out.palette_k }
        }
    }

    /// The classification that was read back for a brick.
    pub fn from_gpu(out: &GpuClassifyOut) -> (c: Classification)
        ensures
            c == Self::of_out(*out),
    {
        if out.is_uniform != 0 {
            Classification::Uniform(BlockId((out.uniform_block % 0x1_0000) as u16))
        } else {
            Classification::Dense { palette_k: out.palette_k }
        }
    }

    /// The classification of a packed brick.
    pub fn from_packed(pb: &PackedBrick) -> (c: Classification)
        ensures
            c == class_of_voxels(pb.voxels@),
    {
        match &pb.voxels {
            BrickVoxels::Uniform(block) => Classification::Uniform(*block),
            BrickVoxels::Dense(cells) => Classification::Dense { palette_k: distinct_count(cells) },
        }
    }
}

/// What a list of bricks adds to a batch: metas, box commands and pack commands, and the bricks that the
/// pack commands are for.
pub struct GpuParts {
    pub writes: Seq<GpuCpuWrite>,
    pub aabbs: Seq<GpuAabbCommand>,
    pub commands: Seq<GpuPackCommand>,
    pub keys: Seq<Key>,
}

/// The command to encode brick `k`, whose neighbour table begins at `base`.
pub open spec fn pack_command(st: PackerState, k: Key, base: u32) -> GpuPackCommand {
    let p = st.resident[k];
    let d = p.dense->0;
    GpuPackCommand {
        origin_x: origin_of(k).x,
        origin_y: origin_of(k).y,
        origin_z: origin_of(k).z,
        slot: p.slot,
        world_min_x: k.0,
        world_min_y: k.1,
        world_min_z: k.2,
        index_word_offset: d.index_offset,
        lod: k.3,
        index_bits: d.index_bits as u32,
        palette_word_offset: d.palette_offset,
        neighbour_base: base,
        _pad0: 0,
        _pad1: 0,
        _pad2: 0,
    }
}

/// The meta that is written for brick `k`: that of a uniform brick whose slot shows something new.
pub open spec fn brick_write(before: PackerState, after: PackerState, k: Key) -> Seq<GpuCpuWrite> {
    let p = after.resident[k];
    if p.dense is None && meta_differs(before, after, p.slot) {
        seq![GpuCpuWrite { slot: p.slot, meta: after.metas[p.slot] }]
    } else {
        Seq::empty()
    }
}

/// Whether brick `k` is encoded anew: it is dense and its cells are not known to be the same.
pub open spec fn is_encoded(before: PackerState, after: PackerState, k: Key) -> bool {
    after.resident[k].dense is Some && cells_differ(before, after, after.resident[k].slot)
}

/// The box command for brick `k`, where its slot shows something new.
pub open spec fn brick_aabb_command(before: PackerState, after: PackerState, k: Key) -> Seq<GpuAabbCommand> {
    let p = after.resident[k];
    if meta_differs(before, after, p.slot) || is_encoded(before, after, k) {
        seq![GpuAabbCommand::for_brick(p.slot, k)]
    } else {
        Seq::empty()
    }
}

/// What the bricks `ks` add to a batch, one after the other. The neighbour tables are those of all the
/// bricks, where they were built beforehand, and else those of the bricks with a pack command.
pub open spec fn gpu_parts(before: PackerState, after: PackerState, ks: Seq<Key>, prebuilt: bool) -> GpuParts
    decreases ks.len(),
{
    if ks.len() == 0 {
        GpuParts {
            writes: Seq::empty(),
            aabbs: Seq::empty(),
            commands: Seq::empty(),
            keys: Seq::empty(),
        }
    } else {
        let r = gpu_parts(before, after, ks.drop_last(), prebuilt);
        let k = ks.last();
        let base = if prebuilt {
            27 * (ks.len() - 1)
        } else {
            27 * (r.commands.len() as int)
        };
        GpuParts {
            writes: r.writes + brick_write(before, after, k),
            aabbs: r.aabbs + brick_aabb_command(before, after, k),
            commands: if is_encoded(before, after, k) {
                r.commands.push(pack_command(after, k, base as u32))
            } else {
                r.commands
            },
            keys: if is_encoded(before, after, k) {
                r.keys.push(k)
            } else {
                r.keys
            },
        }
    }
}

/// What a list of bricks adds is the same for two states in which those bricks have the same places and
/// their slots show the same.
proof fn lemma_parts_frame(a: PackerState, b: PackerState, c: PackerState, ks: Seq<Key>, prebuilt: bool)
    requires
        forall|i: int|
            0 <= i < ks.len() ==> {
                let p = b.resident[#[trigger] ks[i]];
                &&& c.resident[ks[i]] == p
                &&& same_slot(b, c, p.slot)
                &&& b.metas.dom().contains(p.slot)
                &&& b.aabbs.dom().contains(p.slot)
            },
    ensures
        gpu_parts(a, b, ks, prebuilt) == gpu_parts(a, c, ks, prebuilt),
    decreases ks.len(),
{
    if ks.len() > 0 {
        let front = ks.drop_last();
        assert forall|i: int| 0 <= i < front.len() implies ({
            let p = b.resident[#[trigger] front[i]];
            &&& c.resident[front[i]] == p
            &&& same_slot(b, c, p.slot)
            &&& b.metas.dom().contains(p.slot)
            &&& b.aabbs.dom().contains(p.slot)
        }) by {
            assert(front[i] == ks[i]);
        }
        lemma_parts_frame(a, b, c, front, prebuilt);
        assert(ks[ks.len() - 1] == ks.last());
    }
}

impl ResidentPacker {
    /// Place brick `key` as its classification asks and, where its slot shows something new, add to
    /// `batch` the meta of a uniform brick, or the box and pack commands of a dense one. `cells` is its
    /// haloed grid where that is known, and `prebuilt_base` is where its neighbour table begins where
    /// that is built; else the table is appended.
    fn emit_pack_command(
        &mut self,
        key: Key,
        class: Classification,
        cells: Option<&Vec<u32>>,
        prebuilt_base: Option<u32>,
        by_key: &FxHashMap<Key, &Brick>,
        core_index: &mut FxHashMap<Key, u32>,
        batch: &mut GpuPackBatch,
    )
        requires
            old(self).wf(),
            old(self).resident@.dom().contains(key),
            fits(settled(old(self).places(), key, class)),
            class matches Classification::Dense { palette_k } ==> palette_k <= 1000,
            cells matches Some(c) ==> c@.len() == 1000 && class == class_of_voxels(
                VoxelsView::Dense(c@),
            ),
            prebuilt_base is None ==> {
                &&& bricks_wf(by_key@)
                &&& by_key@.dom().finite()
                &&& tables_fit(by_key@.dom().len())
                &&& is_core_pool(old(batch).cores@, old(core_index)@, blocks_behind(by_key@))
                &&& old(batch).neighbour_indices@.len() <= u32::MAX
            },
        ensures
            final(self).wf(),
            placed(
                old(self).state(),
                final(self).state(),
                key,
                class,
                super::cells_view(cells),
            ),
            final(self).places() == settled(old(self).places(), key, class),
            same_frame(old(self), final(self), key, class),
            final(batch).topology_changed == old(batch).topology_changed,
            final(batch).cpu_writes@ == old(batch).cpu_writes@ + brick_write(
                old(self).state(),
                final(self).state(),
                key,
            ),
            final(batch).aabb_commands@ == old(batch).aabb_commands@ + brick_aabb_command(
                old(self).state(),
                final(self).state(),
                key,
            ),
            ({
                let encoded = is_encoded(old(self).state(), final(self).state(), key);
                let base = match prebuilt_base {
                    Some(b) => b,
                    None => old(batch).neighbour_indices@.len() as u32,
                };
                &&& final(batch).commands@ == (if encoded {
                    old(batch).commands@.push(pack_command(final(self).state(), key, base))
                } else {
                    old(batch).commands@
                })
                &&& (!encoded || prebuilt_base is Some ==> final(batch).cores == old(batch).cores
                    && final(batch).neighbour_indices == old(batch).neighbour_indices
                    && *final(core_index) == *old(core_index))
                &&& (encoded && prebuilt_base is None ==> {
                    &&& is_core_pool(final(batch).cores@, final(core_index)@, blocks_behind(by_key@))
                    &&& submap(old(core_index)@, final(core_index)@)
                    &&& final(core_index)@ == with_table(old(core_index)@, blocks_behind(by_key@), key, 27)
                    &&& final(batch).neighbour_indices@.len() == old(batch).neighbour_indices@.len() + 27
                    &&& forall|i: int|
                        0 <= i < old(batch).neighbour_indices@.len() ==> final(batch).neighbour_indices@[i] == old(batch).neighbour_indices@[i]
                    &&& is_table(
                        final(batch).neighbour_indices@,
                        base as int,
                        final(core_index)@,
                        blocks_behind(by_key@),
                        key,
                    )
                })
            }),
    {
        proof {
            self.lemma_key_ok(key);
        }
        let p: Placement = self.place(key, class, cells);
        let corner: IVec3 = IVec3 { x: key.0, y: key.1, z: key.2 };
        let ghost writes = batch.cpu_writes@;
        let ghost aabbs = batch.aabb_commands@;
        match p.dense {
            None => {
                if p.meta_changed {
                    batch.cpu_writes.push(GpuCpuWrite { slot: p.slot, meta: p.meta });
                    batch.aabb_commands.push(GpuAabbCommand::resident(p.slot, corner, key.3));
                }
            },
            Some(d) => {
                if p.meta_changed || p.voxels_changed {
                    batch.aabb_commands.push(GpuAabbCommand::resident(p.slot, corner, key.3));
                    if p.voxels_changed {
                        let neighbour_base: u32 = match prebuilt_base {
                            Some(base) => base,
                            None => {
                                let base: u32 = batch.neighbour_indices.len() as u32;
                                build_neighbour_table(
                                    key,
                                    by_key,
                                    core_index,
                                    &mut batch.cores,
                                    &mut batch.neighbour_indices,
                                );
                                base
                            },
                        };
                        batch.commands.push(
                            GpuPackCommand {
                                origin_x: key.0 * 8,
                                origin_y: key.1 * 8,
                                origin_z: key.2 * 8,
                                slot: p.slot,
                                world_min_x: key.0,
                                world_min_y: key.1,
                                world_min_z: key.2,
                                index_word_offset: d.index_offset,
                                lod: key.3,
                                index_bits: d.index_bits as u32,
                                palette_word_offset: d.palette_offset,
                                neighbour_base,
                                _pad0: 0,
                                _pad1: 0,
                                _pad2: 0,
                            },
                        );
                    }
                }
            },
        }
        proof {
            assert(batch.cpu_writes@ =~= writes + brick_write(old(self).state(), self.state(), key));
            assert(batch.aabb_commands@ =~= aabbs + brick_aabb_command(
                old(self).state(),
                self.state(),
                key,
            ));
        }
    }
}

/// Placing one more brick adds its parts to those of the bricks placed before.
proof fn lemma_parts_step(
    o: &ResidentPacker,
    mid: &ResidentPacker,
    before: &ResidentPacker,
    after: &ResidentPacker,
    m: Set<Key>,
    enter: Seq<Key>,
    ks: Seq<Key>,
    n: int,
    class: spec_fn(Key) -> Classification,
    cells: spec_fn(Key) -> Option<Seq<u32>>,
    prebuilt: bool,
)
    requires
        o.wf(),
        begun(o.state(), mid.state(), m, enter),
        0 <= n < ks.len(),
        ks.no_duplicates(),
        forall|j: int| 0 <= j < ks.len() ==> mid.resident@.dom().contains(#[trigger] ks[j]),
        progress(mid, before, ks, n, class, cells),
        placed(before.state(), after.state(), ks[n], class(ks[n]), cells(ks[n])),
    ensures
        gpu_parts(o.state(), before.state(), ks.take(n), prebuilt) == gpu_parts(
            o.state(),
            after.state(),
            ks.take(n),
            prebuilt,
        ),
        brick_write(before.state(), after.state(), ks[n]) == brick_write(
            o.state(),
            after.state(),
            ks[n],
        ),
        brick_aabb_command(before.state(), after.state(), ks[n]) == brick_aabb_command(
            o.state(),
            after.state(),
            ks[n],
        ),
        is_encoded(before.state(), after.state(), ks[n]) == is_encoded(
            o.state(),
            after.state(),
            ks[n],
        ),
        ks.take(n + 1).drop_last() == ks.take(n),
        ks.take(n + 1).last() == ks[n],
{
    let a = o.state();
    let b = before.state();
    let c = after.state();
    let front = ks.take(n);
    lemma_slot_as_before(o, mid, before, m, enter, ks, n, class, cells);
    assert forall|i: int| 0 <= i < front.len() implies ({
        let p = b.resident[#[trigger] front[i]];
        &&& c.resident[front[i]] == p
        &&& same_slot(b, c, p.slot)
        &&& b.metas.dom().contains(p.slot)
        &&& b.aabbs.dom().contains(p.slot)
    }) by {
        assert(front[i] == ks[i]);
        assert(ks[i] != ks[n]);
        assert(shows(b, ks[i], class(ks[i])));
        assert(before.resident@.dom().contains(ks[i]) && before.resident@.dom().contains(ks[n]));
        before.law_places_are_disjoint(ks[i], ks[n]);
        assert(c.resident == b.resident.insert(ks[n], c.resident[ks[n]]));
    }
    lemma_parts_frame(a, b, c, front, prebuilt);
    assert(ks.take(n + 1).drop_last() =~= front);
}

/// The metas of freed slots.
pub open spec fn freed_writes(freed: Seq<u32>) -> Seq<GpuCpuWrite> {
    freed.map_values(|s: u32| GpuCpuWrite { slot: s, meta: zero_meta() })
}

/// The box commands of freed slots.
pub open spec fn freed_aabbs(freed: Seq<u32>) -> Seq<GpuAabbCommand> {
    freed.map_values(|s: u32| GpuAabbCommand::for_freed(s))
}

/// The metas and box commands of freed slots.
fn free_slots(freed: &Vec<u32>) -> (r: (Vec<GpuCpuWrite>, Vec<GpuAabbCommand>))
    ensures
        r.0@ == freed_writes(freed@),
        r.1@ == freed_aabbs(freed@),
{
    let mut writes: Vec<GpuCpuWrite> = Vec::with_capacity(freed.len());
    let mut aabbs: Vec<GpuAabbCommand> = Vec::with_capacity(freed.len());
    let mut i: usize = 0;
    while i < freed.len()
        invariant
            i <= freed@.len(),
            writes@.len() == i,
            aabbs@.len() == i,
            forall|j: int| 0 <= j < i ==> writes@[j] == (GpuCpuWrite { slot: freed@[j], meta: zero_meta() }),
            forall|j: int| 0 <= j < i ==> aabbs@[j] == GpuAabbCommand::for_freed(freed@[j]),
        decreases freed@.len() - i,
    {
        writes.push(GpuCpuWrite { slot: freed[i], meta: GpuBrickMeta::zeroed() });
        aabbs.push(GpuAabbCommand::freed(freed[i]));
        i = i + 1;
    }
    assert(writes@ =~= freed_writes(freed@));
    assert(aabbs@ =~= freed_aabbs(freed@));
    (writes, aabbs)
}

/// Whether the tables of `keys` stand one after the other in `table`, over the cores in `cores`, which come in the
/// order in which the tables want them.
pub open spec fn are_tables(cores: Seq<u32>, table: Seq<u32>, m: Blocks, keys: Seq<Key>) -> bool {
    &&& is_core_pool(cores, core_places(m, keys), m)
    &&& table.len() == 27 * keys.len()
    &&& forall|c: int| 0 <= c < keys.len() ==> is_table(table, 27 * c, core_places(m, keys), m, #[trigger] keys[c])
}

/// Whether `batch` is what an update from `o` to `n` hands to the GPU: the metas and boxes of the slots freed, in
/// ascending order of the keys that left, then those of the bricks packed anew, in ascending order, and the pack
/// commands of the dense ones among them, with their neighbour tables and the cores that these refer to.
pub open spec fn is_batch(
    o: &ResidentPacker,
    n: &ResidentPacker,
    entries: Seq<ResidentBrick>,
    batch: GpuPackBatch,
) -> bool {
    let m = resident_blocks(entries);
    let r = gpu_parts(o.state(), n.state(), o.dirty_keys(entries), false);
    let freed = slots_of(o.state(), o.leaving(entries));
    &&& lists(o.leaving(entries), leavers(o.state().resident.dom(), m.dom()))
    &&& freed.no_duplicates()
    &&& forall|s: u32| #[trigger] freed.contains(s) <==> is_freed(o.state(), m.dom(), s)
    &&& lists(o.dirty_keys(entries), o.dirty_set(entries))
    &&& batch.cpu_writes@ == freed_writes(freed) + r.writes
    &&& batch.aabb_commands@ == freed_aabbs(freed) + r.aabbs
    &&& batch.commands@ == r.commands
    &&& are_tables(batch.cores@, batch.neighbour_indices@, m, r.keys)
    &&& batch.topology_changed == (freed.len() > 0 || o.newcomers(entries).len() > 0)
}

impl ResidentPacker {
    /// [`Self::update`] for dense bricks that are encoded on the GPU: the packer comes to the same
    /// places, and commands are returned in place of bytes.
    pub fn update_gpu(&mut self, entries: &[ResidentBrick<'_>], palette_stride: u32) -> (batch:
        GpuPackBatch)
        requires
            old(self).wf(),
            entries_wf(entries@),
            old(self).has_words(entries@),
            tables_fit(resident_blocks(entries@).dom().len()),
        ensures
            Self::is_update(old(self), final(self), entries@),
            is_batch(old(self), final(self), entries@, batch),
            final(self).stride() == palette_stride,
            Self::same_awaited(old(self), final(self)),
    {
        let by_key: FxHashMap<Key, &Brick> = build_by_key(entries);
        let ghost o = *self;
        let ghost a = self.state();
        let ghost m = resident_blocks(entries@);
        let ghost enter = self.newcomers(entries@);
        let ghost dirty = |k: Key| o.repacks(entries@, k);
        let ghost class = |k: Key| class_of_voxels(content(m, k));
        let ghost cells = |k: Key| cells_of(content(m, k));
        let b: Begun = self.begin_update(entries, &by_key, palette_stride);
        let keys: Vec<Key> = b.dirty;
        let freed: Vec<u32> = b.freed;
        let (cpu_writes, aabb_commands) = free_slots(&freed);
        let mut batch: GpuPackBatch = GpuPackBatch {
            commands: Vec::new(),
            cores: Vec::new(),
            neighbour_indices: Vec::new(),
            cpu_writes,
            aabb_commands,
            topology_changed: b.topology_changed,
        };
        let mut core_index: FxHashMap<Key, u32> = fx_new();
        let ghost mid = *self;
        proof {
            lemma_progress_start(&mid, keys@, class, cells);
            lemma_resident_blocks(entries@);
            lemma_resident_count(entries@);
            assert forall|j: int| 0 <= j < keys@.len() implies key_ok(#[trigger] keys@[j])
                && by_key@.dom().contains(keys@[j]) && mid.resident@.dom().contains(keys@[j]) by {
                assert(keys@.contains(keys@[j]));
                assert(o.repacks(entries@, keys@[j]));
                let w = choose|w: int|
                    0 <= w < entries@.len() && (#[trigger] entries@[w]).key_spec() == keys@[j];
                assert(entries@[w].wf());
            }
            assert(keys@.len() <= m.dom().len()) by {
                keys@.unique_seq_to_set();
                assert(keys@.to_set().subset_of(m.dom()));
                vstd::set_lib::lemma_len_subset(keys@.to_set(), m.dom());
            }
            assert(core_index@.dom() =~= Set::empty());
            let r = gpu_parts(a, self.state(), keys@.take(0), false);
            assert(batch.cpu_writes@ =~= freed_writes(freed@) + r.writes);
            assert(batch.aabb_commands@ =~= freed_aabbs(freed@) + r.aabbs);
            assert(batch.commands@ =~= r.commands);
            assert(core_index@ =~= core_places(m, r.keys));
            assert(are_tables(batch.cores@, batch.neighbour_indices@, m, r.keys));
        }
        let packed_bricks: Vec<PackedBrick> = pack_all(&keys, &by_key);
        let mut i: usize = 0;
        while i < keys.len()
            invariant
                i <= keys@.len(),
                keys@.len() <= m.dom().len(),
                tables_fit(m.dom().len()),
                keys@.no_duplicates(),
                bricks_wf(by_key@),
                m == blocks_behind(by_key@),
                by_key@.dom() == m.dom(),
                m.dom().finite(),
                class == (|k: Key| class_of_voxels(content(m, k))),
                cells == (|k: Key| cells_of(content(m, k))),
                super::all_packed(keys@, by_key@, packed_bricks@),
                forall|j: int|
                    0 <= j < keys@.len() ==> key_ok(#[trigger] keys@[j]) && by_key@.dom().contains(
                        keys@[j],
                    ) && mid.resident@.dom().contains(keys@[j]),
                fits(all_settled(mid.places(), keys@, class)),
                o.wf(),
                a == o.state(),
                begun(a, mid.state(), m.dom(), enter),
                progress(&mid, self, keys@, i as int, class, cells),
                self.pending_classify == o.pending_classify,
                ({
                    let r = gpu_parts(a, self.state(), keys@.take(i as int), false);
                    &&& batch.cpu_writes@ == freed_writes(freed@) + r.writes
                    &&& batch.aabb_commands@ == freed_aabbs(freed@) + r.aabbs
                    &&& batch.commands@ == r.commands
                    &&& r.keys.len() == r.commands.len()
                    &&& r.commands.len() <= i
                    &&& core_index@ == core_places(m, r.keys)
                    &&& are_tables(batch.cores@, batch.neighbour_indices@, m, r.keys)
                }),
                batch.topology_changed == b.topology_changed,
            decreases keys@.len() - i,
        {
            let key: Key = keys[i];
            let pb: &PackedBrick = &packed_bricks[i];
            let ghost before = *self;
            let ghost r = gpu_parts(a, self.state(), keys@.take(i as int), false);
            let ghost table = batch.neighbour_indices@;
            let ghost f = core_index@;
            proof {
                assert(packed_bricks@[i as int].is_at(keys@[i as int]));
                assert(mid.resident@.dom().contains(keys@[i as int]));
                assert(blocks_behind(by_key@)[key] == by_key@[key]@);
                lemma_content_len(m, key);
                assert(pb.voxels@ == content(m, key));
                if let VoxelsView::Dense(c) = content(m, key) {
                    lemma_first_seen(c);
                }
                lemma_used_grows(mid.places(), keys@, i + 1, class);
                assert(keys@.take(i + 1).drop_last() =~= keys@.take(i as int));
            }
            let cls: Classification = Classification::from_packed(pb);
            let cells_ref: Option<&Vec<u32>> = match &pb.voxels {
                BrickVoxels::Dense(c) => Some(c),
                BrickVoxels::Uniform(_) => None,
            };
            self.emit_pack_command(key, cls, cells_ref, None, &by_key, &mut core_index, &mut batch);
            proof {
                assert(placed(before.state(), self.state(), key, class(key), cells(key)));
                lemma_progress_step(&mid, &before, self, keys@, i as int, class, cells);
                lemma_parts_step(
                    &o,
                    &mid,
                    &before,
                    self,
                    m.dom(),
                    enter,
                    keys@,
                    i as int,
                    class,
                    cells,
                    false,
                );
                let s = gpu_parts(a, self.state(), keys@.take(i + 1), false);
                assert(batch.cpu_writes@ =~= freed_writes(freed@) + s.writes);
                assert(batch.aabb_commands@ =~= freed_aabbs(freed@) + s.aabbs);
                let encoded = is_encoded(a, self.state(), key);
                if encoded {
                    assert(s.keys.drop_last() =~= r.keys);
                    assert(core_index@ == core_places(m, s.keys));
                    assert forall|c: int| 0 <= c < s.keys.len() implies is_table(
                        batch.neighbour_indices@,
                        27 * c,
                        core_index@,
                        m,
                        #[trigger] s.keys[c],
                    ) by {
                        if c < r.keys.len() {
                            assert(s.keys[c] == r.keys[c]);
                            lemma_table_stays(
                                table,
                                batch.neighbour_indices@,
                                27 * c,
                                f,
                                core_index@,
                                m,
                                r.keys[c],
                            );
                        }
                    }
                }
            }
            i = i + 1;
        }
        proof {
            assert(keys@.take(i as int) =~= keys@);
            lemma_entering(a.resident.dom(), o.slot_cap() - a.resident.dom().len(), entries@);
            assert forall|k: Key| #[trigger] enter.contains(k) implies dirty(k) && !o.resident@.dom().contains(k) by {
                assert(super::is_seed(a.resident.dom(), m.dom(), enter, o.rewrites(), k) && near(k, k));
            }
            lemma_progress_end(&o, &mid, self, keys@, m.dom(), enter, dirty, class, cells);
            assert(is_batch(&o, self, entries@, batch));
        }
        batch
    }
}

/// The classification that was read back for brick `k` of the list `ks`.
pub open spec fn awaited_class(ks: Seq<Key>, outs: Seq<GpuClassifyOut>, k: Key) -> Classification {
    Classification::of_out(outs[ks.index_of(k)])
}

impl ResidentPacker {
    /// What the first phase of an update keeps of the pools: blocks that bricks held are not free.
    pub closed spec fn carries(o: &ResidentPacker, mid: &ResidentPacker) -> bool {
        super::pools_stay(o, mid)
    }

    /// How the bricks that were waited for were placed, block by block.
    pub closed spec fn placed_from(mid: &ResidentPacker, n: &ResidentPacker, outs: Seq<GpuClassifyOut>) -> bool {
        let ks = mid.awaited();
        progress(
            mid,
            n,
            ks,
            ks.len() as int,
            |k: Key| awaited_class(ks, outs, k),
            |k: Key| None::<Seq<u32>>,
        )
    }

    /// Whether `mid` comes of `o` by the first phase of an update to `entries`, and waits for the
    /// classification of the bricks to pack anew, in ascending order.
    pub open spec fn is_prepared(o: &ResidentPacker, mid: &ResidentPacker, entries: Seq<ResidentBrick>) -> bool {
        let m = resident_blocks(entries).dom();
        &&& mid.wf()
        &&& mid.awaits()
        &&& begun(o.state(), mid.state(), m, o.newcomers(entries))
        &&& mid.places() == o.readied(entries)
        &&& lists(o.leaving(entries), leavers(o.state().resident.dom(), m))
        &&& mid.awaited_freed() == slots_of(o.state(), o.leaving(entries))
        &&& lists(o.dirty_keys(entries), o.dirty_set(entries))
        &&& mid.awaited() == o.dirty_keys(entries)
        &&& Self::carries(o, mid)
        &&& Self::same_sizes(o, mid)
        &&& keys_ascend(mid.awaited())
        &&& mid.awaited().no_duplicates()
        &&& forall|k: Key| #[trigger] mid.awaited().contains(k) <==> o.repacks(entries, k)
        &&& mid.awaited_bases() == Seq::new(mid.awaited().len(), |i: int| (27 * i) as u32)
        &&& mid.awaited_freed().no_duplicates()
        &&& forall|s: u32| #[trigger] mid.awaited_freed().contains(s) <==> is_freed(o.state(), m, s)
        &&& mid.awaited_topology() == (mid.awaited_freed().len() > 0 || o.newcomers(entries).len() > 0)
        &&& mid.rewrites() == Seq::<Key>::empty()
    }

    /// Whether `n` comes of `mid` by placing the bricks that were waited for as their classifications
    /// ask, without their cells being known.
    pub open spec fn is_finished(mid: &ResidentPacker, n: &ResidentPacker, outs: Seq<GpuClassifyOut>) -> bool {
        let ks = mid.awaited();
        &&& n.wf()
        &&& !n.awaits()
        &&& outs.len() == ks.len()
        &&& is_step(
            mid.state(),
            n.state(),
            mid.state().resident.dom(),
            Seq::empty(),
            |k: Key| ks.contains(k),
            |k: Key| awaited_class(ks, outs, k),
            |k: Key| None::<Seq<u32>>,
        )
        &&& n.places() == all_settled(mid.places(), ks, |k: Key| awaited_class(ks, outs, k))
        &&& Self::placed_from(mid, n, outs)
        &&& pools_grow(mid, n, ks.len() as int)
        &&& n.rewrites() == mid.rewrites()
        &&& n.stride() == mid.stride()
    }

    /// The first half of an update whose bricks are classified on the GPU: bricks leave and enter, and
    /// the tables for classifying those to pack anew are returned.
    pub fn update_gpu_prepare(&mut self, entries: &[ResidentBrick<'_>], palette_stride: u32) -> (r:
        GpuClassifyBatch)
        requires
            old(self).wf(),
            !old(self).awaits(),
            entries_wf(entries@),
            tables_fit(resident_blocks(entries@).dom().len()),
        ensures
            Self::is_prepared(old(self), final(self), entries@),
            final(self).stride() == palette_stride,
            r.commands@ == Seq::new(
                final(self).awaited().len(),
                |i: int|
                    GpuClassifyCommand { neighbour_base: (27 * i) as u32, _pad0: 0, _pad1: 0, _pad2: 0 },
            ),
            are_tables(r.cores@, r.neighbour_indices@, resident_blocks(entries@), final(self).awaited()),
    {
        let by_key: FxHashMap<Key, &Brick> = build_by_key(entries);
        let ghost o = *self;
        let ghost m = resident_blocks(entries@);
        let b: Begun = self.begin_update(entries, &by_key, palette_stride);
        let keys: Vec<Key> = b.dirty;
        let mut core_index: FxHashMap<Key, u32> = fx_new();
        let mut r: GpuClassifyBatch = GpuClassifyBatch {
            commands: Vec::new(),
            cores: Vec::new(),
            neighbour_indices: Vec::new(),
        };
        let mut bases: Vec<u32> = Vec::new();
        proof {
            lemma_resident_blocks(entries@);
            lemma_resident_count(entries@);
            assert forall|j: int| 0 <= j < keys@.len() implies key_ok(#[trigger] keys@[j]) by {
                assert(keys@.contains(keys@[j]));
                assert(o.repacks(entries@, keys@[j]));
                let w = choose|w: int|
                    0 <= w < entries@.len() && (#[trigger] entries@[w]).key_spec() == keys@[j];
                assert(entries@[w].wf());
            }
            assert(keys@.len() <= m.dom().len()) by {
                keys@.unique_seq_to_set();
                assert(keys@.to_set().subset_of(m.dom()));
                vstd::set_lib::lemma_len_subset(keys@.to_set(), m.dom());
            }
            assert(core_index@.dom() =~= Set::empty());
            assert(core_index@ =~= core_places(m, keys@.take(0)));
            assert(are_tables(r.cores@, r.neighbour_indices@, m, keys@.take(0)));
        }
        let mut i: usize = 0;
        while i < keys.len()
            invariant
                i <= keys@.len(),
                keys@.len() <= m.dom().len(),
                tables_fit(m.dom().len()),
                bricks_wf(by_key@),
                m == blocks_behind(by_key@),
                by_key@.dom() == m.dom(),
                m.dom().finite(),
                forall|j: int| 0 <= j < keys@.len() ==> key_ok(#[trigger] keys@[j]),
                core_index@ == core_places(m, keys@.take(i as int)),
                are_tables(r.cores@, r.neighbour_indices@, m, keys@.take(i as int)),
                r.commands@.len() == i,
                bases@.len() == i,
                forall|j: int|
                    0 <= j < i ==> r.commands@[j] == (GpuClassifyCommand {
                        neighbour_base: (27 * j) as u32,
                        _pad0: 0,
                        _pad1: 0,
                        _pad2: 0,
                    }),
                forall|j: int| 0 <= j < i ==> bases@[j] == (27 * j) as u32,
            decreases keys@.len() - i,
        {
            let key: Key = keys[i];
            let base: u32 = r.neighbour_indices.len() as u32;
            let ghost table = r.neighbour_indices@;
            let ghost f = core_index@;
            build_neighbour_table(
                key,
                &by_key,
                &mut core_index,
                &mut r.cores,
                &mut r.neighbour_indices,
            );
            r.commands.push(GpuClassifyCommand { neighbour_base: base, _pad0: 0, _pad1: 0, _pad2: 0 });
            bases.push(base);
            proof {
                let t = keys@.take(i as int);
                let u = keys@.take(i + 1);
                assert(u.drop_last() =~= t);
                assert(core_index@ == core_places(m, u));
                assert forall|c: int| 0 <= c < u.len() implies is_table(
                    r.neighbour_indices@,
                    27 * c,
                    core_index@,
                    m,
                    #[trigger] u[c],
                ) by {
                    if c < i {
                        assert(t[c] == u[c]);
                        lemma_table_stays(
                            table,
                            r.neighbour_indices@,
                            27 * c,
                            f,
                            core_index@,
                            m,
                            t[c],
                        );
                    }
                }
            }
            i = i + 1;
        }
        let ghost mid = *self;
        let ghost freed = b.freed@;
        let ghost topology = b.topology_changed;
        self.pending_classify =
        PendingClassify {
            dirty_keys: keys,
            freed: b.freed,
            neighbour_bases: bases,
            topology_changed: b.topology_changed,
            active: true,
        };
        proof {
            super::lemma_wf_frame(&mid, self);
            assert(keys@.take(i as int) =~= keys@);
            assert(r.commands@ =~= Seq::new(
                self.awaited().len(),
                |i: int|
                    GpuClassifyCommand { neighbour_base: (27 * i) as u32, _pad0: 0, _pad1: 0, _pad2: 0 },
            ));
            assert(self.awaited_bases() =~= Seq::new(self.awaited().len(), |i: int| (27 * i) as u32));
        }
        r
    }

    /// The second half of an update whose bricks were classified on the GPU: place them as the
    /// classifications ask, and return the commands. The cores and tables are those that were prepared.
    pub fn update_gpu_finish(
        &mut self,
        prepared: &GpuClassifyBatch,
        classify_out: &[GpuClassifyOut],
    ) -> (batch: GpuPackBatch)
        requires
            old(self).wf(),
            old(self).awaits(),
            old(self).awaited().no_duplicates(),
            forall|k: Key| #[trigger]
                old(self).awaited().contains(k) ==> old(self).state().resident.dom().contains(k),
            old(self).awaited_bases() == Seq::new(old(self).awaited().len(), |i: int| (27 * i) as u32),
            classify_out@.len() == old(self).awaited().len(),
            forall|i: int|
                0 <= i < classify_out@.len() ==> (#[trigger] classify_out@[i]).is_uniform != 0
                    || classify_out@[i].palette_k <= 1000,
            fits(
                all_settled(
                    old(self).places(),
                    old(self).awaited(),
                    |k: Key| awaited_class(old(self).awaited(), classify_out@, k),
                ),
            ),
        ensures
            Self::is_finished(old(self), final(self), classify_out@),
            batch.cores@ == prepared.cores@,
            batch.neighbour_indices@ == prepared.neighbour_indices@,
            ({
                let r = gpu_parts(old(self).state(), final(self).state(), old(self).awaited(), true);
                &&& batch.cpu_writes@ == freed_writes(old(self).awaited_freed()) + r.writes
                &&& batch.aabb_commands@ == freed_aabbs(old(self).awaited_freed()) + r.aabbs
                &&& batch.commands@ == r.commands
            }),
            batch.topology_changed == old(self).awaited_topology(),
    {
        let ghost o = *self;
        let ghost a = self.state();
        let ghost outs = classify_out@;
        let ghost dom = a.resident.dom();
        let mut pending: PendingClassify = PendingClassify {
            dirty_keys: Vec::new(),
            freed: Vec::new(),
            neighbour_bases: Vec::new(),
            topology_changed: false,
            active: false,
        };
        std::mem::swap(&mut pending, &mut self.pending_classify);
        let keys: Vec<Key> = pending.dirty_keys;
        let bases: Vec<u32> = pending.neighbour_bases;
        let (cpu_writes, aabb_commands) = free_slots(&pending.freed);
        let mut batch: GpuPackBatch = GpuPackBatch {
            commands: Vec::new(),
            cores: super::copy_words(&prepared.cores),
            neighbour_indices: super::copy_words(&prepared.neighbour_indices),
            cpu_writes,
            aabb_commands,
            topology_changed: pending.topology_changed,
        };
        let by_key: FxHashMap<Key, &Brick> = fx_new();
        let mut core_index: FxHashMap<Key, u32> = fx_new();
        let ghost ks = keys@;
        let ghost freed = o.awaited_freed();
        let ghost class = |k: Key| awaited_class(ks, outs, k);
        let ghost cells = |k: Key| None::<Seq<u32>>;
        let ghost enter = Seq::<Key>::empty();
        proof {
            lemma_progress_start(&o, ks, class, cells);
            super::lemma_progress_frame(&o, &o, self, ks, 0, class, cells);
            assert forall|s: u32| !is_freed(a, dom, s) by {
                if is_freed(a, dom, s) {
                    let d = choose|d: Key|
                        #[trigger] super::leaves(dom, dom, d) && a.resident[d].slot == s;
                }
            }
            assert(begun(a, a, dom, enter));
            let r = gpu_parts(a, self.state(), ks.take(0), true);
            assert(batch.cpu_writes@ =~= freed_writes(freed) + r.writes);
            assert(batch.aabb_commands@ =~= freed_aabbs(freed) + r.aabbs);
            assert(batch.commands@ =~= r.commands);
            assert forall|j: int| 0 <= j < ks.len() implies o.resident@.dom().contains(#[trigger] ks[j]) by {
                assert(ks.contains(ks[j]));
            }
        }
        let mut i: usize = 0;
        while i < keys.len()
            invariant
                i <= keys@.len(),
                ks == keys@,
                ks == o.awaited(),
                ks.no_duplicates(),
                outs == classify_out@,
                outs.len() == ks.len(),
                bases@.len() == ks.len(),
                forall|j: int| 0 <= j < ks.len() ==> bases@[j] == (27 * j) as u32,
                forall|j: int|
                    0 <= j < outs.len() ==> (#[trigger] outs[j]).is_uniform != 0 || outs[j].palette_k
                        <= 1000,
                class == (|k: Key| awaited_class(ks, outs, k)),
                cells == (|k: Key| None::<Seq<u32>>),
                forall|j: int| 0 <= j < ks.len() ==> o.resident@.dom().contains(#[trigger] ks[j]),
                fits(all_settled(o.places(), ks, class)),
                o.wf(),
                a == o.state(),
                dom == a.resident.dom(),
                begun(a, a, dom, enter),
                progress(&o, self, ks, i as int, class, cells),
                !self.pending_classify.active,
                batch.cores@ == prepared.cores@,
                batch.neighbour_indices@ == prepared.neighbour_indices@,
                ({
                    let r = gpu_parts(a, self.state(), ks.take(i as int), true);
                    &&& batch.cpu_writes@ == freed_writes(freed) + r.writes
                    &&& batch.aabb_commands@ == freed_aabbs(freed) + r.aabbs
                    &&& batch.commands@ == r.commands
                }),
                batch.topology_changed == o.awaited_topology(),
            decreases keys@.len() - i,
        {
            let key: Key = keys[i];
            let ghost before = *self;
            let ghost r = gpu_parts(a, self.state(), ks.take(i as int), true);
            let cls: Classification = Classification::from_gpu(&classify_out[i]);
            proof {
                assert(ks[i as int] == key);
                assert(ks.index_of(key) == i) by {
                    assert(ks.contains(key));
                    let w = ks.index_of(key);
                    assert(ks[w] == key);
                }
                assert(cls == class(key));
                assert(outs[i as int].is_uniform != 0 || outs[i as int].palette_k <= 1000);
                assert(o.resident@.dom().contains(ks[i as int]));
                lemma_used_grows(o.places(), ks, i + 1, class);
                assert(ks.take(i + 1).drop_last() =~= ks.take(i as int));
            }
            self.emit_pack_command(
                key,
                cls,
                None,
                Some(bases[i]),
                &by_key,
                &mut core_index,
                &mut batch,
            );
            proof {
                assert(placed(before.state(), self.state(), key, class(key), cells(key)));
                lemma_progress_step(&o, &before, self, ks, i as int, class, cells);
                lemma_parts_step(&o, &o, &before, self, dom, enter, ks, i as int, class, cells, true);
                let s = gpu_parts(a, self.state(), ks.take(i + 1), true);
                assert(batch.cpu_writes@ =~= freed_writes(freed) + s.writes);
                assert(batch.aabb_commands@ =~= freed_aabbs(freed) + s.aabbs);
            }
            i = i + 1;
        }
        proof {
            assert(ks.take(i as int) =~= ks);
            let dirty = |k: Key| ks.contains(k);
            lemma_progress_end(&o, &o, self, ks, dom, enter, dirty, class, cells);
        }
        batch
    }
}

/// The two halves of a prepared update make up one: what holds of an update holds of them together, with
/// the bricks placed as their classifications ask and their cells forgotten.
pub proof fn law_prepared_update(
    o: &ResidentPacker,
    mid: &ResidentPacker,
    n: &ResidentPacker,
    entries: Seq<ResidentBrick>,
    outs: Seq<GpuClassifyOut>,
)
    requires
        o.wf(),
        ResidentPacker::is_prepared(o, mid, entries),
        ResidentPacker::is_finished(mid, n, outs),
    ensures
        is_step(
            o.state(),
            n.state(),
            resident_blocks(entries).dom(),
            o.newcomers(entries),
            |k: Key| o.repacks(entries, k),
            |k: Key| awaited_class(mid.awaited(), outs, k),
            |k: Key| None::<Seq<u32>>,
        ),
        pools_grow(o, n, mid.awaited().len() as int),
{
    let m = resident_blocks(entries).dom();
    let enter = o.newcomers(entries);
    let ks = mid.awaited();
    let dirty = |k: Key| o.repacks(entries, k);
    o.lemma_room();
    lemma_resident_blocks(entries);
    lemma_entering(o.state().resident.dom(), o.slot_cap() - o.state().resident.dom().len(), entries);
    assert forall|k: Key| #[trigger] enter.contains(k) implies dirty(k) && !o.resident@.dom().contains(k) by {
        let i = choose|i: int| 0 <= i < entries.len() && (#[trigger] entries[i]).key_spec() == k;
        assert(m.contains(k));
        assert(super::is_seed(o.state().resident.dom(), m, enter, o.rewrites(), k) && near(k, k));
    }
    lemma_progress_end(
        o,
        mid,
        n,
        ks,
        m,
        enter,
        dirty,
        |k: Key| awaited_class(ks, outs, k),
        |k: Key| None::<Seq<u32>>,
    );
}

} // verus!
