//! Incremental packing of the resident brick set into buffers of fixed capacity.
//!
//! Each resident brick has one slot for as long as it is resident. Its meta and its bounding box live at
//! that slot; a dense brick also has a block of the index pool and a block of the palette pool. An update
//! finds the bricks whose bytes can have changed (those that entered or were rewritten, and all that
//! border on one that entered, left or was rewritten), packs them anew and reports the slots whose bytes
//! did change.

use crate::brickmap::{Brick, BrickKey, Key};
use crate::fxmap::{fx_contains, fx_get, fx_insert, fx_keys, fx_len, fx_new, fx_remove};
use crate::gpu::{
    degenerate_aabb, dense_meta, halo_cells, uniform_meta, zero_meta, GpuBrickAabb, GpuBrickMeta,
};
use crate::math::IVec3;
use crate::pack::{
    blocks_behind, bricks_wf, build_by_key, coord_of, entries_wf, key_ok, lemma_resident_blocks,
    origin_of, pack_one, packed, resident_blocks, shifted, Blocks, BrickVoxels, PackedBrick, ResidentBrick,
    VoxelsView,
};
use crate::palette::BlockId;
use crate::paletted::{
    cells_width, encode_paletted, first_seen, index_stream, is_width, lemma_first_seen,
    palette_words, pow2_index_bits, widen_palette, width_for, words_for, PalettedBrick,
};
use crate::sort::{key_before, keys_ascend, sorted_keys};
use crate::pools::{
    class_for, give_block, is_class, lemma_class_exists, no_blocks, take_block, BlockPool, Owner, PoolPlan, SlotPlan,
    SlotPool,
};
use rayon::iter::{IntoParallelRefIterator, ParallelIterator};
use rustc_hash::FxHashMap;
use vstd::prelude::*;

use plan::{
    all_entered, all_left, all_settled, ascending, dense_for, entered, fits, index_for, law_ascending_unique, left, lists,
    palette_for, released, retired, settled, Places,
};

pub mod agree;
pub mod commands;
pub mod details;
pub mod laws;
pub mod plan;
pub mod snapshot;

verus! {

/// Words that the index pool is sized to per brick.
pub const RESERVE_INDEX_WORDS_PER_BRICK: u32 = 256;

/// Words that the palette pool is sized to per brick.
pub const RESERVE_PALETTE_WORDS_PER_BRICK: u32 = 256;

/// The number of cells of a dense brick's haloed grid, the same at every level.
pub fn dense_block_u32() -> (n: usize)
    ensures
        n == 1000,
{
    halo_cells(0)
}

/// Words that a dense brick's index stream takes at a given index width.
pub fn index_class_words(index_bits: u8) -> (n: usize)
    ensures
        n == words_for(1000, index_bits as nat),
{
    (dense_block_u32() * index_bits as usize + 31) / 32
}

/// The block sizes of the index pool, one per index width.
pub open spec fn index_sizes() -> Seq<u32> {
    seq![32u32, 63, 125, 250, 500]
}

/// The block sizes of the palette pool: the powers of two up to 65536.
pub open spec fn palette_sizes() -> Seq<u32> {
    seq![
        2u32,
        4,
        8,
        16,
        32,
        64,
        128,
        256,
        512,
        1024,
        2048,
        4096,
        8192,
        16384,
        32768,
        65536,
    ]
}

/// The words of an index stream of width `bits`.
pub open spec fn stream_words(bits: u8) -> int {
    words_for(1000, bits as nat) as int
}

proof fn lemma_index_class(bits: u8)
    requires
        is_width(bits as nat),
    ensures
        is_class(index_sizes(), stream_words(bits), class_for(index_sizes(), stream_words(bits))),
        stream_words(bits) <= index_sizes()[class_for(index_sizes(), stream_words(bits))] <= 500,
        0 < stream_words(bits) <= 500,
{
    let s = index_sizes();
    if bits == 1 {
        lemma_class_exists(s, stream_words(bits), 0);
    } else if bits == 2 {
        lemma_class_exists(s, stream_words(bits), 1);
    } else if bits == 4 {
        lemma_class_exists(s, stream_words(bits), 2);
    } else if bits == 8 {
        lemma_class_exists(s, stream_words(bits), 3);
    } else {
        lemma_class_exists(s, stream_words(bits), 4);
    }
}

proof fn lemma_palette_class(k: int)
    requires
        k <= 1000,
    ensures
        is_class(palette_sizes(), k, class_for(palette_sizes(), k)),
        k <= palette_sizes()[class_for(palette_sizes(), k)] <= 1024,
{
    let s = palette_sizes();
    lemma_class_exists(s, k, 9);
    let c = class_for(s, k);
    if c > 9 {
        assert(s[9] < k);
    }
}

/// Where a dense brick's index stream and palette are allocated.
#[derive(Clone, Copy, Debug)]
pub struct DenseSlot {
    /// Word offset of the index stream.
    pub index_offset: u32,
    /// Index width.
    pub index_bits: u8,
    /// Word offset of the palette.
    pub palette_offset: u32,
    /// Palette length.
    pub palette_k: u32,
}

/// One resident brick's place: its slot and, for a dense brick, its blocks.
#[derive(Clone, Copy, Debug)]
pub struct SlotState {
    pub slot: u32,
    /// `None` for a uniform brick.
    pub dense: Option<DenseSlot>,
}

/// What a packer knows of the buffers: the place of every resident brick and, per slot, the meta, the
/// box and the cells that were last uploaded.
pub struct PackerState {
    pub resident: Map<Key, SlotState>,
    pub metas: Map<u32, GpuBrickMeta>,
    pub aabbs: Map<u32, GpuBrickAabb>,
    pub cells: Map<u32, Seq<u32>>,
}

/// Whether the slot of brick `k` stores the content `v`.
pub open spec fn stores(st: PackerState, k: Key, v: VoxelsView) -> bool {
    let s = st.resident[k];
    &&& st.metas.dom().contains(s.slot)
    &&& st.aabbs.dom().contains(s.slot)
    &&& st.aabbs[s.slot] == (GpuBrickAabb::Brick { coord: coord_of(k), lod: k.3 })
    &&& match v {
        VoxelsView::Uniform(b) => {
            &&& s.dense is None
            &&& st.metas[s.slot] == uniform_meta(origin_of(k), b, coord_of(k), k.3)
            &&& !st.cells.dom().contains(s.slot)
        },
        VoxelsView::Dense(cells) => {
            &&& s.dense is Some
            &&& s.dense->0.index_bits == cells_width(cells)
            &&& s.dense->0.palette_k == first_seen(cells).len()
            &&& st.metas[s.slot] == dense_meta(
                origin_of(k),
                s.dense->0.index_offset,
                coord_of(k),
                k.3,
                s.dense->0.index_bits,
                s.dense->0.palette_offset,
            )
            &&& (st.cells.dom().contains(s.slot) ==> st.cells[s.slot] == cells)
        },
    }
}

/// Whether two resident bricks share nothing: their slots differ, and so do the words of their index
/// streams and of their palettes.
pub open spec fn disjoint_places(a: SlotState, b: SlotState) -> bool {
    &&& a.slot != b.slot
    &&& (a.dense is Some && b.dense is Some ==> {
        let d = a.dense->0;
        let e = b.dense->0;
        &&& (d.index_offset + stream_words(d.index_bits) <= e.index_offset || e.index_offset
            + stream_words(e.index_bits) <= d.index_offset)
        &&& (d.palette_offset + d.palette_k <= e.palette_offset || e.palette_offset + e.palette_k
            <= d.palette_offset)
    })
}

/// The incremental packer of the resident set.
pub struct ResidentPacker {
    slots: SlotPool,
    /// The place of every resident brick.
    resident: FxHashMap<Key, SlotState>,
    /// Blocks for index streams.
    index_pool: BlockPool,
    /// Blocks for palettes.
    palette_pool: BlockPool,
    /// The length of the registry that the bricks were packed with.
    palette_stride: u32,
    /// Per slot, the meta that was last uploaded.
    last_meta: FxHashMap<u32, GpuBrickMeta>,
    /// Per slot, the box that was last uploaded.
    last_aabb: FxHashMap<u32, GpuBrickAabb>,
    /// Per slot of a dense brick, the cells that were last uploaded.
    last_voxels: FxHashMap<u32, Vec<u32>>,
    /// Keys whose bricks were rewritten in place since the last update.
    pending_rewrites: Vec<Key>,
    /// The update that waits for the classification of its bricks.
    pending_classify: PendingClassify,
}

/// An update whose bricks are being classified: what its first phase found.
struct PendingClassify {
    /// The bricks to place, in the order of their classifications.
    dirty_keys: Vec<Key>,
    /// The slots that were freed.
    freed: Vec<u32>,
    /// Where the neighbour table of each brick begins.
    neighbour_bases: Vec<u32>,
    /// Whether a brick entered or left.
    topology_changed: bool,
    /// Whether there is such an update.
    active: bool,
}

impl ResidentPacker {
    /// What the packer knows of the buffers.
    pub closed spec fn state(&self) -> PackerState {
        PackerState {
            resident: self.resident@,
            metas: self.last_meta@,
            aabbs: self.last_aabb@,
            cells: self.last_voxels@.map_values(|v: Vec<u32>| v@),
        }
    }

    /// The number of slots.
    pub closed spec fn slot_cap(&self) -> int {
        self.slots.cap()
    }

    /// What slots are handed out by.
    pub closed spec fn slot_plan(&self) -> SlotPlan {
        self.slots.plan()
    }

    /// What blocks for index streams are handed out by.
    pub closed spec fn index_plan(&self) -> PoolPlan {
        self.index_pool.plan()
    }

    /// What blocks for palettes are handed out by.
    pub closed spec fn palette_plan(&self) -> PoolPlan {
        self.palette_pool.plan()
    }

    /// Where the resident bricks are, and what slots and blocks are handed out by.
    pub open spec fn places(&self) -> Places {
        Places {
            resident: self.state().resident,
            slots: self.slot_plan(),
            index: self.index_plan(),
            palette: self.palette_plan(),
        }
    }

    /// Words of the index pool and of the palette pool that are in use.
    pub open spec fn index_used(&self) -> int {
        self.index_plan().used
    }

    pub open spec fn palette_used(&self) -> int {
        self.palette_plan().used
    }

    /// The sizes that the index buffer and the palette buffer were last given.
    pub closed spec fn index_cap(&self) -> int {
        self.index_pool.cap()
    }

    pub closed spec fn palette_cap(&self) -> int {
        self.palette_pool.cap()
    }

    /// The capacities reserved for the two pools.
    pub closed spec fn index_floor(&self) -> int {
        self.index_pool.floor()
    }

    pub closed spec fn palette_floor(&self) -> int {
        self.palette_pool.floor()
    }

    /// Whether an allocation went past a buffer since the last snapshot.
    pub closed spec fn grown(&self) -> bool {
        self.index_pool.has_grown() || self.palette_pool.has_grown()
    }

    /// Keys marked as rewritten.
    pub closed spec fn rewrites(&self) -> Seq<Key> {
        self.pending_rewrites@
    }

    /// Whether an update waits for the classification of its bricks.
    pub closed spec fn awaits(&self) -> bool {
        self.pending_classify.active
    }

    /// The bricks that the waiting update is to place.
    pub closed spec fn awaited(&self) -> Seq<Key> {
        self.pending_classify.dirty_keys@
    }

    /// The slots that the waiting update freed.
    pub closed spec fn awaited_freed(&self) -> Seq<u32> {
        self.pending_classify.freed@
    }

    /// Where the neighbour tables of the waiting update's bricks begin.
    pub closed spec fn awaited_bases(&self) -> Seq<u32> {
        self.pending_classify.neighbour_bases@
    }

    /// Whether a brick entered or left in the waiting update.
    pub closed spec fn awaited_topology(&self) -> bool {
        self.pending_classify.topology_changed
    }

    /// Whether two packers wait for the same classifications.
    pub open spec fn same_awaited(a: &ResidentPacker, b: &ResidentPacker) -> bool {
        &&& b.awaits() == a.awaits()
        &&& b.awaited() == a.awaited()
        &&& b.awaited_freed() == a.awaited_freed()
        &&& b.awaited_bases() == a.awaited_bases()
        &&& b.awaited_topology() == a.awaited_topology()
    }

    /// The registry length of the last update.
    pub closed spec fn stride(&self) -> u32 {
        self.palette_stride
    }

    /// Slots and blocks are owned by the bricks that have them, and the shadows speak of slots and
    /// bricks that there are.
    pub closed spec fn wf(&self) -> bool {
        &&& self.slots.wf()
        &&& self.index_pool.wf()
        &&& self.palette_pool.wf()
        &&& self.index_pool.sizes() == index_sizes()
        &&& self.palette_pool.sizes() == palette_sizes()
        &&& self.resident@.dom().finite()
        &&& self.slots.ready() + self.slots.waiting().len() + self.resident@.dom().len()
            == self.slots.cap()
        &&& forall|k: Key| #[trigger] self.resident@.dom().contains(k) ==> self.owns_places(k)
        &&& forall|s: u32|
            self.slots.owners().dom().contains(s) && (#[trigger] self.slots.owners()[s]) is Held
                ==> self.resident@.dom().contains(self.slots.owners()[s]->Held_0)
                && self.resident@[self.slots.owners()[s]->Held_0].slot == s
        &&& forall|s: u32| #[trigger]
            self.last_meta@.dom().contains(s) ==> s < self.slots.cap() && (self.free_slot(s)
                ==> self.last_meta@[s] == zero_meta())
        &&& forall|s: u32| #[trigger]
            self.last_aabb@.dom().contains(s) ==> s < self.slots.cap() && (self.free_slot(s)
                ==> self.last_aabb@[s] == GpuBrickAabb::Degenerate)
        &&& forall|s: u32| #[trigger]
            self.last_voxels@.dom().contains(s) ==> !self.free_slot(s) && self.fits_cells(
                self.resident@[self.slots.owners()[s]->Held_0],
                self.last_voxels@[s]@,
            )
    }

    /// Whether no brick has the slot `s`.
    spec fn free_slot(&self, s: u32) -> bool {
        !(self.slots.owners().dom().contains(s) && self.slots.owners()[s] is Held)
    }

    /// Whether a brick's blocks are those of the given cells.
    spec fn fits_cells(&self, st: SlotState, cells: Seq<u32>) -> bool {
        &&& st.dense is Some
        &&& cells.len() == 1000
        &&& st.dense->0.index_bits == cells_width(cells)
        &&& st.dense->0.palette_k == first_seen(cells).len()
    }

    /// Whether the brick `k` owns its slot and its blocks, and these are of the right size.
    spec fn owns_places(&self, k: Key) -> bool {
        let st = self.resident@[k];
        &&& key_ok(k)
        &&& self.slots.owners().dom().contains(st.slot)
        &&& self.slots.owners()[st.slot] == Owner::Held(k)
        &&& self.owns_blocks(k, st.dense)
    }

    /// Whether the brick `k` owns the blocks of `dense`, and these are of the right size.
    spec fn owns_blocks(&self, k: Key, dense: Option<DenseSlot>) -> bool {
        dense matches Some(d) ==> {
            &&& is_width(d.index_bits as nat)
            &&& d.palette_k <= 1000
            &&& d.index_offset < 0x8000_0000
            &&& self.index_pool.owners().dom().contains(d.index_offset)
            &&& self.index_pool.owners()[d.index_offset] == Owner::Held(k)
            &&& self.index_pool.layout()[d.index_offset] == class_for(
                index_sizes(),
                stream_words(d.index_bits),
            )
            &&& self.palette_pool.owners().dom().contains(d.palette_offset)
            &&& self.palette_pool.owners()[d.palette_offset] == Owner::Held(k)
            &&& self.palette_pool.layout()[d.palette_offset] == class_for(
                palette_sizes(),
                d.palette_k as int,
            )
        }
    }

    /// Resident bricks share neither slots nor words, and without growth their words lie inside the
    /// buffers.
    pub proof fn law_places_are_disjoint(&self, a: Key, b: Key)
        requires
            self.wf(),
            self.state().resident.dom().contains(a),
            self.state().resident.dom().contains(b),
        ensures
            self.state().resident[a].slot < self.slot_cap(),
            a != b ==> disjoint_places(self.state().resident[a], self.state().resident[b]),
            !self.grown() ==> (self.state().resident[a].dense matches Some(d) ==> d.index_offset
                + stream_words(d.index_bits) <= self.index_cap() && d.palette_offset + d.palette_k
                <= self.palette_cap()),
    {
        self.index_pool.lemma_blocks();
        self.palette_pool.lemma_blocks();
        self.slots.lemma_owners();
        assert(self.owns_places(a) && self.owns_places(b));
        let sa = self.resident@[a];
        let sb = self.resident@[b];
        if sa.dense is Some {
            let d = sa.dense->0;
            lemma_index_class(d.index_bits);
            lemma_palette_class(d.palette_k as int);
            assert(self.index_pool.layout().dom().contains(d.index_offset));
            assert(self.palette_pool.layout().dom().contains(d.palette_offset));
            if a != b && sb.dense is Some {
                let e = sb.dense->0;
                lemma_index_class(e.index_bits);
                lemma_palette_class(e.palette_k as int);
                assert(self.index_pool.layout().dom().contains(e.index_offset));
                assert(self.palette_pool.layout().dom().contains(e.palette_offset));
            }
        }
    }
}

/// What decides how a brick is placed: its one block, or the number of distinct blocks in its haloed
/// grid.
#[derive(Clone, Copy, Debug)]
pub enum Classification {
    Uniform(BlockId),
    Dense { palette_k: u32 },
}

/// The classification of a packed brick.
pub open spec fn class_of_voxels(v: VoxelsView) -> Classification {
    match v {
        VoxelsView::Uniform(b) => Classification::Uniform(b),
        VoxelsView::Dense(cells) => Classification::Dense {
            palette_k: first_seen(cells).len() as u32,
        },
    }
}

/// Where a brick was placed and what of its slot changed.
struct Placement {
    slot: u32,
    meta: GpuBrickMeta,
    dense: Option<DenseSlot>,
    meta_changed: bool,
    voxels_changed: bool,
}

/// Whether every block of `a` is there in `b`, with its class.
spec fn extends(a: Map<u32, int>, b: Map<u32, int>) -> bool {
    forall|o: u32| #[trigger] a.dom().contains(o) ==> b.dom().contains(o) && b[o] == a[o]
}

/// Whether what was held or in quarantine in `a` is still held or in quarantine in `b`.
spec fn none_freed(a: Map<u32, Owner>, b: Map<u32, Owner>) -> bool {
    forall|o: u32| #[trigger]
        a.dom().contains(o) && !(a[o] is Free) ==> b.dom().contains(o) && !(b[o] is Free)
}

/// Whether what bricks other than `k` hold in `a` they hold in `b`.
spec fn others_keep(a: Map<u32, Owner>, b: Map<u32, Owner>, k: Key) -> bool {
    forall|o: u32| #[trigger]
        a.dom().contains(o) && a[o] is Held && a[o] != Owner::Held(k) ==> b.dom().contains(o) && b[o]
            == a[o]
}

/// Whether two pools differ in owners at most.
spec fn same_pool(a: BlockPool, b: BlockPool) -> bool {
    &&& b.sizes() == a.sizes()
    &&& b.layout() == a.layout()
    &&& b.used() == a.used()
    &&& b.cap() == a.cap()
    &&& b.floor() == a.floor()
    &&& b.has_grown() == a.has_grown()
}

/// Whether pool `b` comes of pool `a` by giving back blocks and allocating at most `n` new words,
/// without reuse of what was given back.
spec fn pool_step(a: BlockPool, b: BlockPool, n: int) -> bool {
    &&& b.sizes() == a.sizes()
    &&& b.cap() == a.cap()
    &&& b.floor() == a.floor()
    &&& a.used() <= b.used() <= a.used() + n
    &&& b.has_grown() == (a.has_grown() || b.used() > a.cap())
    &&& extends(a.layout(), b.layout())
    &&& none_freed(a.owners(), b.owners())
}

/// Whether the block at `off` is free to take in a pool with these owners.
spec fn is_free(owners: Map<u32, Owner>, off: u32) -> bool {
    owners.dom().contains(off) ==> owners[off] is Free
}

/// Whether the blocks of brick `k` in `b` are those that it had in `a`, where these are of the right
/// size, and else free in `a`.
spec fn kept_or_fresh(a: &ResidentPacker, b: &ResidentPacker, k: Key) -> bool {
    b.resident@[k].dense matches Some(d) ==> {
        &&& match a.resident@[k].dense {
            Some(e) => {
                &&& (if e.index_bits == d.index_bits {
                    d.index_offset == e.index_offset
                } else {
                    is_free(a.index_pool.owners(), d.index_offset)
                })
                &&& (if class_for(palette_sizes(), e.palette_k as int) == class_for(
                    palette_sizes(),
                    d.palette_k as int,
                ) {
                    d.palette_offset == e.palette_offset
                } else {
                    is_free(a.palette_pool.owners(), d.palette_offset)
                })
            },
            None => is_free(a.index_pool.owners(), d.index_offset) && is_free(
                a.palette_pool.owners(),
                d.palette_offset,
            ),
        }
    }
}

/// The meta of a brick of the given class whose blocks are those of `dense`.
pub open spec fn class_meta(k: Key, class: Classification, dense: Option<DenseSlot>) -> GpuBrickMeta {
    match class {
        Classification::Uniform(b) => uniform_meta(origin_of(k), b, coord_of(k), k.3),
        Classification::Dense { .. } => dense_meta(
            origin_of(k),
            dense->0.index_offset,
            coord_of(k),
            k.3,
            dense->0.index_bits,
            dense->0.palette_offset,
        ),
    }
}

/// Whether the placement of a brick has the blocks that its class asks for.
pub open spec fn dense_matches(class: Classification, dense: Option<DenseSlot>) -> bool {
    match class {
        Classification::Uniform(_) => dense is None,
        Classification::Dense { palette_k } => {
            &&& dense is Some
            &&& dense->0.index_bits == width_for(palette_k as nat)
            &&& dense->0.palette_k == palette_k
        },
    }
}

/// Whether `after` is `before` with brick `k` placed as its class asks, its slot kept, and the given
/// cells remembered.
pub open spec fn placed(
    before: PackerState,
    after: PackerState,
    k: Key,
    class: Classification,
    cells: Option<Seq<u32>>,
) -> bool {
    let slot = before.resident[k].slot;
    let p = after.resident[k];
    &&& p.slot == slot
    &&& dense_matches(class, p.dense)
    &&& after.resident == before.resident.insert(k, p)
    &&& after.metas == before.metas.insert(slot, class_meta(k, class, p.dense))
    &&& after.aabbs == before.aabbs.insert(
        slot,
        GpuBrickAabb::Brick { coord: coord_of(k), lod: k.3 },
    )
    &&& after.cells == (match cells {
        Some(c) => before.cells.insert(slot, c),
        None => before.cells.remove(slot),
    })
}

/// Whether the meta or the box at a slot is not the same.
pub open spec fn meta_differs(before: PackerState, after: PackerState, slot: u32) -> bool {
    !(before.metas.dom().contains(slot) && before.aabbs.dom().contains(slot) && before.metas[slot]
        == after.metas[slot] && before.aabbs[slot] == after.aabbs[slot])
}

/// Whether the cells at a slot are not known to be the same.
pub open spec fn cells_differ(before: PackerState, after: PackerState, slot: u32) -> bool {
    !(before.cells.dom().contains(slot) && after.cells.dom().contains(slot) && before.cells[slot]
        == after.cells[slot])
}

spec fn cells_view(cells: Option<&Vec<u32>>) -> Option<Seq<u32>> {
    match cells {
        Some(c) => Some(c@),
        None => None,
    }
}

/// Whether two lists of words are equal.
fn same_words(a: &Vec<u32>, b: &Vec<u32>) -> (r: bool)
    ensures
        r == (a@ == b@),
{
    if a.len() != b.len() {
        return false;
    }
    let mut i: usize = 0;
    while i < a.len()
        invariant
            i <= a@.len(),
            a@.len() == b@.len(),
            forall|j: int| 0 <= j < i ==> a@[j] == b@[j],
        decreases a@.len() - i,
    {
        if a[i] != b[i] {
            return false;
        }
        i = i + 1;
    }
    assert(a@ =~= b@);
    true
}

/// A copy of a list of words.
fn copy_words(a: &Vec<u32>) -> (r: Vec<u32>)
    ensures
        r@ == a@,
{
    let mut r: Vec<u32> = Vec::with_capacity(a.len());
    let mut i: usize = 0;
    while i < a.len()
        invariant
            i <= a@.len(),
            r@ == a@.take(i as int),
        decreases a@.len() - i,
    {
        r.push(a[i]);
        i = i + 1;
    }
    assert(a@.take(i as int) =~= a@);
    r
}

/// Give back the block `had`, if there is one, and allocate one of `words` words.
fn replace_block(pool: &mut BlockPool, had: Option<(u32, u32)>, words: u32, k: Ghost<Key>) -> (off: u32)
    requires
        old(pool).wf(),
        is_class(old(pool).sizes(), words as int, class_for(old(pool).sizes(), words as int)),
        take_block(old(pool).sizes(), old(pool).plan(), words as int).0.used < 0x8000_0000,
        had matches Some(h) ==> {
            &&& old(pool).owners().dom().contains(h.0)
            &&& old(pool).owners()[h.0] is Held
            &&& is_class(old(pool).sizes(), h.1 as int, class_for(old(pool).sizes(), h.1 as int))
            &&& old(pool).layout()[h.0] == class_for(old(pool).sizes(), h.1 as int)
        },
    ensures
        final(pool).wf(),
        final(pool).sizes() == old(pool).sizes(),
        final(pool).cap() == old(pool).cap(),
        final(pool).floor() == old(pool).floor(),
        old(pool).used() <= final(pool).used() <= old(pool).used() + old(pool).sizes()[class_for(
            old(pool).sizes(),
            words as int,
        )],
        final(pool).has_grown() == (old(pool).has_grown() || final(pool).used() > old(pool).cap()),
        old(pool).owners().dom().contains(off) ==> old(pool).owners()[off] is Free,
        final(pool).owners() == (match had {
            Some(h) => old(pool).owners().insert(h.0, Owner::Quarantined),
            None => old(pool).owners(),
        }).insert(off, Owner::Held(k@)),
        extends(old(pool).layout(), final(pool).layout()),
        final(pool).layout().dom().contains(off),
        final(pool).layout()[off] == class_for(old(pool).sizes(), words as int),
        off < 0x8000_0000,
        (final(pool).plan(), off) == take_block(
            old(pool).sizes(),
            match had {
                Some(h) => give_block(old(pool).plan(), h.0, h.1),
                None => old(pool).plan(),
            },
            words as int,
        ),
{
    if let Some(h) = had {
        pool.retire(h.0, h.1);
    }
    pool.take(words, k)
}

impl ResidentPacker {
    /// Give back the blocks of a brick that had any.
    fn retire_blocks(&mut self, key: Ghost<Key>, dense: Option<DenseSlot>)
        requires
            old(self).index_pool.wf(),
            old(self).palette_pool.wf(),
            old(self).index_pool.sizes() == index_sizes(),
            old(self).palette_pool.sizes() == palette_sizes(),
            old(self).owns_blocks(key@, dense),
        ensures
            final(self).index_pool.wf(),
            final(self).palette_pool.wf(),
            same_pool(old(self).index_pool, final(self).index_pool),
            same_pool(old(self).palette_pool, final(self).palette_pool),
            final(self).index_pool.owners() == (match dense {
                Some(d) => old(self).index_pool.owners().insert(d.index_offset, Owner::Quarantined),
                None => old(self).index_pool.owners(),
            }),
            final(self).palette_pool.owners() == (match dense {
                Some(d) => old(self).palette_pool.owners().insert(
                    d.palette_offset,
                    Owner::Quarantined,
                ),
                None => old(self).palette_pool.owners(),
            }),
            final(self).places() == retired(old(self).places(), dense),
            final(self).slots == old(self).slots,
            final(self).resident == old(self).resident,
            final(self).palette_stride == old(self).palette_stride,
            final(self).last_meta == old(self).last_meta,
            final(self).last_aabb == old(self).last_aabb,
            final(self).last_voxels == old(self).last_voxels,
            final(self).pending_rewrites == old(self).pending_rewrites,
            final(self).pending_classify == old(self).pending_classify,
    {
        if let Some(d) = dense {
            proof {
                lemma_index_class(d.index_bits);
                lemma_palette_class(d.palette_k as int);
            }
            let words: u32 = index_class_words(d.index_bits) as u32;
            self.index_pool.retire(d.index_offset, words);
            self.palette_pool.retire(d.palette_offset, d.palette_k);
        }
    }

    /// Blocks for a dense brick with `palette_k` distinct blocks: those that it had, where they are of
    /// the right size, and else new ones.
    fn dense_blocks(&mut self, key: Key, had: Option<DenseSlot>, palette_k: u32) -> (d: DenseSlot)
        requires
            old(self).index_pool.wf(),
            old(self).palette_pool.wf(),
            old(self).index_pool.sizes() == index_sizes(),
            old(self).palette_pool.sizes() == palette_sizes(),
            old(self).owns_blocks(key, had),
            palette_k <= 1000,
            index_for(old(self).index_plan(), had, width_for(palette_k as nat) as u8).0.used < 0x8000_0000,
            palette_for(old(self).palette_plan(), had, palette_k).0.used < 0x8000_0000,
        ensures
            final(self).index_pool.wf(),
            final(self).palette_pool.wf(),
            pool_step(old(self).index_pool, final(self).index_pool, 500),
            pool_step(old(self).palette_pool, final(self).palette_pool, 1024),
            others_keep(old(self).index_pool.owners(), final(self).index_pool.owners(), key),
            others_keep(old(self).palette_pool.owners(), final(self).palette_pool.owners(), key),
            final(self).owns_blocks(key, Some(d)),
            d == dense_for(old(self).places(), had, palette_k),
            final(self).index_plan() == index_for(
                old(self).index_plan(),
                had,
                width_for(palette_k as nat) as u8,
            ).0,
            final(self).palette_plan() == palette_for(old(self).palette_plan(), had, palette_k).0,
            had matches Some(e) ==> (if e.index_bits == d.index_bits {
                d.index_offset == e.index_offset
            } else {
                is_free(old(self).index_pool.owners(), d.index_offset)
            }) && (if class_for(palette_sizes(), e.palette_k as int) == class_for(
                palette_sizes(),
                palette_k as int,
            ) {
                d.palette_offset == e.palette_offset
            } else {
                is_free(old(self).palette_pool.owners(), d.palette_offset)
            }),
            had is None ==> is_free(old(self).index_pool.owners(), d.index_offset) && is_free(
                old(self).palette_pool.owners(),
                d.palette_offset,
            ),
            final(self).slots == old(self).slots,
            final(self).resident == old(self).resident,
            final(self).palette_stride == old(self).palette_stride,
            final(self).last_meta == old(self).last_meta,
            final(self).last_aabb == old(self).last_aabb,
            final(self).last_voxels == old(self).last_voxels,
            final(self).pending_rewrites == old(self).pending_rewrites,
            final(self).pending_classify == old(self).pending_classify,
    {
        let index_bits: u8 = pow2_index_bits(palette_k as usize);
        let words: u32 = index_class_words(index_bits) as u32;
        proof {
            self.index_pool.lemma_blocks();
            self.palette_pool.lemma_blocks();
            lemma_index_class(index_bits);
            lemma_palette_class(palette_k as int);
            if let Some(e) = had {
                lemma_index_class(e.index_bits);
                lemma_palette_class(e.palette_k as int);
            }
        }
        let index_offset: u32 = match had {
            Some(e) => {
                if e.index_bits == index_bits {
                    e.index_offset
                } else {
                    let old_words: u32 = index_class_words(e.index_bits) as u32;
                    replace_block(
                        &mut self.index_pool,
                        Some((e.index_offset, old_words)),
                        words,
                        Ghost(key),
                    )
                }
            },
            None => replace_block(&mut self.index_pool, None, words, Ghost(key)),
        };
        let palette_offset: u32 = match had {
            Some(e) => {
                if self.palette_pool.class_of(e.palette_k) == self.palette_pool.class_of(palette_k) {
                    e.palette_offset
                } else {
                    replace_block(
                        &mut self.palette_pool,
                        Some((e.palette_offset, e.palette_k)),
                        palette_k,
                        Ghost(key),
                    )
                }
            },
            None => replace_block(&mut self.palette_pool, None, palette_k, Ghost(key)),
        };
        DenseSlot { index_offset, index_bits, palette_offset, palette_k }
    }

    /// Place the brick `key`: keep, replace or give back its blocks as its classification asks, and
    /// record what its slot now shows. `cells` is the haloed grid of a dense brick, where it is known.
    fn place(&mut self, key: Key, class: Classification, cells: Option<&Vec<u32>>) -> (p: Placement)
        requires
            old(self).wf(),
            old(self).resident@.dom().contains(key),
            fits(settled(old(self).places(), key, class)),
            class matches Classification::Dense { palette_k } ==> palette_k <= 1000,
            cells matches Some(c) ==> c@.len() == 1000 && class == class_of_voxels(
                VoxelsView::Dense(c@),
            ),
        ensures
            final(self).wf(),
            placed(old(self).state(), final(self).state(), key, class, cells_view(cells)),
            final(self).slots == old(self).slots,
            final(self).palette_stride == old(self).palette_stride,
            final(self).pending_rewrites == old(self).pending_rewrites,
            final(self).pending_classify == old(self).pending_classify,
            pool_step(old(self).index_pool, final(self).index_pool, 500),
            pool_step(old(self).palette_pool, final(self).palette_pool, 1024),
            kept_or_fresh(old(self), final(self), key),
            final(self).places() == settled(old(self).places(), key, class),
            p.slot == old(self).state().resident[key].slot,
            p.meta == final(self).state().metas[p.slot],
            p.dense == final(self).state().resident[key].dense,
            p.meta_changed == meta_differs(old(self).state(), final(self).state(), p.slot),
            p.voxels_changed == (class is Dense && cells_differ(
                old(self).state(),
                final(self).state(),
                p.slot,
            )),
    {
        let st: SlotState = *fx_get(&self.resident, key).unwrap();
        proof {
            assert(self.owns_places(key));
            self.index_pool.lemma_blocks();
            self.palette_pool.lemma_blocks();
            self.slots.lemma_owners();
        }
        let slot: u32 = st.slot;
        let origin: IVec3 = IVec3 { x: key.0 * 8, y: key.1 * 8, z: key.2 * 8 };
        let corner: IVec3 = IVec3 { x: key.0, y: key.1, z: key.2 };
        let aabb: GpuBrickAabb = GpuBrickAabb::Brick { coord: corner, lod: key.3 };
        let meta: GpuBrickMeta;
        let dense: Option<DenseSlot>;
        match class {
            Classification::Uniform(block) => {
                self.retire_blocks(Ghost(key), st.dense);
                meta = GpuBrickMeta::uniform(origin, block, corner, key.3);
                dense = None;
            },
            Classification::Dense { palette_k } => {
                let d: DenseSlot = self.dense_blocks(key, st.dense, palette_k);
                meta =
                GpuBrickMeta::dense(
                    origin,
                    d.index_offset,
                    corner,
                    key.3,
                    d.index_bits,
                    d.palette_offset,
                );
                dense = Some(d);
            },
        }
        fx_insert(&mut self.resident, key, SlotState { slot, dense });
        let meta_changed: bool = match (fx_get(&self.last_meta, slot), fx_get(&self.last_aabb, slot)) {
            (Some(m), Some(b)) => *m != meta || *b != aabb,
            _ => true,
        };
        let voxels_changed: bool = match class {
            Classification::Uniform(_) => false,
            Classification::Dense { .. } => match (cells, fx_get(&self.last_voxels, slot)) {
                (Some(c), Some(l)) => !same_words(c, l),
                _ => true,
            },
        };
        fx_insert(&mut self.last_meta, slot, meta);
        fx_insert(&mut self.last_aabb, slot, aabb);
        match cells {
            Some(c) => {
                if voxels_changed {
                    fx_insert(&mut self.last_voxels, slot, copy_words(c));
                }
            },
            None => {
                let _dropped = fx_remove(&mut self.last_voxels, slot);
            },
        }
        proof {
            let o = *old(self);
            let before = o.state();
            let after = self.state();
            assert(others_keep(o.index_pool.owners(), self.index_pool.owners(), key));
            assert(others_keep(o.palette_pool.owners(), self.palette_pool.owners(), key));
            assert(self.owns_blocks(key, dense));
            assert forall|j: Key| #[trigger] self.resident@.dom().contains(j) implies self.owns_places(
                j,
            ) by {
                if j != key {
                    assert(o.owns_places(j));
                }
            }
            assert forall|s: u32|
                self.slots.owners().dom().contains(s) && (#[trigger] self.slots.owners()[s]) is Held implies self.resident@.dom().contains(
            self.slots.owners()[s]->Held_0) && self.resident@[self.slots.owners()[s]->Held_0].slot == s by {}
            assert(!self.free_slot(slot));
            assert forall|s: u32| #[trigger] self.last_voxels@.dom().contains(s) implies !self.free_slot(
                s,
            ) && self.fits_cells(
                self.resident@[self.slots.owners()[s]->Held_0],
                self.last_voxels@[s]@,
            ) by {
                if s != slot {
                    assert(o.last_voxels@.dom().contains(s));
                    let j = self.slots.owners()[s]->Held_0;
                    assert(j != key);
                } else {
                    lemma_first_seen(self.last_voxels@[s]@);
                }
            }
            assert(self.resident@.dom() =~= o.resident@.dom());
            assert(after.resident =~= before.resident.insert(key, after.resident[key]));
            assert(after.cells =~= (match cells_view(cells) {
                Some(c) => before.cells.insert(slot, c),
                None => before.cells.remove(slot),
            }));
        }
        Placement { slot, meta, dense, meta_changed, voxels_changed }
    }
}

/// The new bytes of one slot: its meta, its box and, where the cells of a dense brick changed, its index
/// stream and its palette.
#[derive(Clone, Debug)]
pub struct ChangedSlot {
    pub slot: u32,
    /// The slot's meta; all zero for a freed slot.
    pub meta: GpuBrickMeta,
    /// The slot's box; degenerate for a freed slot.
    pub aabb: GpuBrickAabb,
    /// The index stream to write at `index_word_offset`.
    pub index: Option<Vec<u32>>,
    pub index_word_offset: u32,
    /// The palette to write at `palette_word_offset`, one block id per word.
    pub palette: Option<Vec<u32>>,
    pub palette_word_offset: u32,
}

/// The new bytes of one slot.
pub struct ChangeView {
    pub slot: u32,
    pub meta: GpuBrickMeta,
    pub aabb: GpuBrickAabb,
    pub index: Option<Seq<u32>>,
    pub index_word_offset: u32,
    pub palette: Option<Seq<u32>>,
    pub palette_word_offset: u32,
}

impl View for ChangedSlot {
    type V = ChangeView;

    open spec fn view(&self) -> ChangeView {
        ChangeView {
            slot: self.slot,
            meta: self.meta,
            aabb: self.aabb,
            index: match self.index {
                Some(w) => Some(w@),
                None => None,
            },
            index_word_offset: self.index_word_offset,
            palette: match self.palette {
                Some(w) => Some(w@),
                None => None,
            },
            palette_word_offset: self.palette_word_offset,
        }
    }
}

/// The slots that an update changed.
#[derive(Clone, Debug, Default)]
pub struct RepackDelta {
    /// The slots with new bytes.
    pub changed: Vec<ChangedSlot>,
    /// The slots that became unused; they are among `changed` too.
    pub freed: Vec<u32>,
    /// Whether a brick entered or left.
    pub topology_changed: bool,
}

impl RepackDelta {
    /// True iff no slot changed.
    pub fn is_empty(&self) -> (b: bool)
        ensures
            b == (self.changed@.len() == 0),
    {
        self.changed.len() == 0
    }

    /// The new bytes, slot by slot.
    pub open spec fn changes(&self) -> Seq<ChangeView> {
        self.changed@.map_values(|c: ChangedSlot| c@)
    }
}

/// What is uploaded of brick `k`: nothing where its slot shows the same as before, else its meta and
/// box and, where its cells changed, its index stream and palette.
pub open spec fn slot_change(before: PackerState, after: PackerState, k: Key) -> Seq<ChangeView> {
    let p = after.resident[k];
    let voxels = p.dense is Some && cells_differ(before, after, p.slot);
    if meta_differs(before, after, p.slot) || voxels {
        seq![
            ChangeView {
                slot: p.slot,
                meta: after.metas[p.slot],
                aabb: after.aabbs[p.slot],
                index: if voxels {
                    Some(index_stream(after.cells[p.slot]))
                } else {
                    None
                },
                index_word_offset: if p.dense is Some {
                    p.dense->0.index_offset
                } else {
                    0
                },
                palette: if voxels {
                    Some(palette_words(after.cells[p.slot]))
                } else {
                    None
                },
                palette_word_offset: if p.dense is Some {
                    p.dense->0.palette_offset
                } else {
                    0
                },
            },
        ]
    } else {
        Seq::empty()
    }
}

/// What is uploaded of the bricks `ks`, one after the other.
pub open spec fn slot_changes(before: PackerState, after: PackerState, ks: Seq<Key>) -> Seq<ChangeView>
    decreases ks.len(),
{
    if ks.len() == 0 {
        Seq::empty()
    } else {
        slot_changes(before, after, ks.drop_last()) + slot_change(before, after, ks.last())
    }
}

/// The cells of a dense brick's content.
pub open spec fn cells_of(v: VoxelsView) -> Option<Seq<u32>> {
    match v {
        VoxelsView::Uniform(_) => None,
        VoxelsView::Dense(cells) => Some(cells),
    }
}

/// What a step of placing one brick leaves as it was.
spec fn same_frame(a: &ResidentPacker, b: &ResidentPacker, k: Key, class: Classification) -> bool {
    &&& b.places() == settled(a.places(), k, class)
    &&& b.slots == a.slots
    &&& b.palette_stride == a.palette_stride
    &&& b.pending_rewrites == a.pending_rewrites
    &&& b.pending_classify == a.pending_classify
    &&& pool_step(a.index_pool, b.index_pool, 500)
    &&& pool_step(a.palette_pool, b.palette_pool, 1024)
    &&& kept_or_fresh(a, b, k)
}

impl ResidentPacker {
    /// Place a packed brick and, where its slot shows something new, add that to `delta`. `enc` is the
    /// encoding of a dense brick's cells.
    fn emit_changed_slot(
        &mut self,
        key: Key,
        pb: &PackedBrick,
        enc: Option<&PalettedBrick>,
        delta: &mut RepackDelta,
    )
        requires
            old(self).wf(),
            old(self).resident@.dom().contains(key),
            fits(settled(old(self).places(), key, class_of_voxels(pb.voxels@))),
            pb.is_at(key),
            pb.voxels@ matches VoxelsView::Dense(cells) ==> {
                &&& cells.len() == 1000
                &&& enc is Some
                &&& enc->0.palette@ == first_seen(cells)
                &&& enc->0.indices@ == index_stream(cells)
            },
        ensures
            final(self).wf(),
            placed(
                old(self).state(),
                final(self).state(),
                key,
                class_of_voxels(pb.voxels@),
                cells_of(pb.voxels@),
            ),
            same_frame(old(self), final(self), key, class_of_voxels(pb.voxels@)),
            final(delta).changes() == old(delta).changes() + slot_change(
                old(self).state(),
                final(self).state(),
                key,
            ),
            final(delta).freed == old(delta).freed,
            final(delta).topology_changed == old(delta).topology_changed,
    {
        let ghost before = self.state();
        match &pb.voxels {
            BrickVoxels::Uniform(block) => {
                let p: Placement = self.place(key, Classification::Uniform(*block), None);
                if p.meta_changed {
                    delta.changed.push(
                        ChangedSlot {
                            slot: p.slot,
                            meta: p.meta,
                            aabb: pb.aabb,
                            index: None,
                            index_word_offset: 0,
                            palette: None,
                            palette_word_offset: 0,
                        },
                    );
                }
            },
            BrickVoxels::Dense(cells) => {
                let enc: &PalettedBrick = enc.unwrap();
                proof {
                    lemma_first_seen(cells@);
                }
                let palette_k: u32 = enc.palette.len() as u32;
                let p: Placement = self.place(key, Classification::Dense { palette_k }, Some(cells));
                let d: DenseSlot = p.dense.unwrap();
                if p.meta_changed || p.voxels_changed {
                    let mut index: Option<Vec<u32>> = None;
                    let mut palette: Option<Vec<u32>> = None;
                    if p.voxels_changed {
                        index = Some(copy_words(&enc.indices));
                        palette = Some(widen_palette(&enc.palette));
                    }
                    delta.changed.push(
                        ChangedSlot {
                            slot: p.slot,
                            meta: p.meta,
                            aabb: pb.aabb,
                            index,
                            index_word_offset: d.index_offset,
                            palette,
                            palette_word_offset: d.palette_offset,
                        },
                    );
                }
            },
        }
        proof {
            let c = slot_change(before, self.state(), key);
            assert(delta.changes() =~= old(delta).changes() + c);
        }
    }
}

/// Whether two bricks border on each other, or are the same: they are on one level and at most one brick
/// apart on every axis.
pub open spec fn near(a: Key, b: Key) -> bool {
    &&& a.3 == b.3
    &&& -1 <= a.0 - b.0 <= 1
    &&& -1 <= a.1 - b.1 <= 1
    &&& -1 <= a.2 - b.2 <= 1
}

/// The bricks of `entries` that enter: those that are not resident, in their order, as many as there is
/// room for.
pub open spec fn entering(resident: Set<Key>, room: int, entries: Seq<ResidentBrick>) -> Seq<Key>
    decreases entries.len(),
{
    if entries.len() == 0 {
        Seq::empty()
    } else {
        let before = entering(resident, room, entries.drop_last());
        let k = entries.last().key_spec();
        if resident.contains(k) || before.contains(k) || before.len() >= room {
            before
        } else {
            before.push(k)
        }
    }
}

/// Whether brick `d` leaves: it is resident and not in the new set.
pub open spec fn leaves(resident: Set<Key>, m: Set<Key>, d: Key) -> bool {
    resident.contains(d) && !m.contains(d)
}

/// Whether brick `k` of the new set `m` has a reason of its own to be packed anew: it enters, it was
/// rewritten, or it borders on a brick that leaves.
pub open spec fn is_seed(
    resident: Set<Key>,
    m: Set<Key>,
    enter: Seq<Key>,
    rewritten: Seq<Key>,
    k: Key,
) -> bool {
    ||| enter.contains(k)
    ||| m.contains(k) && rewritten.contains(k)
    ||| m.contains(k) && exists|d: Key| #[trigger] leaves(resident, m, d) && near(d, k)
}

/// Whether brick `k` is packed anew: it is in the new set and has, or borders on a brick that has, a
/// reason.
pub open spec fn is_dirty(
    resident: Set<Key>,
    m: Set<Key>,
    enter: Seq<Key>,
    rewritten: Seq<Key>,
    k: Key,
) -> bool {
    m.contains(k) && exists|s: Key|
        #[trigger] is_seed(resident, m, enter, rewritten, s) && near(s, k)
}

/// Whether `slot` is that of a brick that leaves.
pub open spec fn is_freed(a: PackerState, m: Set<Key>, slot: u32) -> bool {
    exists|d: Key| #[trigger] leaves(a.resident.dom(), m, d) && a.resident[d].slot == slot
}

/// Whether two states show the same at a slot.
pub open spec fn same_slot(a: PackerState, b: PackerState, slot: u32) -> bool {
    &&& a.metas.dom().contains(slot) == b.metas.dom().contains(slot)
    &&& (a.metas.dom().contains(slot) ==> a.metas[slot] == b.metas[slot])
    &&& a.aabbs.dom().contains(slot) == b.aabbs.dom().contains(slot)
    &&& (a.aabbs.dom().contains(slot) ==> a.aabbs[slot] == b.aabbs[slot])
    &&& a.cells.dom().contains(slot) == b.cells.dom().contains(slot)
    &&& (a.cells.dom().contains(slot) ==> a.cells[slot] == b.cells[slot])
}

/// Whether a slot shows that it is unused.
pub open spec fn unused(st: PackerState, slot: u32) -> bool {
    &&& st.metas.dom().contains(slot)
    &&& st.metas[slot] == zero_meta()
    &&& st.aabbs.dom().contains(slot)
    &&& st.aabbs[slot] == GpuBrickAabb::Degenerate
    &&& !st.cells.dom().contains(slot)
}

/// The bordering bricks of a brick, 26 of them.
pub fn neighbourhood_26(key: Key) -> (r: Vec<Key>)
    requires
        key_ok(key),
    ensures
        r@.len() == 26,
        forall|n: Key| #[trigger] r@.contains(n) <==> near(key, n) && n != key,
{
    let mut r: Vec<Key> = Vec::new();
    let mut i: i32 = 0;
    while i < 27
        invariant
            0 <= i <= 27,
            key_ok(key),
            r@.len() == (if i <= 13 { i as int } else { i - 1 }),
            forall|j: int| 0 <= j < r@.len() ==> #[trigger] near(key, r@[j]) && r@[j] != key,
            forall|j: int|
                0 <= j < i && j != 13 ==> r@.contains(
                    #[trigger] shifted(key, j % 3 - 1, (j / 3) % 3 - 1, j / 9 - 1),
                ),
        decreases 27 - i,
    {
        if i != 13 {
            let ghost before = r@;
            let n: Key = (key.0 + (i % 3 - 1), key.1 + ((i / 3) % 3 - 1), key.2 + (i / 9 - 1), key.3);
            r.push(n);
            proof {
                assert(n == shifted(key, i % 3 - 1, (i / 3) % 3 - 1, i / 9 - 1));
                assert(r@[r@.len() - 1] == n);
                assert forall|j: int| 0 <= j < r@.len() implies #[trigger] near(key, r@[j]) && r@[j]
                    != key by {
                    if j < before.len() {
                        assert(r@[j] == before[j]);
                        assert(near(key, before[j]));
                    }
                }
                assert forall|j: int| 0 <= j < i + 1 && j != 13 implies r@.contains(
                    #[trigger] shifted(key, j % 3 - 1, (j / 3) % 3 - 1, j / 9 - 1),
                ) by {
                    let t = shifted(key, j % 3 - 1, (j / 3) % 3 - 1, j / 9 - 1);
                    if j < i {
                        assert(before.contains(t));
                        let w = choose|w: int| 0 <= w < before.len() && before[w] == t;
                        assert(r@[w] == t);
                    }
                }
            }
        }
        i = i + 1;
    }
    proof {
        assert forall|n: Key| near(key, n) && n != key implies #[trigger] r@.contains(n) by {
            let j = (n.2 - key.2 + 1) * 9 + (n.1 - key.1 + 1) * 3 + (n.0 - key.0 + 1);
            assert(0 <= j < 27 && j != 13);
            assert(shifted(key, j % 3 - 1, (j / 3) % 3 - 1, j / 9 - 1) == n);
        }
        assert forall|n: Key| #[trigger] r@.contains(n) implies near(key, n) && n != key by {
            let w = choose|w: int| 0 <= w < r@.len() && r@[w] == n;
            assert(near(key, r@[w]));
        }
    }
    r
}

/// Add the bordering bricks of `key` that are in the new set.
fn add_neighbours(dirty: &mut FxHashMap<Key, ()>, by_key: &FxHashMap<Key, &Brick>, key: Key)
    requires
        key_ok(key),
    ensures
        forall|k: Key| #[trigger]
            final(dirty)@.dom().contains(k) <==> old(dirty)@.dom().contains(k) || by_key@.dom().contains(
                k,
            ) && near(key, k) && k != key,
        old(dirty)@.dom().finite() ==> final(dirty)@.dom().finite(),
{
    let around: Vec<Key> = neighbourhood_26(key);
    let mut i: usize = 0;
    while i < around.len()
        invariant
            i <= around@.len(),
            forall|k: Key| #[trigger]
                dirty@.dom().contains(k) <==> old(dirty)@.dom().contains(k) || by_key@.dom().contains(k)
                    && around@.take(i as int).contains(k),
            old(dirty)@.dom().finite() ==> dirty@.dom().finite(),
        decreases around@.len() - i,
    {
        let n: Key = around[i];
        let ghost before = dirty@;
        if fx_contains(by_key, n) {
            fx_insert(dirty, n, ());
        }
        proof {
            let t = around@.take(i as int);
            let u = around@.take(i + 1);
            assert(u =~= t.push(n));
            assert forall|k: Key| #[trigger] dirty@.dom().contains(k) <==> old(dirty)@.dom().contains(k)
                || by_key@.dom().contains(k) && u.contains(k) by {
                if t.contains(k) {
                    let w = choose|w: int| 0 <= w < t.len() && t[w] == k;
                    assert(u[w] == k);
                }
                if k == n {
                    assert(u[i as int] == n);
                }
                if u.contains(k) && k != n {
                    let w = choose|w: int| 0 <= w < u.len() && u[w] == k;
                    assert(t[w] == k);
                }
                assert(before.dom().contains(k) <==> old(dirty)@.dom().contains(k)
                    || by_key@.dom().contains(k) && t.contains(k));
            }
        }
        i = i + 1;
    }
    assert(around@.take(i as int) =~= around@);
}

/// Add to `dirty` every brick of the new set that borders on one of it.
fn expand(dirty: &mut FxHashMap<Key, ()>, by_key: &FxHashMap<Key, &Brick>)
    requires
        forall|k: Key| #[trigger] old(dirty)@.dom().contains(k) ==> key_ok(k),
    ensures
        forall|k: Key| #[trigger]
            final(dirty)@.dom().contains(k) <==> old(dirty)@.dom().contains(k) || by_key@.dom().contains(
                k,
            ) && exists|s: Key| #[trigger] old(dirty)@.dom().contains(s) && near(s, k),
        old(dirty)@.dom().finite() ==> final(dirty)@.dom().finite(),
{
    let seeds: Vec<Key> = fx_keys(dirty);
    let mut i: usize = 0;
    while i < seeds.len()
        invariant
            i <= seeds@.len(),
            forall|k: Key| #[trigger] old(dirty)@.dom().contains(k) <==> seeds@.contains(k),
            forall|k: Key| #[trigger] old(dirty)@.dom().contains(k) ==> key_ok(k),
            forall|k: Key| #[trigger]
                dirty@.dom().contains(k) <==> old(dirty)@.dom().contains(k) || by_key@.dom().contains(k)
                    && exists|j: int| 0 <= j < i && near(#[trigger] seeds@[j], k),
            old(dirty)@.dom().finite() ==> dirty@.dom().finite(),
        decreases seeds@.len() - i,
    {
        let ghost before = dirty@;
        assert(seeds@.contains(seeds@[i as int]));
        assert(old(dirty)@.dom().contains(seeds@[i as int]));
        add_neighbours(dirty, by_key, seeds[i]);
        proof {
            let s = seeds@[i as int];
            assert forall|k: Key| #[trigger] dirty@.dom().contains(k) <==> old(dirty)@.dom().contains(k)
                || by_key@.dom().contains(k) && exists|j: int|
                0 <= j < i + 1 && near(#[trigger] seeds@[j], k) by {
                assert(before.dom().contains(k) <==> old(dirty)@.dom().contains(k)
                    || by_key@.dom().contains(k) && exists|j: int|
                    0 <= j < i && near(#[trigger] seeds@[j], k));
            }
        }
        i = i + 1;
    }
    proof {
        assert forall|k: Key| #[trigger] dirty@.dom().contains(k) <==> old(dirty)@.dom().contains(k)
            || by_key@.dom().contains(k) && exists|s: Key| #[trigger]
            old(dirty)@.dom().contains(s) && near(s, k) by {
            if exists|s: Key| #[trigger] old(dirty)@.dom().contains(s) && near(s, k) {
                let s = choose|s: Key| #[trigger] old(dirty)@.dom().contains(s) && near(s, k);
                assert(seeds@.contains(s));
                let j = choose|j: int| 0 <= j < seeds@.len() && seeds@[j] == s;
                assert(near(seeds@[j], k));
            }
            if exists|j: int| 0 <= j < i && near(#[trigger] seeds@[j], k) {
                let j = choose|j: int| 0 <= j < i && near(#[trigger] seeds@[j], k);
                assert(seeds@.contains(seeds@[j]));
                assert(old(dirty)@.dom().contains(seeds@[j]));
            }
        }
    }
}

/// Well-formedness does not depend on the registry length nor on the marks.
proof fn lemma_wf_frame(a: &ResidentPacker, b: &ResidentPacker)
    requires
        a.wf(),
        b.slots == a.slots,
        b.index_pool == a.index_pool,
        b.palette_pool == a.palette_pool,
        b.resident == a.resident,
        b.last_meta == a.last_meta,
        b.last_aabb == a.last_aabb,
        b.last_voxels == a.last_voxels,
    ensures
        b.wf(),
{
    b.lemma_committed(a);
}

/// What the first phase of an update did: the slots that it freed, the bricks to pack anew in ascending
/// order, and whether a brick entered or left.
struct Begun {
    freed: Vec<u32>,
    dirty: Vec<Key>,
    topology_changed: bool,
}

/// Whether what was held in `a` is held by the same brick in `b`.
spec fn held_same(a: Map<u32, Owner>, b: Map<u32, Owner>) -> bool {
    forall|o: u32| #[trigger]
        a.dom().contains(o) && a[o] is Held ==> b.dom().contains(o) && b[o] == a[o]
}

/// Whether what was held in `a` is not free in `b`.
spec fn held_stays(a: Map<u32, Owner>, b: Map<u32, Owner>) -> bool {
    forall|o: u32| #[trigger]
        a.dom().contains(o) && a[o] is Held ==> b.dom().contains(o) && !(b[o] is Free)
}

impl ResidentPacker {
    /// Make the slots and blocks in quarantine free.
    fn release_quarantine(&mut self)
        requires
            old(self).wf(),
        ensures
            final(self).wf(),
            final(self).state() == old(self).state(),
            final(self).places() == released(old(self).places()),
            final(self).resident == old(self).resident,
            final(self).slots.cap() == old(self).slots.cap(),
            final(self).slots.waiting().len() == 0,
            held_same(old(self).slots.owners(), final(self).slots.owners()),
            same_pool(old(self).index_pool, final(self).index_pool),
            same_pool(old(self).palette_pool, final(self).palette_pool),
            held_same(old(self).index_pool.owners(), final(self).index_pool.owners()),
            held_same(old(self).palette_pool.owners(), final(self).palette_pool.owners()),
            final(self).palette_stride == old(self).palette_stride,
            final(self).pending_rewrites == old(self).pending_rewrites,
            final(self).pending_classify == old(self).pending_classify,
    {
        self.slots.release();
        self.index_pool.release();
        self.palette_pool.release();
        proof {
            let o = *old(self);
            assert forall|k: Key| #[trigger] self.resident@.dom().contains(k) implies self.owns_places(
                k,
            ) by {
                assert(o.owns_places(k));
            }
            assert forall|s: u32|
                self.slots.owners().dom().contains(s) && (#[trigger] self.slots.owners()[s]) is Held implies self.resident@.dom().contains(
            self.slots.owners()[s]->Held_0) && self.resident@[self.slots.owners()[s]->Held_0].slot == s by {
                assert(o.slots.owners().dom().contains(s));
            }
            assert forall|s: u32| #[trigger] self.last_meta@.dom().contains(s) implies s
                < self.slots.cap() && (self.free_slot(s) ==> self.last_meta@[s] == zero_meta()) by {
                assert(o.last_meta@.dom().contains(s));
                if o.slots.owners().dom().contains(s) {
                }
            }
            assert forall|s: u32| #[trigger] self.last_aabb@.dom().contains(s) implies s
                < self.slots.cap() && (self.free_slot(s) ==> self.last_aabb@[s]
                == GpuBrickAabb::Degenerate) by {
                assert(o.last_aabb@.dom().contains(s));
                if o.slots.owners().dom().contains(s) {
                }
            }
            assert forall|s: u32| #[trigger] self.last_voxels@.dom().contains(s) implies !self.free_slot(
                s,
            ) && self.fits_cells(
                self.resident@[self.slots.owners()[s]->Held_0],
                self.last_voxels@[s]@,
            ) by {
                assert(!o.free_slot(s));
                assert(o.slots.owners().dom().contains(s));
            }
        }
    }

    /// Take brick `key` out: its slot is marked unused, and slot and blocks go to quarantine.
    fn drop_brick(&mut self, key: Key) -> (slot: u32)
        requires
            old(self).wf(),
            old(self).resident@.dom().contains(key),
        ensures
            final(self).wf(),
            slot == old(self).resident@[key].slot,
            final(self).places() == left(old(self).places(), key),
            final(self).resident@ == old(self).resident@.remove(key),
            unused(final(self).state(), slot),
            forall|s: u32|
                s != slot ==> #[trigger] same_slot(old(self).state(), final(self).state(), s),
            final(self).slots.cap() == old(self).slots.cap(),
            final(self).slots.ready() == old(self).slots.ready(),
            none_freed(old(self).slots.owners(), final(self).slots.owners()),
            same_pool(old(self).index_pool, final(self).index_pool),
            same_pool(old(self).palette_pool, final(self).palette_pool),
            none_freed(old(self).index_pool.owners(), final(self).index_pool.owners()),
            none_freed(old(self).palette_pool.owners(), final(self).palette_pool.owners()),
            final(self).palette_stride == old(self).palette_stride,
            final(self).pending_rewrites == old(self).pending_rewrites,
            final(self).pending_classify == old(self).pending_classify,
    {
        let st: SlotState = fx_remove(&mut self.resident, key).unwrap();
        proof {
            assert(old(self).owns_places(key));
            self.slots.lemma_owners();
        }
        self.slots.retire(st.slot);
        fx_insert(&mut self.last_meta, st.slot, GpuBrickMeta::zeroed());
        fx_insert(&mut self.last_aabb, st.slot, degenerate_aabb());
        let _dropped = fx_remove(&mut self.last_voxels, st.slot);
        self.retire_blocks(Ghost(key), st.dense);
        proof {
            let o = *old(self);
            assert forall|j: Key| #[trigger] self.resident@.dom().contains(j) implies self.owns_places(
                j,
            ) by {
                assert(o.owns_places(j));
            }
            assert forall|s: u32|
                self.slots.owners().dom().contains(s) && (#[trigger] self.slots.owners()[s]) is Held implies self.resident@.dom().contains(
            self.slots.owners()[s]->Held_0) && self.resident@[self.slots.owners()[s]->Held_0].slot == s by {
                assert(o.slots.owners()[s] is Held);
            }
            assert forall|s: u32| #[trigger] self.last_voxels@.dom().contains(s) implies !self.free_slot(
                s,
            ) && self.fits_cells(
                self.resident@[self.slots.owners()[s]->Held_0],
                self.last_voxels@[s]@,
            ) by {
                assert(o.last_voxels@.dom().contains(s));
                assert(!o.free_slot(s));
                assert(o.slots.owners()[s] is Held);
            }
            assert forall|s: u32| #[trigger] self.last_meta@.dom().contains(s) implies s
                < self.slots.cap() && (self.free_slot(s) ==> self.last_meta@[s] == zero_meta()) by {
                if s != st.slot {
                    assert(o.last_meta@.dom().contains(s));
                }
            }
            assert forall|s: u32| #[trigger] self.last_aabb@.dom().contains(s) implies s
                < self.slots.cap() && (self.free_slot(s) ==> self.last_aabb@[s]
                == GpuBrickAabb::Degenerate) by {
                if s != st.slot {
                    assert(o.last_aabb@.dom().contains(s));
                }
            }
        }
        st.slot
    }
}

/// What the steps before the placing of bricks leave of the pools.
spec fn pools_stay(a: &ResidentPacker, b: &ResidentPacker) -> bool {
    &&& b.slots.cap() == a.slots.cap()
    &&& same_pool(a.index_pool, b.index_pool)
    &&& same_pool(a.palette_pool, b.palette_pool)
    &&& held_stays(a.slots.owners(), b.slots.owners())
    &&& held_stays(a.index_pool.owners(), b.index_pool.owners())
    &&& held_stays(a.palette_pool.owners(), b.palette_pool.owners())
}

/// The bricks that leave: those that are resident and not in the new set.
pub open spec fn leavers(resident: Set<Key>, m: Set<Key>) -> Set<Key> {
    Set::new(|k: Key| leaves(resident, m, k))
}

/// The slots of a list of bricks.
pub open spec fn slots_of(st: PackerState, ks: Seq<Key>) -> Seq<u32> {
    ks.map_values(|k: Key| st.resident[k].slot)
}

proof fn lemma_ascending_distinct(ks: Seq<Key>)
    requires
        keys_ascend(ks),
    ensures
        ks.no_duplicates(),
{
    assert forall|i: int, j: int| 0 <= i < ks.len() && 0 <= j < ks.len() && i != j implies ks[i] != ks[j] by {
        if i < j {
            assert(key_before(ks[i], ks[j]));
        } else {
            assert(key_before(ks[j], ks[i]));
        }
    }
}

/// One more brick that leaves goes to the end of the list of those before it.
proof fn lemma_gone_step(live: Seq<Key>, i: int, m: Set<Key>, gone: Seq<Key>)
    requires
        0 <= i < live.len(),
        keys_ascend(live),
        keys_ascend(gone),
        !m.contains(live[i]),
        forall|x: int| 0 <= x < gone.len() ==> exists|j: int| 0 <= j < i && live[j] == #[trigger] gone[x],
        forall|k: Key| #[trigger]
            gone.contains(k) <==> !m.contains(k) && exists|j: int| 0 <= j < i && #[trigger] live[j] == k,
    ensures
        keys_ascend(gone.push(live[i])),
        forall|x: int|
            0 <= x <= gone.len() ==> exists|j: int|
                0 <= j < i + 1 && live[j] == #[trigger] gone.push(live[i])[x],
        forall|k: Key| #[trigger]
            gone.push(live[i]).contains(k) <==> !m.contains(k) && exists|j: int|
                0 <= j < i + 1 && #[trigger] live[j] == k,
{
    let g = gone.push(live[i]);
    assert forall|x: int, y: int| 0 <= x < y < g.len() implies key_before(#[trigger] g[x], #[trigger] g[y]) by {
        let j = choose|j: int| 0 <= j < i && live[j] == gone[x];
        assert(key_before(live[j], live[i]));
        if y < gone.len() {
            assert(key_before(gone[x], gone[y]));
        }
    }
    assert forall|x: int| 0 <= x <= gone.len() implies exists|j: int| 0 <= j < i + 1 && live[j] == #[trigger] g[x] by {
        if x < gone.len() {
            let j = choose|j: int| 0 <= j < i && live[j] == gone[x];
            assert(live[j] == g[x]);
        } else {
            assert(live[i] == g[x]);
        }
    }
    assert forall|k: Key| #[trigger] g.contains(k) <==> !m.contains(k) && exists|j: int|
        0 <= j < i + 1 && #[trigger] live[j] == k by {
        if g.contains(k) {
            let x = choose|x: int| 0 <= x < g.len() && g[x] == k;
            if x < gone.len() {
                assert(gone[x] == k);
                assert(gone.contains(k));
                let j = choose|j: int| 0 <= j < i && #[trigger] live[j] == k;
                assert(live[j] == k);
            } else {
                assert(live[i] == k);
            }
        }
        if !m.contains(k) && exists|j: int| 0 <= j < i + 1 && #[trigger] live[j] == k {
            let j = choose|j: int| 0 <= j < i + 1 && #[trigger] live[j] == k;
            if j < i {
                assert(gone.contains(k));
                let x = choose|x: int| 0 <= x < gone.len() && gone[x] == k;
                assert(g[x] == k);
            } else {
                assert(g[gone.len() as int] == k);
            }
        }
    }
}

/// Whether one of the first `n` keys leaves and had this slot.
spec fn freed_before(a: PackerState, m: Set<Key>, ks: Seq<Key>, n: int, slot: u32) -> bool {
    exists|j: int|
        0 <= j < n && !m.contains(#[trigger] ks[j]) && a.resident[ks[j]].slot == slot
}

impl ResidentPacker {
    /// Take out every brick that is not in the new set, and add those that border on one to `dirty`.
    /// Returns the slots that were freed.
    fn drop_absent(
        &mut self,
        by_key: &FxHashMap<Key, &Brick>,
        dirty: &mut FxHashMap<Key, ()>,
    ) -> (freed: Vec<u32>)
        requires
            old(self).wf(),
            old(dirty)@ == Map::<Key, ()>::empty(),
        ensures
            final(self).wf(),
            pools_stay(old(self), final(self)),
            final(self).slots.ready() == old(self).slots.ready(),
            final(self).palette_stride == old(self).palette_stride,
            final(self).pending_rewrites == old(self).pending_rewrites,
            final(self).pending_classify == old(self).pending_classify,
            final(self).resident@ == old(self).resident@.restrict(by_key@.dom()),
            forall|s: u32|
                #![trigger unused(final(self).state(), s)]
                #![trigger same_slot(old(self).state(), final(self).state(), s)]
                if is_freed(old(self).state(), by_key@.dom(), s) {
                    unused(final(self).state(), s)
                } else {
                    same_slot(old(self).state(), final(self).state(), s)
                },
            freed@.no_duplicates(),
            forall|s: u32| #[trigger]
                freed@.contains(s) <==> is_freed(old(self).state(), by_key@.dom(), s),
            ({
                let gone = ascending(leavers(old(self).resident@.dom(), by_key@.dom()));
                &&& lists(gone, leavers(old(self).resident@.dom(), by_key@.dom()))
                &&& final(self).places() == all_left(old(self).places(), gone)
                &&& freed@ == slots_of(old(self).state(), gone)
            }),
            final(dirty)@.dom().finite(),
            forall|k: Key| #[trigger]
                final(dirty)@.dom().contains(k) <==> by_key@.dom().contains(k) && exists|d: Key|
                    #[trigger] leaves(old(self).resident@.dom(), by_key@.dom(), d) && near(d, k),
    {
        let ghost o = *self;
        let ghost a = self.state();
        let ghost m = by_key@.dom();
        let live: Vec<Key> = sorted_keys(fx_keys(&self.resident));
        let mut freed: Vec<u32> = Vec::new();
        let mut i: usize = 0;
        let ghost mut gone: Seq<Key> = Seq::empty();
        proof {
            lemma_ascending_distinct(live@);
            assert(live@.skip(0) =~= live@);
            assert(freed@ =~= slots_of(a, gone));
        }
        while i < live.len()
            invariant
                i <= live@.len(),
                o.wf(),
                a == o.state(),
                m == by_key@.dom(),
                live@.no_duplicates(),
                keys_ascend(live@),
                keys_ascend(gone),
                forall|x: int| 0 <= x < gone.len() ==> exists|j: int| 0 <= j < i && live@[j] == #[trigger] gone[x],
                forall|k: Key| #[trigger]
                    gone.contains(k) <==> !m.contains(k) && exists|j: int| 0 <= j < i && #[trigger] live@[j] == k,
                self.places() == all_left(o.places(), gone),
                freed@ == slots_of(a, gone),
                forall|k: Key| #[trigger] o.resident@.dom().contains(k) <==> live@.contains(k),
                self.wf(),
                pools_stay(&o, self),
                self.slots.ready() == o.slots.ready(),
                self.palette_stride == o.palette_stride,
                self.pending_rewrites == o.pending_rewrites,
                self.pending_classify == o.pending_classify,
                forall|k: Key| #[trigger]
                    self.resident@.dom().contains(k) <==> o.resident@.dom().contains(k) && (m.contains(k)
                        || live@.skip(i as int).contains(k)),
                forall|k: Key| #[trigger]
                    self.resident@.dom().contains(k) ==> self.resident@[k] == o.resident@[k],
                forall|s: u32|
                    #![trigger unused(self.state(), s)]
                    #![trigger same_slot(a, self.state(), s)]
                    if freed_before(a, m, live@, i as int, s) {
                        unused(self.state(), s)
                    } else {
                        same_slot(a, self.state(), s)
                    },
                freed@.no_duplicates(),
                forall|s: u32| #[trigger]
                    freed@.contains(s) <==> freed_before(a, m, live@, i as int, s),
                dirty@.dom().finite(),
                forall|k: Key| #[trigger]
                    dirty@.dom().contains(k) <==> m.contains(k) && exists|j: int|
                        0 <= j < i && !m.contains(#[trigger] live@[j]) && near(live@[j], k),
            decreases live@.len() - i,
        {
            let key: Key = live[i];
            proof {
                assert(live@.contains(key));
                assert(o.resident@.dom().contains(key));
                assert(live@.skip(i as int)[0] == key);
                assert(live@.skip(i as int).contains(key));
                assert(o.owns_places(key));
            }
            let ghost before = *self;
            let ghost d0 = dirty@;
            let ghost f0 = freed@;
            if !fx_contains(by_key, key) {
                let slot: u32 = self.drop_brick(key);
                freed.push(slot);
                add_neighbours(dirty, by_key, key);
                proof {
                    lemma_gone_step(live@, i as int, m, gone);
                    assert(gone.push(key).drop_last() =~= gone);
                    assert(freed@ =~= slots_of(a, gone.push(key)));
                    gone = gone.push(key);
                    assert(!freed_before(a, m, live@, i as int, slot)) by {
                        if freed_before(a, m, live@, i as int, slot) {
                            let j = choose|j: int|
                                0 <= j < i && !m.contains(#[trigger] live@[j]) && a.resident[live@[j]].slot
                                    == slot;
                            assert(live@.contains(live@[j]));
                            assert(o.resident@.dom().contains(live@[j]));
                            assert(o.owns_places(live@[j]));
                            assert(live@[j] == live@[i as int]);
                        }
                    }
                    assert(!f0.contains(slot));
                    assert forall|x: int, y: int|
                        0 <= x < freed@.len() && 0 <= y < freed@.len() && x != y implies freed@[x]
                        != freed@[y] by {
                        if x < f0.len() {
                            assert(f0.contains(f0[x]));
                        }
                        if y < f0.len() {
                            assert(f0.contains(f0[y]));
                        }
                    }
                }
            }
            proof {
                assert forall|k: Key| #[trigger] gone.contains(k) <==> !m.contains(k) && exists|j: int|
                    0 <= j < i + 1 && #[trigger] live@[j] == k by {
                    if m.contains(key) && exists|j: int| 0 <= j < i + 1 && #[trigger] live@[j] == k {
                        let j = choose|j: int| 0 <= j < i + 1 && #[trigger] live@[j] == k;
                        assert(live@[j] == k);
                    }
                }
                let t = live@.skip(i as int);
                let u = live@.skip(i + 1);
                assert forall|k: Key| k != key implies (t.contains(k) <==> u.contains(k)) by {
                    if t.contains(k) {
                        let w = choose|w: int| 0 <= w < t.len() && t[w] == k;
                        assert(u[w - 1] == k);
                    }
                    if u.contains(k) {
                        let w = choose|w: int| 0 <= w < u.len() && u[w] == k;
                        assert(t[w + 1] == k);
                    }
                }
                assert(!u.contains(key)) by {
                    if u.contains(key) {
                        let w = choose|w: int| 0 <= w < u.len() && u[w] == key;
                        assert(live@[i + 1 + w] == live@[i as int]);
                    }
                }
                assert forall|s: u32| freed_before(a, m, live@, i + 1, s) == (freed_before(
                    a,
                    m,
                    live@,
                    i as int,
                    s,
                ) || !m.contains(key) && a.resident[key].slot == s) by {
                    if freed_before(a, m, live@, i as int, s) {
                        let j = choose|j: int|
                            0 <= j < i && !m.contains(#[trigger] live@[j]) && a.resident[live@[j]].slot
                                == s;
                        assert(!m.contains(live@[j]));
                    }
                    if !m.contains(key) && a.resident[key].slot == s {
                        assert(!m.contains(live@[i as int]));
                    }
                }
                assert forall|s: u32|
                    #![trigger unused(self.state(), s)]
                    #![trigger same_slot(a, self.state(), s)]
                    if freed_before(a, m, live@, i + 1, s) {
                        unused(self.state(), s)
                    } else {
                        same_slot(a, self.state(), s)
                    } by {
                    assert(if freed_before(a, m, live@, i as int, s) {
                        unused(before.state(), s)
                    } else {
                        same_slot(a, before.state(), s)
                    });
                    if !m.contains(key) && s != before.resident@[key].slot {
                        assert(same_slot(before.state(), self.state(), s));
                    }
                }
                assert forall|s: u32| #[trigger] freed@.contains(s) <==> freed_before(
                    a,
                    m,
                    live@,
                    i + 1,
                    s,
                ) by {
                    assert(f0.contains(s) <==> freed_before(a, m, live@, i as int, s));
                    if !m.contains(key) {
                        assert(freed@ == f0.push(a.resident[key].slot));
                        if f0.contains(s) {
                            let w = choose|w: int| 0 <= w < f0.len() && f0[w] == s;
                            assert(freed@[w] == s);
                        }
                        assert(freed@[f0.len() as int] == a.resident[key].slot);
                        if freed@.contains(s) {
                            let w = choose|w: int| 0 <= w < freed@.len() && freed@[w] == s;
                            if w < f0.len() {
                                assert(f0[w] == s);
                            }
                        }
                    }
                }
                assert forall|k: Key| #[trigger] dirty@.dom().contains(k) <==> m.contains(k) && exists|
                    j: int,
                |
                    0 <= j < i + 1 && !m.contains(#[trigger] live@[j]) && near(live@[j], k) by {
                    assert(d0.dom().contains(k) <==> m.contains(k) && exists|j: int|
                        0 <= j < i && !m.contains(#[trigger] live@[j]) && near(live@[j], k));
                    if !m.contains(key) && near(key, k) {
                        assert(!m.contains(live@[i as int]));
                    }
                }
            }
            i = i + 1;
        }
        proof {
            let out = leavers(o.resident@.dom(), m);
            assert(lists(gone, out)) by {
                assert forall|k: Key| #[trigger] gone.contains(k) <==> out.contains(k) by {
                    if out.contains(k) {
                        assert(live@.contains(k));
                        let j = choose|j: int| 0 <= j < live@.len() && live@[j] == k;
                        assert(live@[j] == k);
                    }
                    if gone.contains(k) {
                        let j = choose|j: int| 0 <= j < i && #[trigger] live@[j] == k;
                        assert(live@.contains(live@[j]));
                    }
                }
            }
            law_ascending_unique(gone, ascending(out), out);
            assert(self.resident@ =~= o.resident@.restrict(m)) by {
                assert forall|k: Key| self.resident@.dom().contains(k) <==> o.resident@.dom().contains(k)
                    && m.contains(k) by {
                    assert(live@.skip(i as int).len() == 0);
                }
            }
            assert forall|s: u32| freed_before(a, m, live@, i as int, s) == is_freed(a, m, s) by {
                if freed_before(a, m, live@, i as int, s) {
                    let j = choose|j: int|
                        0 <= j < i && !m.contains(#[trigger] live@[j]) && a.resident[live@[j]].slot == s;
                    assert(live@.contains(live@[j]));
                    assert(leaves(a.resident.dom(), m, live@[j]));
                }
                if is_freed(a, m, s) {
                    let d = choose|d: Key|
                        #[trigger] leaves(a.resident.dom(), m, d) && a.resident[d].slot == s;
                    assert(live@.contains(d));
                    let j = choose|j: int| 0 <= j < live@.len() && live@[j] == d;
                    assert(!m.contains(live@[j]));
                }
            }
            assert forall|k: Key| #[trigger] dirty@.dom().contains(k) <==> m.contains(k) && exists|d: Key|
                #[trigger] leaves(o.resident@.dom(), m, d) && near(d, k) by {
                if exists|j: int| 0 <= j < i && !m.contains(#[trigger] live@[j]) && near(live@[j], k) {
                    let j = choose|j: int|
                        0 <= j < i && !m.contains(#[trigger] live@[j]) && near(live@[j], k);
                    assert(live@.contains(live@[j]));
                    assert(leaves(o.resident@.dom(), m, live@[j]));
                }
                if exists|d: Key| #[trigger] leaves(o.resident@.dom(), m, d) && near(d, k) {
                    let d = choose|d: Key| #[trigger] leaves(o.resident@.dom(), m, d) && near(d, k);
                    assert(live@.contains(d));
                    let j = choose|j: int| 0 <= j < live@.len() && live@[j] == d;
                    assert(!m.contains(live@[j]) && near(live@[j], k));
                }
            }
        }
        freed
    }
}

/// Which bricks enter depends on the resident bricks among the new ones only.
proof fn lemma_entering_kept(
    resident: Set<Key>,
    kept: Set<Key>,
    room: int,
    entries: Seq<ResidentBrick>,
    m: Set<Key>,
)
    requires
        forall|k: Key| #[trigger] kept.contains(k) <==> resident.contains(k) && m.contains(k),
        forall|i: int| 0 <= i < entries.len() ==> m.contains((#[trigger] entries[i]).key_spec()),
    ensures
        entering(resident, room, entries) == entering(kept, room, entries),
    decreases entries.len(),
{
    if entries.len() > 0 {
        let front = entries.drop_last();
        assert forall|i: int| 0 <= i < front.len() implies m.contains((#[trigger] front[i]).key_spec()) by {
            assert(front[i] == entries[i]);
        }
        lemma_entering_kept(resident, kept, room, front, m);
        assert(m.contains(entries[entries.len() - 1].key_spec()));
    }
}

/// The bricks that enter are of the list, not resident, distinct, and no more than there is room for.
pub proof fn lemma_entering(resident: Set<Key>, room: int, entries: Seq<ResidentBrick>)
    requires
        0 <= room,
    ensures
        entering(resident, room, entries).no_duplicates(),
        entering(resident, room, entries).len() <= room,
        entering(resident, room, entries).len() <= entries.len(),
        forall|k: Key| #[trigger]
            entering(resident, room, entries).contains(k) ==> !resident.contains(k) && exists|i: int|
                0 <= i < entries.len() && (#[trigger] entries[i]).key_spec() == k,
    decreases entries.len(),
{
    if entries.len() > 0 {
        let front = entries.drop_last();
        lemma_entering(resident, room, front);
        let e = entering(resident, room, entries);
        let f = entering(resident, room, front);
        assert forall|k: Key| #[trigger] e.contains(k) implies !resident.contains(k) && exists|i: int|
            0 <= i < entries.len() && (#[trigger] entries[i]).key_spec() == k by {
            if f.contains(k) {
                let i = choose|i: int| 0 <= i < front.len() && (#[trigger] front[i]).key_spec() == k;
                assert(entries[i] == front[i]);
            } else {
                let w = choose|w: int| 0 <= w < e.len() && e[w] == k;
                if w < f.len() {
                    assert(f[w] == k);
                }
                assert(entries[entries.len() - 1].key_spec() == k);
            }
        }
        assert forall|x: int, y: int| 0 <= x < e.len() && 0 <= y < e.len() && x != y implies e[x]
            != e[y] by {
            if x < f.len() {
                assert(f.contains(f[x]));
            }
            if y < f.len() {
                assert(f.contains(f[y]));
            }
        }
    }
}

impl ResidentPacker {
    /// Give a slot to every brick of `entries` that has none, as far as there are free ones, and add it
    /// to `dirty`. Returns whether a brick entered.
    fn enter_new(&mut self, entries: &[ResidentBrick<'_>], dirty: &mut FxHashMap<Key, ()>) -> (any: bool)
        requires
            old(self).wf(),
            entries_wf(entries@),
            old(dirty)@.dom().finite(),
        ensures
            final(self).wf(),
            pools_stay(old(self), final(self)),
            final(self).index_pool == old(self).index_pool,
            final(self).palette_pool == old(self).palette_pool,
            final(self).palette_stride == old(self).palette_stride,
            final(self).pending_rewrites == old(self).pending_rewrites,
            final(self).pending_classify == old(self).pending_classify,
            final(self).last_meta == old(self).last_meta,
            final(self).last_aabb == old(self).last_aabb,
            final(self).last_voxels == old(self).last_voxels,
            none_freed(old(self).slots.owners(), final(self).slots.owners()),
            final(self).places() == all_entered(old(self).places(), entries@),
            ({
                let enter = entering(
                    old(self).resident@.dom(),
                    old(self).slots.ready() as int,
                    entries@,
                );
                &&& any == (enter.len() > 0)
                &&& forall|k: Key| #[trigger]
                    final(self).resident@.dom().contains(k) <==> old(self).resident@.dom().contains(k)
                        || enter.contains(k)
                &&& forall|k: Key| #[trigger]
                    final(dirty)@.dom().contains(k) <==> old(dirty)@.dom().contains(k)
                        || enter.contains(k)
                &&& forall|k: Key| #[trigger]
                    enter.contains(k) ==> final(self).resident@[k].dense is None && is_free(
                        old(self).slots.owners(),
                        final(self).resident@[k].slot,
                    )
            }),
            forall|k: Key| #[trigger]
                old(self).resident@.dom().contains(k) ==> final(self).resident@[k] == old(
                    self,
                ).resident@[k],
            final(dirty)@.dom().finite(),
    {
        let ghost o = *self;
        let ghost room = self.slots.ready() as int;
        let ghost dom0 = self.resident@.dom();
        let ghost d0 = dirty@.dom();
        let mut any: bool = false;
        let mut i: usize = 0;
        assert(entries@.take(0) =~= Seq::empty());
        while i < entries.len()
            invariant
                i <= entries@.len(),
                entries_wf(entries@),
                dom0 == o.resident@.dom(),
                room == o.slots.ready(),
                d0 == old(dirty)@.dom(),
                self.wf(),
                self.slots.cap() == o.slots.cap(),
                self.slots.ready() == room - entering(dom0, room, entries@.take(i as int)).len(),
                none_freed(o.slots.owners(), self.slots.owners()),
                self.places() == all_entered(o.places(), entries@.take(i as int)),
                self.index_pool == o.index_pool,
                self.palette_pool == o.palette_pool,
                self.palette_stride == o.palette_stride,
                self.pending_rewrites == o.pending_rewrites,
                self.pending_classify == o.pending_classify,
                self.last_meta == o.last_meta,
                self.last_aabb == o.last_aabb,
                self.last_voxels == o.last_voxels,
                any == (entering(dom0, room, entries@.take(i as int)).len() > 0),
                forall|k: Key| #[trigger]
                    self.resident@.dom().contains(k) <==> dom0.contains(k) || entering(
                        dom0,
                        room,
                        entries@.take(i as int),
                    ).contains(k),
                forall|k: Key| #[trigger]
                    dirty@.dom().contains(k) <==> d0.contains(k) || entering(
                        dom0,
                        room,
                        entries@.take(i as int),
                    ).contains(k),
                forall|k: Key| #[trigger]
                    entering(dom0, room, entries@.take(i as int)).contains(k) ==> self.resident@[k].dense
                        is None && is_free(o.slots.owners(), self.resident@[k].slot),
                forall|k: Key| #[trigger] dom0.contains(k) ==> self.resident@[k] == o.resident@[k],
                dirty@.dom().finite(),
            decreases entries@.len() - i,
        {
            let key: Key = entries[i].key();
            let ghost before = *self;
            let ghost e0 = entering(dom0, room, entries@.take(i as int));
            let ghost e1 = entering(dom0, room, entries@.take(i + 1));
            proof {
                let t = entries@.take(i + 1);
                assert(t.drop_last() =~= entries@.take(i as int));
                assert(t.last() == entries@[i as int]);
                assert(entries@[i as int].wf());
                lemma_entering(dom0, room, entries@.take(i as int));
                self.slots.lemma_owners();
            }
            if !fx_contains(&self.resident, key) {
                match self.slots.claim(Ghost(key)) {
                    Some(slot) => {
                        fx_insert(&mut self.resident, key, SlotState { slot, dense: None });
                        fx_insert(dirty, key, ());
                        any = true;
                        proof {
                            assert(e1 == e0.push(key));
                            assert(e1[e0.len() as int] == key);
                            assert forall|k: Key| e1.contains(k) <==> e0.contains(k) || k == key by {
                                if e0.contains(k) {
                                    let w = choose|w: int| 0 <= w < e0.len() && e0[w] == k;
                                    assert(e1[w] == k);
                                }
                            }
                            assert(is_free(before.slots.owners(), slot));
                            assert(is_free(o.slots.owners(), slot));
                            assert forall|k: Key| #[trigger] self.resident@.dom().contains(
                                k,
                            ) implies self.owns_places(k) by {
                                if k != key {
                                    assert(before.owns_places(k));
                                }
                            }
                            assert forall|s: u32| #[trigger] self.last_voxels@.dom().contains(
                                s,
                            ) implies !self.free_slot(s) && self.fits_cells(
                                self.resident@[self.slots.owners()[s]->Held_0],
                                self.last_voxels@[s]@,
                            ) by {
                                assert(!before.free_slot(s));
                                assert(s != slot);
                            }
                        }
                    },
                    None => {
                        proof {
                            assert forall|k: Key| #[trigger] self.resident@.dom().contains(
                                k,
                            ) implies self.owns_places(k) by {
                                assert(before.owns_places(k));
                            }
                        }
                    },
                }
            }
            assert(self.places() =~= entered(before.places(), key));
            i = i + 1;
        }
        assert(entries@.take(i as int) =~= entries@);
        any
    }
}

/// Whether `b` comes of `a` by the bricks outside `m` leaving and those of `enter` getting slots: kept
/// bricks keep their places, a brick that enters has a slot that no brick had, the slots of bricks that
/// left show that they are unused, and all other slots show what they showed.
pub open spec fn begun(a: PackerState, b: PackerState, m: Set<Key>, enter: Seq<Key>) -> bool {
    &&& forall|k: Key| #[trigger]
        b.resident.dom().contains(k) <==> a.resident.dom().contains(k) && m.contains(k)
            || enter.contains(k)
    &&& forall|k: Key| #[trigger]
        a.resident.dom().contains(k) && m.contains(k) ==> b.resident[k] == a.resident[k]
    &&& forall|k: Key| #[trigger]
        enter.contains(k) ==> {
            &&& b.resident[k].dense is None
            &&& forall|j: Key| #[trigger]
                a.resident.dom().contains(j) ==> a.resident[j].slot != b.resident[k].slot
        }
    &&& forall|s: u32|
        #![trigger unused(b, s)]
        #![trigger same_slot(a, b, s)]
        if is_freed(a, m, s) {
            unused(b, s)
        } else {
            same_slot(a, b, s)
        }
}

/// Those of the keys that have a slot.
fn with_slots(keys: Vec<Key>, resident: &FxHashMap<Key, SlotState>) -> (r: Vec<Key>)
    requires
        keys@.no_duplicates(),
    ensures
        r@.no_duplicates(),
        forall|k: Key| #[trigger] r@.contains(k) <==> keys@.contains(k) && resident@.dom().contains(k),
{
    let mut r: Vec<Key> = Vec::new();
    let mut i: usize = 0;
    while i < keys.len()
        invariant
            i <= keys@.len(),
            keys@.no_duplicates(),
            r@.no_duplicates(),
            forall|k: Key| #[trigger]
                r@.contains(k) <==> resident@.dom().contains(k) && exists|j: int|
                    0 <= j < i && #[trigger] keys@[j] == k,
        decreases keys@.len() - i,
    {
        let key: Key = keys[i];
        let ghost before = r@;
        if fx_contains(resident, key) {
            r.push(key);
        }
        proof {
            if before.contains(key) {
                let j = choose|j: int| 0 <= j < i && #[trigger] keys@[j] == key;
                assert(keys@[j] == keys@[i as int]);
            }
            if resident@.dom().contains(key) {
                assert forall|x: int, y: int| 0 <= x < r@.len() && 0 <= y < r@.len() && x != y implies r@[x]
                    != r@[y] by {
                    if x < before.len() {
                        assert(before.contains(before[x]));
                    }
                    if y < before.len() {
                        assert(before.contains(before[y]));
                    }
                }
            }
            assert forall|k: Key| #[trigger] r@.contains(k) <==> resident@.dom().contains(k) && exists|j: int|
                0 <= j < i + 1 && #[trigger] keys@[j] == k by {
                assert(before.contains(k) <==> resident@.dom().contains(k) && exists|j: int|
                    0 <= j < i && #[trigger] keys@[j] == k);
                if before.contains(k) {
                    let w = choose|w: int| 0 <= w < before.len() && before[w] == k;
                    assert(r@[w] == k);
                }
                if k == key {
                    assert(keys@[i as int] == k);
                    if resident@.dom().contains(key) {
                        assert(r@[before.len() as int] == k);
                    }
                }
                if r@.contains(k) && k != key {
                    let w = choose|w: int| 0 <= w < r@.len() && r@[w] == k;
                    assert(before[w] == k);
                }
            }
        }
        i = i + 1;
    }
    proof {
        assert forall|k: Key| keys@.contains(k) <==> exists|j: int| 0 <= j < i && #[trigger] keys@[j] == k by {
            if keys@.contains(k) {
                let j = choose|j: int| 0 <= j < keys@.len() && keys@[j] == k;
                assert(keys@[j] == k);
            }
        }
    }
    r
}

impl ResidentPacker {
    /// The bricks of `entries` that enter at an update.
    pub open spec fn newcomers(&self, entries: Seq<ResidentBrick>) -> Seq<Key> {
        let dom = self.state().resident.dom();
        entering(dom, self.slot_cap() - dom.len(), entries)
    }

    /// Whether an update to `entries` packs brick `k` anew: it is dirty, and has a slot or gets one. A brick beyond
    /// the capacity is skipped.
    pub open spec fn repacks(&self, entries: Seq<ResidentBrick>, k: Key) -> bool {
        &&& is_dirty(
            self.state().resident.dom(),
            resident_blocks(entries).dom(),
            self.newcomers(entries),
            self.rewrites(),
            k,
        )
        &&& self.state().resident.dom().contains(k) || self.newcomers(entries).contains(k)
    }

    /// The bricks that leave at an update to `entries`, in ascending order.
    pub open spec fn leaving(&self, entries: Seq<ResidentBrick>) -> Seq<Key> {
        ascending(leavers(self.state().resident.dom(), resident_blocks(entries).dom()))
    }

    /// The places after the first phase of an update to `entries`: quarantines emptied, bricks gone, bricks come.
    pub open spec fn readied(&self, entries: Seq<ResidentBrick>) -> Places {
        all_entered(all_left(released(self.places()), self.leaving(entries)), entries)
    }

    /// The bricks that an update to `entries` packs anew.
    pub open spec fn dirty_set(&self, entries: Seq<ResidentBrick>) -> Set<Key> {
        Set::new(|k: Key| self.repacks(entries, k))
    }

    /// The bricks that an update to `entries` packs anew, in ascending order.
    pub open spec fn dirty_keys(&self, entries: Seq<ResidentBrick>) -> Seq<Key> {
        ascending(self.dirty_set(entries))
    }

    /// The places after an update to `entries`.
    pub open spec fn updated(&self, entries: Seq<ResidentBrick>) -> Places {
        all_settled(
            self.readied(entries),
            self.dirty_keys(entries),
            |k: Key| class_of_voxels(content(resident_blocks(entries), k)),
        )
    }

    /// The first phase of an update: free what is in quarantine, take out the bricks that leave, give
    /// slots to those that enter, and find the bricks to pack anew.
    fn begin_update(
        &mut self,
        entries: &[ResidentBrick<'_>],
        by_key: &FxHashMap<Key, &Brick>,
        palette_stride: u32,
    ) -> (r: Begun)
        requires
            old(self).wf(),
            entries_wf(entries@),
            by_key@.dom() == resident_blocks(entries@).dom(),
        ensures
            final(self).wf(),
            pools_stay(old(self), final(self)),
            final(self).stride() == palette_stride,
            final(self).rewrites() == Seq::<Key>::empty(),
            final(self).pending_classify == old(self).pending_classify,
            begun(
                old(self).state(),
                final(self).state(),
                resident_blocks(entries@).dom(),
                old(self).newcomers(entries@),
            ),
            r.freed@.no_duplicates(),
            forall|s: u32| #[trigger]
                r.freed@.contains(s) <==> is_freed(
                    old(self).state(),
                    resident_blocks(entries@).dom(),
                    s,
                ),
            final(self).places() == old(self).readied(entries@),
            lists(
                old(self).leaving(entries@),
                leavers(old(self).state().resident.dom(), resident_blocks(entries@).dom()),
            ),
            r.freed@ == slots_of(old(self).state(), old(self).leaving(entries@)),
            lists(old(self).dirty_keys(entries@), old(self).dirty_set(entries@)),
            r.dirty@ == old(self).dirty_keys(entries@),
            keys_ascend(r.dirty@),
            r.dirty@.no_duplicates(),
            forall|k: Key| #[trigger] r.dirty@.contains(k) <==> old(self).repacks(entries@, k),
            r.topology_changed == (r.freed@.len() > 0 || old(self).newcomers(entries@).len() > 0),
    {
        let ghost a = self.state();
        let ghost m = by_key@.dom();
        let ghost dom0 = self.resident@.dom();
        let ghost rewritten = self.pending_rewrites@;
        let ghost enter = self.newcomers(entries@);
        self.palette_stride = palette_stride;
        proof {
            lemma_wf_frame(old(self), self);
        }
        let ghost p0 = *self;
        self.release_quarantine();
        let ghost p1 = *self;
        let mut dirty: FxHashMap<Key, ()> = fx_new();
        let freed: Vec<u32> = self.drop_absent(by_key, &mut dirty);
        let ghost p2 = *self;
        let entered: bool = self.enter_new(entries, &mut dirty);
        let ghost p3 = *self;
        proof {
            lemma_resident_blocks(entries@);
            let kept = p2.resident@.dom();
            assert forall|i: int| 0 <= i < entries@.len() implies m.contains(
                (#[trigger] entries@[i]).key_spec(),
            ) by {}
            assert(p1.slots.ready() as int == p0.slots.cap() - dom0.len());
            lemma_entering_kept(dom0, kept, p1.slots.ready() as int, entries@, m);
            lemma_entering(dom0, p1.slots.ready() as int, entries@);
        }
        let mut list: Vec<Key> = Vec::new();
        std::mem::swap(&mut list, &mut self.pending_rewrites);
        let ghost d0 = dirty@.dom();
        let mut i: usize = 0;
        while i < list.len()
            invariant
                i <= list@.len(),
                m == by_key@.dom(),
                dirty@.dom().finite(),
                forall|k: Key| #[trigger]
                    dirty@.dom().contains(k) <==> d0.contains(k) || m.contains(k) && exists|j: int|
                        0 <= j < i && #[trigger] list@[j] == k,
            decreases list@.len() - i,
        {
            let key: Key = list[i];
            let ghost before = dirty@.dom();
            if fx_contains(by_key, key) {
                fx_insert(&mut dirty, key, ());
            }
            proof {
                assert forall|k: Key| #[trigger] dirty@.dom().contains(k) <==> d0.contains(k)
                    || m.contains(k) && exists|j: int| 0 <= j < i + 1 && #[trigger] list@[j] == k by {
                    assert(before.contains(k) <==> d0.contains(k) || m.contains(k) && exists|j: int|
                        0 <= j < i && #[trigger] list@[j] == k);
                    if k == key {
                        assert(list@[i as int] == k);
                    }
                }
            }
            i = i + 1;
        }
        let ghost seeds = dirty@.dom();
        proof {
            assert forall|k: Key| #[trigger] seeds.contains(k) <==> is_seed(dom0, m, enter, rewritten, k) by {
                if rewritten.contains(k) {
                    let j = choose|j: int| 0 <= j < rewritten.len() && rewritten[j] == k;
                    assert(list@[j] == k);
                }
                if exists|j: int| 0 <= j < i && #[trigger] list@[j] == k {
                    let j = choose|j: int| 0 <= j < i && #[trigger] list@[j] == k;
                    assert(rewritten[j] == k);
                }
            }
            assert forall|k: Key| #[trigger] seeds.contains(k) implies m.contains(k) && key_ok(k) by {
                assert(m.contains(k));
                let i = choose|i: int| 0 <= i < entries@.len() && (#[trigger] entries@[i]).key_spec() == k;
                assert(entries@[i].wf());
            }
        }
        expand(&mut dirty, by_key);
        let all: Vec<Key> = fx_keys(&dirty);
        let keys: Vec<Key> = sorted_keys(with_slots(all, &self.resident));
        proof {
            assert forall|k: Key| #[trigger] keys@.contains(k) <==> old(self).repacks(entries@, k) by {
                assert(keys@.contains(k) <==> dirty@.dom().contains(k) && self.resident@.dom().contains(k));
                assert(m.contains(k) ==> (self.resident@.dom().contains(k) <==> dom0.contains(k) || enter.contains(k)))
                by {
                    assert(p2.resident@.dom().contains(k) <==> dom0.contains(k) && m.contains(k));
                }
                if seeds.contains(k) {
                    assert(is_seed(dom0, m, enter, rewritten, k) && near(k, k));
                }
                if exists|s: Key| #[trigger] is_seed(dom0, m, enter, rewritten, s) && near(s, k) {
                    let s = choose|s: Key| #[trigger] is_seed(dom0, m, enter, rewritten, s) && near(s, k);
                    assert(seeds.contains(s));
                }
                if exists|s: Key| #[trigger] seeds.contains(s) && near(s, k) {
                    let s = choose|s: Key| #[trigger] seeds.contains(s) && near(s, k);
                    assert(is_seed(dom0, m, enter, rewritten, s));
                }
            }
            lemma_ascending_distinct(keys@);
            let set = old(self).dirty_set(entries@);
            assert(lists(keys@, set));
            law_ascending_unique(keys@, ascending(set), set);
            lemma_wf_frame(&p3, self);
            let b = self.state();
            assert(p1.state() == a);
            assert(b.metas == p2.state().metas && b.aabbs == p2.state().aabbs && b.cells
                == p2.state().cells);
            assert forall|s: u32|
                #![trigger unused(b, s)]
                #![trigger same_slot(a, b, s)]
                if is_freed(a, m, s) {
                    unused(b, s)
                } else {
                    same_slot(a, b, s)
                } by {
                assert(if is_freed(a, m, s) {
                    unused(p2.state(), s)
                } else {
                    same_slot(a, p2.state(), s)
                });
            }
            assert forall|k: Key| #[trigger] enter.contains(k) implies b.resident[k].dense is None && (
            forall|j: Key| #[trigger]
                a.resident.dom().contains(j) ==> a.resident[j].slot != b.resident[k].slot) by {
                assert forall|j: Key| #[trigger] a.resident.dom().contains(j) implies a.resident[j].slot
                    != b.resident[k].slot by {
                    assert(old(self).owns_places(j));
                    let s = a.resident[j].slot;
                    assert(old(self).slots.owners().dom().contains(s) && old(self).slots.owners()[s] is Held);
                    assert(p0.slots.owners().dom().contains(s) && p0.slots.owners()[s] is Held);
                    assert(p1.slots.owners().dom().contains(s) && p1.slots.owners()[s] is Held) by {
                        assert(p1.owns_places(j));
                    }
                    assert(!(p2.slots.owners()[s] is Free));
                }
            }
            assert forall|k: Key| #[trigger] a.resident.dom().contains(k) && m.contains(k) implies b.resident[k]
                == a.resident[k] by {
                assert(p2.resident@.dom().contains(k));
            }
            assert forall|k: Key| #[trigger]
                b.resident.dom().contains(k) <==> a.resident.dom().contains(k) && m.contains(k)
                    || enter.contains(k) by {
                assert(p2.resident@.dom().contains(k) <==> a.resident.dom().contains(k) && m.contains(k));
            }
            assert(self.pending_rewrites@ =~= Seq::empty());
        }
        let topology_changed: bool = entered || freed.len() > 0;
        Begun { freed, dirty: keys, topology_changed }
    }
}

/// Whether the slot of brick `k` shows what a brick of the given class shows, and its blocks are those
/// of the class.
pub open spec fn shows(st: PackerState, k: Key, class: Classification) -> bool {
    let p = st.resident[k];
    &&& dense_matches(class, p.dense)
    &&& st.metas.dom().contains(p.slot)
    &&& st.metas[p.slot] == class_meta(k, class, p.dense)
    &&& st.aabbs.dom().contains(p.slot)
    &&& st.aabbs[p.slot] == (GpuBrickAabb::Brick { coord: coord_of(k), lod: k.3 })
}

/// Whether the cells remembered of brick `k` are `cells`, or none where that is `None`.
pub open spec fn remembers(st: PackerState, k: Key, cells: Option<Seq<u32>>) -> bool {
    let slot = st.resident[k].slot;
    match cells {
        Some(c) => st.cells.dom().contains(slot) && st.cells[slot] == c,
        None => !st.cells.dom().contains(slot),
    }
}

/// Whether bricks got no words and no slot that another brick, or the same one in other places, had
/// before: what a reader of the earlier buffers looks at is not written to, but for bricks that keep
/// their places.
pub open spec fn clear_of(a: PackerState, b: PackerState) -> bool {
    forall|j: Key, k: Key|
        #![trigger a.resident.dom().contains(j), b.resident.dom().contains(k)]
        a.resident.dom().contains(j) && b.resident.dom().contains(k) ==> {
            &&& (a.resident[j].slot == b.resident[k].slot ==> j == k)
            &&& (a.resident[j].dense is Some && b.resident[k].dense is Some ==> {
                let e = a.resident[j].dense->0;
                let d = b.resident[k].dense->0;
                &&& {
                    ||| j == k && d.index_offset == e.index_offset && d.index_bits == e.index_bits
                    ||| d.index_offset + stream_words(d.index_bits) <= e.index_offset
                    ||| e.index_offset + stream_words(e.index_bits) <= d.index_offset
                }
                &&& {
                    ||| j == k && d.palette_offset == e.palette_offset
                    ||| d.palette_offset + d.palette_k <= e.palette_offset
                    ||| e.palette_offset + e.palette_k <= d.palette_offset
                }
            })
        }
}

/// Whether a brick whose index width is what it was keeps its index block, and one whose palette is of
/// the size class that it was keeps its palette block.
pub open spec fn blocks_stay(a: PackerState, b: PackerState) -> bool {
    forall|k: Key|
        #![trigger a.resident.dom().contains(k), b.resident.dom().contains(k)]
        a.resident.dom().contains(k) && b.resident.dom().contains(k) && a.resident[k].dense is Some
            && b.resident[k].dense is Some ==> {
            let e = a.resident[k].dense->0;
            let d = b.resident[k].dense->0;
            &&& (d.index_bits == e.index_bits ==> d.index_offset == e.index_offset)
            &&& (class_for(palette_sizes(), d.palette_k as int) == class_for(
                palette_sizes(),
                e.palette_k as int,
            ) ==> d.palette_offset == e.palette_offset)
        }
}

/// Whether every slot that no brick has, before or after, shows what it showed, or, where a brick left,
/// that it is unused.
pub open spec fn idle_slots(a: PackerState, b: PackerState, m: Set<Key>) -> bool {
    forall|s: u32|
        #![trigger unused(b, s)]
        #![trigger same_slot(a, b, s)]
        if is_freed(a, m, s) {
            unused(b, s)
        } else {
            (forall|k: Key| #[trigger] b.resident.dom().contains(k) ==> b.resident[k].slot != s)
                ==> same_slot(a, b, s)
        }
}

/// Whether `b` comes of `a` by an update to the bricks `m`, of which `enter` enter and those for which
/// `dirty` holds are packed anew, as `class` and `cells` say: each dirty brick shows and remembers what
/// it is given, every other brick is where it was and shows what it showed, bricks keep their slots,
/// and nothing is written where another brick's words were.
pub open spec fn is_step(
    a: PackerState,
    b: PackerState,
    m: Set<Key>,
    enter: Seq<Key>,
    dirty: spec_fn(Key) -> bool,
    class: spec_fn(Key) -> Classification,
    cells: spec_fn(Key) -> Option<Seq<u32>>,
) -> bool {
    &&& forall|k: Key| #[trigger]
        b.resident.dom().contains(k) <==> a.resident.dom().contains(k) && m.contains(k)
            || enter.contains(k)
    &&& forall|k: Key| #[trigger]
        b.resident.dom().contains(k) && dirty(k) ==> shows(b, k, class(k)) && remembers(b, k, cells(k))
    &&& forall|k: Key| #[trigger]
        b.resident.dom().contains(k) && !dirty(k) ==> {
            &&& a.resident.dom().contains(k)
            &&& b.resident[k] == a.resident[k]
            &&& same_slot(a, b, b.resident[k].slot)
        }
    &&& forall|k: Key| #[trigger]
        b.resident.dom().contains(k) && a.resident.dom().contains(k) ==> b.resident[k].slot
            == a.resident[k].slot
    &&& idle_slots(a, b, m)
    &&& clear_of(a, b)
    &&& blocks_stay(a, b)
}

/// What an update leaves of the pools: the buffers' sizes, and whether the growth marks are right.
pub open spec fn pools_grow(o: &ResidentPacker, n: &ResidentPacker, bricks: int) -> bool {
    &&& n.slot_cap() == o.slot_cap()
    &&& n.index_cap() == o.index_cap()
    &&& n.palette_cap() == o.palette_cap()
    &&& n.index_floor() == o.index_floor()
    &&& n.palette_floor() == o.palette_floor()
    &&& o.index_used() <= n.index_used() <= o.index_used() + 500 * bricks
    &&& o.palette_used() <= n.palette_used() <= o.palette_used() + 1024 * bricks
    &&& n.grown() == (o.grown() || n.index_used() > o.index_cap() || n.palette_used()
        > o.palette_cap())
}

/// Pack the brick of the new set at `key`.
fn pack_key(key: Key, by_key: &FxHashMap<Key, &Brick>) -> (pb: PackedBrick)
    requires
        key_ok(key),
        bricks_wf(by_key@),
        by_key@.dom().contains(key),
    ensures
        pb.is_at(key),
        pb.voxels@ == packed(by_key@[key]@, blocks_behind(by_key@), key),
{
    let brick: &Brick = *fx_get(by_key, key).unwrap();
    let e: ResidentBrick<'_> = ResidentBrick {
        coord: IVec3 { x: key.0, y: key.1, z: key.2 },
        brick,
        lod: key.3,
    };
    pack_one(&e, by_key)
}

/// Whether the packed bricks are those of the keys, one by one.
spec fn all_packed(keys: Seq<Key>, by_key: Map<Key, &Brick>, r: Seq<PackedBrick>) -> bool {
    &&& r.len() == keys.len()
    &&& forall|i: int|
        0 <= i < keys.len() ==> (#[trigger] r[i]).is_at(keys[i]) && r[i].voxels@ == packed(
            by_key[keys[i]]@,
            blocks_behind(by_key),
            keys[i],
        )
}

/// `rayon`'s `par_iter` on a slice, `map` and `collect` into a vector: [`pack_key`] is called once on
/// every key, on whatever thread, and the results are in the order of the keys.
#[verifier::external_body]
fn pack_all(keys: &[Key], by_key: &FxHashMap<Key, &Brick>) -> (r: Vec<PackedBrick>)
    requires
        bricks_wf(by_key@),
        forall|i: int|
            0 <= i < keys@.len() ==> key_ok(#[trigger] keys@[i]) && by_key@.dom().contains(keys@[i]),
    ensures
        all_packed(keys@, by_key@, r@),
{
    keys.par_iter().map(|k| pack_key(*k, by_key)).collect()
}

/// Pack the bricks at `keys` one after the other.
fn pack_serially(keys: &[Key], by_key: &FxHashMap<Key, &Brick>) -> (r: Vec<PackedBrick>)
    requires
        bricks_wf(by_key@),
        forall|i: int|
            0 <= i < keys@.len() ==> key_ok(#[trigger] keys@[i]) && by_key@.dom().contains(keys@[i]),
    ensures
        all_packed(keys@, by_key@, r@),
{
    let mut r: Vec<PackedBrick> = Vec::with_capacity(keys.len());
    let mut i: usize = 0;
    while i < keys.len()
        invariant
            i <= keys@.len(),
            bricks_wf(by_key@),
            forall|j: int|
                0 <= j < keys@.len() ==> key_ok(#[trigger] keys@[j]) && by_key@.dom().contains(keys@[j]),
            all_packed(keys@.take(i as int), by_key@, r@),
        decreases keys@.len() - i,
    {
        let ghost r0 = r@;
        r.push(pack_key(keys[i], by_key));
        proof {
            let t = keys@.take(i + 1);
            assert forall|j: int| 0 <= j < t.len() implies (#[trigger] r@[j]).is_at(t[j]) && r@[j].voxels@
                == packed(by_key@[t[j]]@, blocks_behind(by_key@), t[j]) by {
                if j < i {
                    assert(r@[j] == r0[j]);
                    assert(t[j] == keys@.take(i as int)[j]);
                }
            }
        }
        i = i + 1;
    }
    assert(keys@.take(i as int) =~= keys@);
    r
}

/// Whether `cur` comes of `mid` by placing the first `n` bricks of `ks`.
spec fn progress(
    mid: &ResidentPacker,
    cur: &ResidentPacker,
    ks: Seq<Key>,
    n: int,
    class: spec_fn(Key) -> Classification,
    cells: spec_fn(Key) -> Option<Seq<u32>>,
) -> bool {
    &&& cur.wf()
    &&& cur.places() == all_settled(mid.places(), ks.take(n), class)
    &&& cur.slots == mid.slots
    &&& cur.palette_stride == mid.palette_stride
    &&& cur.pending_rewrites == mid.pending_rewrites
    &&& pool_step(mid.index_pool, cur.index_pool, 500 * n)
    &&& pool_step(mid.palette_pool, cur.palette_pool, 1024 * n)
    &&& cur.resident@.dom() == mid.resident@.dom()
    &&& forall|k: Key| #[trigger]
        cur.resident@.dom().contains(k) ==> cur.resident@[k].slot == mid.resident@[k].slot
    &&& forall|j: int|
        0 <= j < n ==> shows(cur.state(), #[trigger] ks[j], class(ks[j])) && remembers(
            cur.state(),
            ks[j],
            cells(ks[j]),
        ) && kept_or_fresh(mid, cur, ks[j])
    &&& forall|k: Key| #[trigger]
        cur.resident@.dom().contains(k) && !ks.take(n).contains(k) ==> cur.resident@[k]
            == mid.resident@[k] && same_slot(mid.state(), cur.state(), cur.resident@[k].slot)
    &&& forall|s: u32|
        #![trigger same_slot(mid.state(), cur.state(), s)]
        (forall|k: Key| #[trigger] cur.resident@.dom().contains(k) ==> cur.resident@[k].slot != s)
            ==> same_slot(mid.state(), cur.state(), s)
}

proof fn lemma_progress_start(
    mid: &ResidentPacker,
    ks: Seq<Key>,
    class: spec_fn(Key) -> Classification,
    cells: spec_fn(Key) -> Option<Seq<u32>>,
)
    requires
        mid.wf(),
    ensures
        progress(mid, mid, ks, 0, class, cells),
{
    mid.index_pool.lemma_blocks();
    mid.palette_pool.lemma_blocks();
    assert(ks.take(0) =~= Seq::empty());
}

proof fn lemma_progress_step(
    mid: &ResidentPacker,
    before: &ResidentPacker,
    after: &ResidentPacker,
    ks: Seq<Key>,
    n: int,
    class: spec_fn(Key) -> Classification,
    cells: spec_fn(Key) -> Option<Seq<u32>>,
)
    requires
        0 <= n < ks.len(),
        ks.no_duplicates(),
        progress(mid, before, ks, n, class, cells),
        forall|j: int| 0 <= j < ks.len() ==> before.resident@.dom().contains(#[trigger] ks[j]),
        after.wf(),
        placed(before.state(), after.state(), ks[n], class(ks[n]), cells(ks[n])),
        same_frame(before, after, ks[n], class(ks[n])),
    ensures
        progress(mid, after, ks, n + 1, class, cells),
{
    let key = ks[n];
    let slot = before.resident@[key].slot;
    let a = before.state();
    let b = after.state();
    assert(!ks.take(n).contains(key)) by {
        if ks.take(n).contains(key) {
            let w = choose|w: int| 0 <= w < n && ks.take(n)[w] == key;
            assert(ks[w] == ks[n]);
        }
    }
    assert(ks.take(n + 1).drop_last() =~= ks.take(n));
    assert(before.resident@.dom().contains(key));
    assert(before.owns_places(key));
    assert(after.resident@.dom() =~= before.resident@.dom());
    assert forall|k: Key| #[trigger] before.resident@.dom().contains(k) && k != key implies before.resident@[k].slot
        != slot && after.resident@[k] == before.resident@[k] by {
        assert(before.owns_places(k));
        assert(after.resident@ == before.resident@.insert(key, after.resident@[key]));
    }
    assert forall|s: u32| s != slot implies #[trigger] same_slot(a, b, s) by {}
    assert forall|j: int| 0 <= j < n + 1 implies shows(after.state(), #[trigger] ks[j], class(ks[j]))
        && remembers(after.state(), ks[j], cells(ks[j])) && kept_or_fresh(mid, after, ks[j]) by {
        if j < n {
            assert(ks[j] != key);
            assert(before.resident@.dom().contains(ks[j]));
            let s = before.resident@[ks[j]].slot;
            assert(same_slot(a, b, s));
        } else {
            assert(before.resident@[key] == mid.resident@[key]);
            assert(none_freed(mid.index_pool.owners(), before.index_pool.owners()));
            assert(none_freed(mid.palette_pool.owners(), before.palette_pool.owners()));
        }
    }
    assert forall|k: Key| #[trigger] after.resident@.dom().contains(k) && !ks.take(n + 1).contains(k) implies after.resident@[k]
        == mid.resident@[k] && same_slot(mid.state(), after.state(), after.resident@[k].slot) by {
        assert(ks.take(n + 1)[n] == key);
        if ks.take(n).contains(k) {
            let w = choose|w: int| 0 <= w < n && ks.take(n)[w] == k;
            assert(ks.take(n + 1)[w] == k);
        }
        assert(before.resident@.dom().contains(k));
        assert(same_slot(a, b, after.resident@[k].slot));
    }
    assert forall|s: u32|
        #![trigger same_slot(mid.state(), after.state(), s)]
        (forall|k: Key| #[trigger] after.resident@.dom().contains(k) ==> after.resident@[k].slot != s) implies same_slot(
    mid.state(), after.state(), s) by {
        assert(after.resident@.dom().contains(key));
        assert(s != slot);
        assert forall|k: Key| #[trigger] before.resident@.dom().contains(k) implies before.resident@[k].slot
            != s by {
            assert(after.resident@.dom().contains(k));
        }
        assert(same_slot(mid.state(), before.state(), s));
        assert(same_slot(a, b, s));
    }
}

/// Progress does not depend on what is waiting.
proof fn lemma_progress_frame(
    mid: &ResidentPacker,
    cur: &ResidentPacker,
    next: &ResidentPacker,
    ks: Seq<Key>,
    n: int,
    class: spec_fn(Key) -> Classification,
    cells: spec_fn(Key) -> Option<Seq<u32>>,
)
    requires
        progress(mid, cur, ks, n, class, cells),
        next.slots == cur.slots,
        next.index_pool == cur.index_pool,
        next.palette_pool == cur.palette_pool,
        next.resident == cur.resident,
        next.last_meta == cur.last_meta,
        next.last_aabb == cur.last_aabb,
        next.last_voxels == cur.last_voxels,
        next.palette_stride == cur.palette_stride,
        next.pending_rewrites == cur.pending_rewrites,
    ensures
        progress(mid, next, ks, n, class, cells),
{
    lemma_wf_frame(cur, next);
    assert(next.state() == cur.state());
    assert forall|j: int| 0 <= j < n implies shows(next.state(), #[trigger] ks[j], class(ks[j]))
        && remembers(next.state(), ks[j], cells(ks[j])) && kept_or_fresh(mid, next, ks[j]) by {
        assert(kept_or_fresh(mid, cur, ks[j]));
    }
}

/// An update is done when all dirty bricks are placed.
proof fn lemma_progress_end(
    o: &ResidentPacker,
    mid: &ResidentPacker,
    cur: &ResidentPacker,
    ks: Seq<Key>,
    m: Set<Key>,
    enter: Seq<Key>,
    dirty: spec_fn(Key) -> bool,
    class: spec_fn(Key) -> Classification,
    cells: spec_fn(Key) -> Option<Seq<u32>>,
)
    requires
        o.wf(),
        mid.wf(),
        pools_stay(o, mid),
        begun(o.state(), mid.state(), m, enter),
        progress(mid, cur, ks, ks.len() as int, class, cells),
        forall|k: Key| #[trigger] dirty(k) <==> ks.contains(k),
        forall|k: Key| #[trigger]
            enter.contains(k) ==> dirty(k) && !o.resident@.dom().contains(k),
    ensures
        is_step(o.state(), cur.state(), m, enter, dirty, class, cells),
        pools_grow(o, cur, ks.len() as int),
{
    let a = o.state();
    let c = mid.state();
    let b = cur.state();
    let n = ks.len() as int;
    assert(ks.take(n) =~= ks);
    o.index_pool.lemma_blocks();
    o.palette_pool.lemma_blocks();
    assert forall|k: Key| #[trigger] b.resident.dom().contains(k) implies {
        &&& (dirty(k) ==> shows(b, k, class(k)) && remembers(b, k, cells(k)))
        &&& (!dirty(k) ==> a.resident.dom().contains(k) && b.resident[k] == a.resident[k] && same_slot(
            a,
            b,
            b.resident[k].slot,
        ))
        &&& (a.resident.dom().contains(k) ==> b.resident[k].slot == a.resident[k].slot)
    } by {
        assert(c.resident.dom().contains(k));
        if dirty(k) {
            let j = choose|j: int| 0 <= j < ks.len() && ks[j] == k;
            assert(shows(b, ks[j], class(ks[j])));
        } else {
            assert(!enter.contains(k));
            assert(c.resident[k] == a.resident[k]);
            let s = a.resident[k].slot;
            lemma_kept_not_freed(o, m, k);
            assert(same_slot(a, c, s));
            assert(same_slot(c, b, s));
        }
    }
    assert forall|s: u32|
        #![trigger unused(b, s)]
        #![trigger same_slot(a, b, s)]
        if is_freed(a, m, s) {
            unused(b, s)
        } else {
            (forall|k: Key| #[trigger] b.resident.dom().contains(k) ==> b.resident[k].slot != s)
                ==> same_slot(a, b, s)
        } by {
        if is_freed(a, m, s) {
            assert(unused(c, s));
            assert forall|k: Key| #[trigger] b.resident.dom().contains(k) implies b.resident[k].slot
                != s by {
                assert(c.resident.dom().contains(k));
                if enter.contains(k) {
                    let d = choose|d: Key|
                        #[trigger] leaves(a.resident.dom(), m, d) && a.resident[d].slot == s;
                    assert(a.resident.dom().contains(d));
                } else {
                    lemma_kept_not_freed(o, m, k);
                }
            }
            assert(same_slot(c, b, s));
        } else {
            assert(same_slot(a, c, s));
            if forall|k: Key| #[trigger] b.resident.dom().contains(k) ==> b.resident[k].slot != s {
                assert(same_slot(c, b, s));
            }
        }
    }
    assert(blocks_stay(a, b)) by {
        assert forall|k: Key|
            #![trigger a.resident.dom().contains(k), b.resident.dom().contains(k)]
            a.resident.dom().contains(k) && b.resident.dom().contains(k) && a.resident[k].dense is Some
                && b.resident[k].dense is Some implies {
            let e = a.resident[k].dense->0;
            let d = b.resident[k].dense->0;
            &&& (d.index_bits == e.index_bits ==> d.index_offset == e.index_offset)
            &&& (class_for(palette_sizes(), d.palette_k as int) == class_for(
                palette_sizes(),
                e.palette_k as int,
            ) ==> d.palette_offset == e.palette_offset)
        } by {
            assert(c.resident.dom().contains(k));
            assert(!enter.contains(k));
            assert(c.resident[k] == a.resident[k]);
            if ks.contains(k) {
                let w = choose|w: int| 0 <= w < ks.len() && ks[w] == k;
                assert(kept_or_fresh(mid, cur, ks[w]));
            }
        }
    }
    assert(clear_of(a, b)) by {
        assert forall|j: Key, k: Key|
            #![trigger a.resident.dom().contains(j), b.resident.dom().contains(k)]
            a.resident.dom().contains(j) && b.resident.dom().contains(k) implies {
            &&& (a.resident[j].slot == b.resident[k].slot ==> j == k)
            &&& (a.resident[j].dense is Some && b.resident[k].dense is Some ==> {
                let e = a.resident[j].dense->0;
                let d = b.resident[k].dense->0;
                &&& {
                    ||| j == k && d.index_offset == e.index_offset && d.index_bits == e.index_bits
                    ||| d.index_offset + stream_words(d.index_bits) <= e.index_offset
                    ||| e.index_offset + stream_words(e.index_bits) <= d.index_offset
                }
                &&& {
                    ||| j == k && d.palette_offset == e.palette_offset
                    ||| d.palette_offset + d.palette_k <= e.palette_offset
                    ||| e.palette_offset + e.palette_k <= d.palette_offset
                }
            })
        } by {
            lemma_clear_pair(o, mid, cur, ks, m, enter, class, cells, j, k);
        }
    }
}

/// The slot of a brick that stays is not freed.
proof fn lemma_kept_not_freed(o: &ResidentPacker, m: Set<Key>, k: Key)
    requires
        o.wf(),
        o.resident@.dom().contains(k),
        m.contains(k),
    ensures
        !is_freed(o.state(), m, o.resident@[k].slot),
{
    let a = o.state();
    let s = o.resident@[k].slot;
    assert(o.owns_places(k));
    if is_freed(a, m, s) {
        let d = choose|d: Key| #[trigger] leaves(a.resident.dom(), m, d) && a.resident[d].slot == s;
        assert(o.resident@.dom().contains(d));
        assert(o.owns_places(d));
    }
}

/// A placed brick `k` has no words that another brick, or itself elsewhere, had before.
proof fn lemma_clear_pair(
    o: &ResidentPacker,
    mid: &ResidentPacker,
    cur: &ResidentPacker,
    ks: Seq<Key>,
    m: Set<Key>,
    enter: Seq<Key>,
    class: spec_fn(Key) -> Classification,
    cells: spec_fn(Key) -> Option<Seq<u32>>,
    j: Key,
    k: Key,
)
    requires
        o.wf(),
        mid.wf(),
        pools_stay(o, mid),
        begun(o.state(), mid.state(), m, enter),
        progress(mid, cur, ks, ks.len() as int, class, cells),
        o.resident@.dom().contains(j),
        cur.resident@.dom().contains(k),
    ensures
        o.resident@[j].slot == cur.resident@[k].slot ==> j == k,
        o.resident@[j].dense is Some && cur.resident@[k].dense is Some ==> {
            let e = o.resident@[j].dense->0;
            let d = cur.resident@[k].dense->0;
            &&& {
                ||| j == k && d.index_offset == e.index_offset && d.index_bits == e.index_bits
                ||| d.index_offset + stream_words(d.index_bits) <= e.index_offset
                ||| e.index_offset + stream_words(e.index_bits) <= d.index_offset
            }
            &&& {
                ||| j == k && d.palette_offset == e.palette_offset
                ||| d.palette_offset + d.palette_k <= e.palette_offset
                ||| e.palette_offset + e.palette_k <= d.palette_offset
            }
        },
{
    let a = o.state();
    let c = mid.state();
    assert(ks.take(ks.len() as int) =~= ks);
    assert(mid.resident@.dom().contains(k));
    assert(o.owns_places(j));
    assert(cur.owns_places(k));
    assert(mid.owns_places(k));
    assert(cur.resident@[k].slot == mid.resident@[k].slot);
    if enter.contains(k) {
        assert(a.resident.dom().contains(j));
    } else {
        assert(a.resident.dom().contains(k) && m.contains(k));
        assert(o.owns_places(k));
    }
    if o.resident@[j].dense is Some && cur.resident@[k].dense is Some {
        let e = o.resident@[j].dense->0;
        let d = cur.resident@[k].dense->0;
        cur.index_pool.lemma_blocks();
        cur.palette_pool.lemma_blocks();
        o.index_pool.lemma_blocks();
        o.palette_pool.lemma_blocks();
        lemma_index_class(d.index_bits);
        lemma_index_class(e.index_bits);
        lemma_palette_class(d.palette_k as int);
        lemma_palette_class(e.palette_k as int);
        assert(cur.index_pool.layout().dom().contains(d.index_offset));
        assert(cur.palette_pool.layout().dom().contains(d.palette_offset));
        assert(mid.index_pool.layout().dom().contains(e.index_offset));
        assert(mid.palette_pool.layout().dom().contains(e.palette_offset));
        assert(cur.index_pool.layout().dom().contains(e.index_offset));
        assert(cur.palette_pool.layout().dom().contains(e.palette_offset));
        assert(!is_free(mid.index_pool.owners(), e.index_offset));
        assert(!is_free(mid.palette_pool.owners(), e.palette_offset));
        // The blocks of k are those that it had, or free ones.
        if ks.contains(k) {
            let w = choose|w: int| 0 <= w < ks.len() && ks[w] == k;
            assert(kept_or_fresh(mid, cur, ks[w]));
        } else {
            assert(cur.resident@[k] == mid.resident@[k]);
        }
    }
}

/// The uploads of a list of bricks are the same for two states in which those bricks have the same
/// places and their slots show the same.
proof fn lemma_slot_changes_frame(a: PackerState, b: PackerState, c: PackerState, ks: Seq<Key>)
    requires
        forall|i: int|
            0 <= i < ks.len() ==> {
                let p = b.resident[#[trigger] ks[i]];
                &&& c.resident[ks[i]] == p
                &&& same_slot(b, c, p.slot)
                &&& b.metas.dom().contains(p.slot)
                &&& b.aabbs.dom().contains(p.slot)
                &&& (p.dense is Some ==> b.cells.dom().contains(p.slot))
            },
    ensures
        slot_changes(a, b, ks) == slot_changes(a, c, ks),
    decreases ks.len(),
{
    if ks.len() > 0 {
        let front = ks.drop_last();
        assert forall|i: int| 0 <= i < front.len() implies {
            let p = b.resident[#[trigger] front[i]];
            &&& c.resident[front[i]] == p
            &&& same_slot(b, c, p.slot)
            &&& b.metas.dom().contains(p.slot)
            &&& b.aabbs.dom().contains(p.slot)
            &&& (p.dense is Some ==> b.cells.dom().contains(p.slot))
        } by {
            assert(front[i] == ks[i]);
        }
        lemma_slot_changes_frame(a, b, c, front);
        assert(ks[ks.len() - 1] == ks.last());
    }
}

/// The upload of a freed slot.
pub open spec fn freed_change(slot: u32) -> ChangeView {
    ChangeView {
        slot,
        meta: zero_meta(),
        aabb: GpuBrickAabb::Degenerate,
        index: None,
        index_word_offset: 0,
        palette: None,
        palette_word_offset: 0,
    }
}

/// The content of brick `k` in the set `m`.
pub open spec fn content(m: Blocks, k: Key) -> VoxelsView {
    packed(m[k], m, k)
}

impl ResidentPacker {
    /// Whether the offsets that an update to `entries` hands out fit their fields.
    pub open spec fn has_words(&self, entries: Seq<ResidentBrick>) -> bool {
        fits(self.updated(entries))
    }

    /// Whether `n` comes of `o` by an update to `entries`, with the cells of the bricks that were packed
    /// anew remembered.
    pub open spec fn is_update(o: &ResidentPacker, n: &ResidentPacker, entries: Seq<ResidentBrick>) -> bool {
        let m = resident_blocks(entries);
        &&& n.wf()
        &&& is_step(
            o.state(),
            n.state(),
            m.dom(),
            o.newcomers(entries),
            |k: Key| o.repacks(entries, k),
            |k: Key| class_of_voxels(content(m, k)),
            |k: Key| cells_of(content(m, k)),
        )
        &&& n.places() == o.updated(entries)
        &&& pools_grow(o, n, o.dirty_keys(entries).len() as int)
        &&& n.rewrites() == Seq::<Key>::empty()
    }
}

/// Whether `delta` is what an update from `o` to `n` uploads: the slots freed, in ascending order of the keys that
/// left, and then what changed of the bricks packed anew, in ascending order of their keys.
pub open spec fn is_delta(
    o: &ResidentPacker,
    n: &ResidentPacker,
    entries: Seq<ResidentBrick>,
    delta: RepackDelta,
) -> bool {
    let m = resident_blocks(entries).dom();
    &&& lists(o.leaving(entries), leavers(o.state().resident.dom(), m))
    &&& delta.freed@ == slots_of(o.state(), o.leaving(entries))
    &&& delta.freed@.no_duplicates()
    &&& forall|s: u32| #[trigger] delta.freed@.contains(s) <==> is_freed(o.state(), m, s)
    &&& lists(o.dirty_keys(entries), o.dirty_set(entries))
    &&& delta.changes() == delta.freed@.map_values(|s: u32| freed_change(s)) + slot_changes(
        o.state(),
        n.state(),
        o.dirty_keys(entries),
    )
    &&& delta.topology_changed == (delta.freed@.len() > 0 || o.newcomers(entries).len() > 0)
}

/// A list of bricks has no more keys than entries.
proof fn lemma_resident_count(entries: Seq<ResidentBrick>)
    ensures
        resident_blocks(entries).dom().finite(),
        resident_blocks(entries).dom().len() <= entries.len(),
    decreases entries.len(),
{
    if entries.len() > 0 {
        lemma_resident_count(entries.drop_last());
    }
}

/// A brick's haloed grid has a thousand cells.
proof fn lemma_content_len(m: Blocks, k: Key)
    ensures
        content(m, k) matches VoxelsView::Dense(cells) ==> cells.len() == 1000 && first_seen(cells).len()
            <= 1000,
{
    if let VoxelsView::Dense(cells) = content(m, k) {
        lemma_first_seen(cells);
    }
}

/// When a brick is about to be placed, its slot shows what it showed before the update.
proof fn lemma_slot_as_before(
    o: &ResidentPacker,
    mid: &ResidentPacker,
    cur: &ResidentPacker,
    m: Set<Key>,
    enter: Seq<Key>,
    ks: Seq<Key>,
    n: int,
    class: spec_fn(Key) -> Classification,
    cells: spec_fn(Key) -> Option<Seq<u32>>,
)
    requires
        o.wf(),
        begun(o.state(), mid.state(), m, enter),
        0 <= n < ks.len(),
        ks.no_duplicates(),
        mid.resident@.dom().contains(ks[n]),
        progress(mid, cur, ks, n, class, cells),
    ensures
        same_slot(o.state(), cur.state(), cur.resident@[ks[n]].slot),
        cur.resident@[ks[n]] == mid.resident@[ks[n]],
{
    let key = ks[n];
    let a = o.state();
    let s = mid.resident@[key].slot;
    assert(!ks.take(n).contains(key)) by {
        if ks.take(n).contains(key) {
            let w = choose|w: int| 0 <= w < n && ks.take(n)[w] == key;
            assert(ks[w] == ks[n]);
        }
    }
    assert(cur.resident@.dom().contains(key));
    assert(same_slot(mid.state(), cur.state(), s));
    assert(!is_freed(a, m, s)) by {
        assert(mid.state().resident.dom().contains(key));
        if enter.contains(key) {
            if is_freed(a, m, s) {
                let d = choose|d: Key| #[trigger] leaves(a.resident.dom(), m, d) && a.resident[d].slot == s;
                assert(a.resident.dom().contains(d));
            }
        } else {
            assert(a.resident.dom().contains(key) && m.contains(key));
            lemma_kept_not_freed(o, m, key);
        }
    }
    assert(same_slot(a, mid.state(), s));
}

/// Placing one more brick adds its upload to those of the bricks placed before.
proof fn lemma_emitted(
    o: &ResidentPacker,
    mid: &ResidentPacker,
    before: &ResidentPacker,
    after: &ResidentPacker,
    m: Set<Key>,
    enter: Seq<Key>,
    ks: Seq<Key>,
    n: int,
    class: spec_fn(Key) -> Classification,
    cells: spec_fn(Key) -> Option<Seq<u32>>,
)
    requires
        o.wf(),
        begun(o.state(), mid.state(), m, enter),
        0 <= n < ks.len(),
        ks.no_duplicates(),
        forall|j: int| 0 <= j < ks.len() ==> mid.resident@.dom().contains(#[trigger] ks[j]),
        progress(mid, before, ks, n, class, cells),
        progress(mid, after, ks, n + 1, class, cells),
        placed(before.state(), after.state(), ks[n], class(ks[n]), cells(ks[n])),
        forall|k: Key| #[trigger] class(k) is Dense ==> cells(k) is Some,
    ensures
        slot_changes(o.state(), before.state(), ks.take(n)) + slot_change(
            before.state(),
            after.state(),
            ks[n],
        ) == slot_changes(o.state(), after.state(), ks.take(n + 1)),
{
    let a = o.state();
    let b = before.state();
    let c = after.state();
    let front = ks.take(n);
    let slot = b.resident[ks[n]].slot;
    lemma_slot_as_before(o, mid, before, m, enter, ks, n, class, cells);
    assert forall|i: int| 0 <= i < front.len() implies {
        let p = b.resident[#[trigger] front[i]];
        &&& c.resident[front[i]] == p
        &&& same_slot(b, c, p.slot)
        &&& b.metas.dom().contains(p.slot)
        &&& b.aabbs.dom().contains(p.slot)
        &&& (p.dense is Some ==> b.cells.dom().contains(p.slot))
    } by {
        let k = front[i];
        assert(k == ks[i]);
        assert(ks[i] != ks[n]);
        assert(shows(b, ks[i], class(ks[i])) && remembers(b, ks[i], cells(ks[i])));
        assert(before.resident@.dom().contains(ks[i]) && before.resident@.dom().contains(ks[n]));
        assert(before.owns_places(ks[i]) && before.owns_places(ks[n]));
        assert(c.resident == b.resident.insert(ks[n], c.resident[ks[n]]));
    }
    lemma_slot_changes_frame(a, b, c, front);
    let more = ks.take(n + 1);
    assert(more.drop_last() =~= front);
    assert(more.last() == ks[n]);
    assert(slot_change(b, c, ks[n]) == slot_change(a, c, ks[n]));
}

impl ResidentPacker {
    /// Reconcile the packer with `entries`, packing the bricks anew on `rayon`'s threads or one after
    /// the other. Returns what to upload.
    fn update_inner(
        &mut self,
        entries: &[ResidentBrick<'_>],
        palette_stride: u32,
        parallel: bool,
    ) -> (delta: RepackDelta)
        requires
            old(self).wf(),
            entries_wf(entries@),
            old(self).has_words(entries@),
        ensures
            Self::is_update(old(self), final(self), entries@),
            is_delta(old(self), final(self), entries@, delta),
            final(self).stride() == palette_stride,
            Self::same_awaited(old(self), final(self)),
    {
        let by_key: FxHashMap<Key, &Brick> = build_by_key(entries);
        let ghost o = *self;
        let ghost a = self.state();
        let ghost m = resident_blocks(entries@);
        let ghost enter = self.newcomers(entries@);
        let ghost dirty = |k: Key| o.repacks(entries@, k);
        let ghost class = |k: Key| class_of_voxels(content(m, k));
        let ghost cells = |k: Key| cells_of(content(m, k));
        let b: Begun = self.begin_update(entries, &by_key, palette_stride);
        let mut delta: RepackDelta = RepackDelta {
            changed: Vec::new(),
            freed: Vec::new(),
            topology_changed: b.topology_changed,
        };
        let keys: Vec<Key> = b.dirty;
        let freed: Vec<u32> = b.freed;
        let ghost drops = freed@.map_values(|s: u32| freed_change(s));
        let mut i: usize = 0;
        while i < freed.len()
            invariant
                i <= freed@.len(),
                delta.freed@.len() == 0,
                delta.changes() == freed@.take(i as int).map_values(|s: u32| freed_change(s)),
                delta.topology_changed == b.topology_changed,
            decreases freed@.len() - i,
        {
            let ghost before = delta.changes();
            delta.changed.push(
                ChangedSlot {
                    slot: freed[i],
                    meta: GpuBrickMeta::zeroed(),
                    aabb: degenerate_aabb(),
                    index: None,
                    index_word_offset: 0,
                    palette: None,
                    palette_word_offset: 0,
                },
            );
            proof {
                assert(delta.changes() =~= before.push(freed_change(freed@[i as int])));
                assert(freed@.take(i + 1) =~= freed@.take(i as int).push(freed@[i as int]));
                assert(delta.changes() =~= freed@.take(i + 1).map_values(|s: u32| freed_change(s)));
            }
            i = i + 1;
        }
        assert(freed@.take(i as int) =~= freed@);
        delta.freed = freed;
        let ghost mid = *self;
        proof {
            lemma_progress_start(&mid, keys@, class, cells);
            lemma_resident_blocks(entries@);
            lemma_resident_count(entries@);
            assert forall|j: int| 0 <= j < keys@.len() implies key_ok(#[trigger] keys@[j])
                && by_key@.dom().contains(keys@[j]) && mid.resident@.dom().contains(keys@[j]) by {
                assert(keys@.contains(keys@[j]));
                assert(o.repacks(entries@, keys@[j]));
                let w = choose|w: int|
                    0 <= w < entries@.len() && (#[trigger] entries@[w]).key_spec() == keys@[j];
                assert(entries@[w].wf());
            }
            assert(drops + slot_changes(a, mid.state(), keys@.take(0)) =~= drops);
        }
        let packed_bricks: Vec<PackedBrick> = if parallel {
            pack_all(&keys, &by_key)
        } else {
            pack_serially(&keys, &by_key)
        };
        let mut i: usize = 0;
        while i < keys.len()
            invariant
                i <= keys@.len(),
                keys@.no_duplicates(),
                m == blocks_behind(by_key@),
                class == (|k: Key| class_of_voxels(content(m, k))),
                cells == (|k: Key| cells_of(content(m, k))),
                all_packed(keys@, by_key@, packed_bricks@),
                forall|j: int|
                    0 <= j < keys@.len() ==> key_ok(#[trigger] keys@[j]) && by_key@.dom().contains(
                        keys@[j],
                    ) && mid.resident@.dom().contains(keys@[j]),
                fits(all_settled(mid.places(), keys@, class)),
                o.wf(),
                a == o.state(),
                begun(a, mid.state(), m.dom(), enter),
                progress(&mid, self, keys@, i as int, class, cells),
                self.pending_classify == o.pending_classify,
                delta.changes() == drops + slot_changes(a, self.state(), keys@.take(i as int)),
                delta.freed == freed,
                delta.topology_changed == b.topology_changed,
            decreases keys@.len() - i,
        {
            let key: Key = keys[i];
            let pb: &PackedBrick = &packed_bricks[i];
            let ghost before = *self;
            proof {
                assert(packed_bricks@[i as int].is_at(keys@[i as int]));
                assert(mid.resident@.dom().contains(keys@[i as int]));
                assert(blocks_behind(by_key@)[key] == by_key@[key]@);
                lemma_content_len(m, key);
                assert(pb.voxels@ == content(m, key));
                plan::lemma_used_grows(mid.places(), keys@, i + 1, class);
                assert(keys@.take(i + 1).drop_last() =~= keys@.take(i as int));
            }
            let enc: Option<PalettedBrick> = match &pb.voxels {
                BrickVoxels::Dense(c) => Some(encode_paletted(c)),
                BrickVoxels::Uniform(_) => None,
            };
            self.emit_changed_slot(key, pb, enc.as_ref(), &mut delta);
            proof {
                lemma_progress_step(&mid, &before, self, keys@, i as int, class, cells);
                lemma_emitted(&o, &mid, &before, self, m.dom(), enter, keys@, i as int, class, cells);
            }
            i = i + 1;
        }
        proof {
            assert(keys@.take(i as int) =~= keys@);
            lemma_entering(a.resident.dom(), o.slot_cap() - a.resident.dom().len(), entries@);
            assert forall|k: Key| #[trigger] enter.contains(k) implies dirty(k) && !o.resident@.dom().contains(k) by {
                assert(is_seed(a.resident.dom(), m.dom(), enter, o.rewrites(), k) && near(k, k));
            }
            lemma_progress_end(&o, &mid, self, keys@, m.dom(), enter, dirty, class, cells);
        }
        delta
    }
}

impl ResidentPacker {
    /// A packer for `max_resident_bricks` slots, with pools sized for that many bricks.
    pub fn new(max_resident_bricks: u32) -> (p: ResidentPacker)
        ensures
            Self::is_fresh(&p, max_resident_bricks),
            p.index_floor() == reserved(max_resident_bricks, RESERVE_INDEX_WORDS_PER_BRICK),
            p.palette_floor() == reserved(max_resident_bricks, RESERVE_PALETTE_WORDS_PER_BRICK),
    {
        Self::with_reserve(max_resident_bricks, true)
    }

    /// A packer whose pools are sized for nothing and grow as bricks come.
    pub fn new_unreserved(max_resident_bricks: u32) -> (p: ResidentPacker)
        ensures
            Self::is_fresh(&p, max_resident_bricks),
            p.index_floor() == 0,
            p.palette_floor() == 0,
    {
        Self::with_reserve(max_resident_bricks, false)
    }

    /// Whether a packer has no bricks, no marks and no words, and has this many slots.
    pub open spec fn is_fresh(p: &ResidentPacker, capacity: u32) -> bool {
        &&& p.wf()
        &&& p.state().resident.dom() == Set::<Key>::empty()
        &&& p.state().metas.dom() == Set::<u32>::empty()
        &&& p.state().aabbs.dom() == Set::<u32>::empty()
        &&& p.state().cells.dom() == Set::<u32>::empty()
        &&& p.slot_cap() == capacity
        &&& p.slot_plan() == (SlotPlan {
            cap: capacity as int,
            next: 0,
            free: Seq::empty(),
            waiting: Seq::empty(),
        })
        &&& p.index_plan() == no_blocks(index_sizes())
        &&& p.palette_plan() == no_blocks(palette_sizes())
        &&& p.rewrites() == Seq::<Key>::empty()
        &&& p.index_used() == 0
        &&& p.palette_used() == 0
        &&& p.index_cap() == 0
        &&& p.palette_cap() == 0
        &&& !p.grown()
        &&& p.stride() == 0
        &&& !p.awaits()
    }

    fn with_reserve(max_resident_bricks: u32, reserve: bool) -> (p: ResidentPacker)
        ensures
            Self::is_fresh(&p, max_resident_bricks),
            p.index_floor() == (if reserve {
                reserved(max_resident_bricks, RESERVE_INDEX_WORDS_PER_BRICK)
            } else {
                0
            }),
            p.palette_floor() == (if reserve {
                reserved(max_resident_bricks, RESERVE_PALETTE_WORDS_PER_BRICK)
            } else {
                0
            }),
    {
        let mut index_classes: Vec<u32> = Vec::new();
        index_classes.push(index_class_words(1) as u32);
        index_classes.push(index_class_words(2) as u32);
        index_classes.push(index_class_words(4) as u32);
        index_classes.push(index_class_words(8) as u32);
        index_classes.push(index_class_words(16) as u32);
        assert(index_classes@ =~= index_sizes());
        let mut palette_classes: Vec<u32> = Vec::new();
        let mut j: u32 = 2;
        let ghost sizes = palette_sizes();
        while palette_classes.len() < 16
            invariant
                sizes == palette_sizes(),
                palette_classes@.len() <= 16,
                palette_classes@ =~= sizes.take(palette_classes@.len() as int),
                palette_classes@.len() < 16 ==> j == sizes[palette_classes@.len() as int],
                palette_classes@.len() == 16 ==> j == 131072,
            decreases 16 - palette_classes@.len(),
        {
            palette_classes.push(j);
            j = j * 2;
        }
        assert(palette_classes@ =~= sizes);
        let mut index_pool: BlockPool = BlockPool::new(index_classes);
        let mut palette_pool: BlockPool = BlockPool::new(palette_classes);
        if reserve {
            index_pool.reserve(max_resident_bricks, RESERVE_INDEX_WORDS_PER_BRICK);
            palette_pool.reserve(max_resident_bricks, RESERVE_PALETTE_WORDS_PER_BRICK);
        }
        let p: ResidentPacker = ResidentPacker {
            slots: SlotPool::new(max_resident_bricks),
            resident: fx_new(),
            index_pool,
            palette_pool,
            palette_stride: 0,
            last_meta: fx_new(),
            last_aabb: fx_new(),
            last_voxels: fx_new(),
            pending_rewrites: Vec::new(),
            pending_classify: PendingClassify {
                dirty_keys: Vec::new(),
                freed: Vec::new(),
                neighbour_bases: Vec::new(),
                topology_changed: false,
                active: false,
            },
        };
        proof {
            assert(p.resident@.dom() =~= Set::empty());
            assert(p.last_meta@.dom() =~= Set::empty());
            assert(p.last_aabb@.dom() =~= Set::empty());
            assert(p.last_voxels@.dom() =~= Set::empty());
            assert(p.state().cells.dom() =~= Set::empty());
            assert(p.pending_rewrites@ =~= Seq::empty());
        }
        p
    }

    /// The number of slots.
    pub fn capacity(&self) -> (n: u32)
        ensures
            n == self.slot_cap(),
    {
        self.slots.capacity()
    }

    /// The number of resident bricks.
    pub fn resident_count(&self) -> (n: usize)
        ensures
            n == self.state().resident.dom().len(),
    {
        fx_len(&self.resident)
    }

    /// Whether an allocation since the last snapshot went past a buffer, so that the buffers have to be
    /// made anew.
    pub fn grew(&self) -> (b: bool)
        ensures
            b == self.grown(),
    {
        self.index_pool.grew() || self.palette_pool.grew()
    }

    /// Mark bricks as rewritten in place: the next update packs them anew, where they are resident then.
    pub fn mark_rewritten(&mut self, keys: &[BrickKey])
        requires
            old(self).wf(),
        ensures
            final(self).wf(),
            final(self).state() == old(self).state(),
            final(self).places() == old(self).places(),
            final(self).rewrites() == old(self).rewrites() + keys@.map_values(|k: BrickKey| k@),
            Self::same_sizes(old(self), final(self)),
            final(self).stride() == old(self).stride(),
            Self::same_awaited(old(self), final(self)),
    {
        let mut i: usize = 0;
        let ghost o = *self;
        while i < keys.len()
            invariant
                i <= keys@.len(),
                self.slots == o.slots,
                self.index_pool == o.index_pool,
                self.palette_pool == o.palette_pool,
                self.resident == o.resident,
                self.last_meta == o.last_meta,
                self.last_aabb == o.last_aabb,
                self.last_voxels == o.last_voxels,
                self.palette_stride == o.palette_stride,
                self.pending_classify == o.pending_classify,
                self.pending_rewrites@ =~= o.pending_rewrites@ + keys@.take(i as int).map_values(
                    |k: BrickKey| k@,
                ),
            decreases keys@.len() - i,
        {
            self.pending_rewrites.push(keys[i].key());
            proof {
                assert(keys@.take(i + 1) =~= keys@.take(i as int).push(keys@[i as int]));
            }
            i = i + 1;
        }
        proof {
            assert(keys@.take(i as int) =~= keys@);
            lemma_wf_frame(&o, self);
        }
    }

    /// Whether the slots, the words in use and the buffers' sizes are the same.
    pub open spec fn same_sizes(a: &ResidentPacker, b: &ResidentPacker) -> bool {
        &&& b.slot_cap() == a.slot_cap()
        &&& b.index_used() == a.index_used()
        &&& b.palette_used() == a.palette_used()
        &&& b.index_cap() == a.index_cap()
        &&& b.palette_cap() == a.palette_cap()
        &&& b.index_floor() == a.index_floor()
        &&& b.palette_floor() == a.palette_floor()
        &&& b.grown() == a.grown()
    }

    /// Reconcile the packer with `entries`: bricks leave and enter, those whose bytes can have changed
    /// are packed anew, and what did change is returned for upload.
    pub fn update(&mut self, entries: &[ResidentBrick<'_>], palette_stride: u32) -> (delta: RepackDelta)
        requires
            old(self).wf(),
            entries_wf(entries@),
            old(self).has_words(entries@),
        ensures
            Self::is_update(old(self), final(self), entries@),
            is_delta(old(self), final(self), entries@, delta),
            final(self).stride() == palette_stride,
            Self::same_awaited(old(self), final(self)),
    {
        self.update_inner(entries, palette_stride, true)
    }

    /// [`Self::update`] without threads.
    pub fn update_serial(&mut self, entries: &[ResidentBrick<'_>], palette_stride: u32) -> (delta:
        RepackDelta)
        requires
            old(self).wf(),
            entries_wf(entries@),
            old(self).has_words(entries@),
        ensures
            Self::is_update(old(self), final(self), entries@),
            is_delta(old(self), final(self), entries@, delta),
            final(self).stride() == palette_stride,
            Self::same_awaited(old(self), final(self)),
    {
        self.update_inner(entries, palette_stride, false)
    }
}

/// The capacity reserved for `bricks` bricks of `words` words, cut off at the largest 32-bit number.
pub open spec fn reserved(bricks: u32, words: u32) -> int {
    if bricks * words <= u32::MAX {
        bricks * words
    } else {
        u32::MAX as int
    }
}

impl ResidentPacker {
    /// There are no more bricks than slots.
    proof fn lemma_count(&self)
        requires
            self.wf(),
        ensures
            self.resident@.dom().len() <= self.slots.cap() <= u32::MAX,
    {
        self.slots.lemma_cap();
    }

    /// The cells that are remembered of a brick are those of its blocks.
    proof fn lemma_cells_fit(&self, k: Key)
        requires
            self.wf(),
            self.resident@.dom().contains(k),
            self.last_voxels@.dom().contains(self.resident@[k].slot),
        ensures
            self.fits_cells(self.resident@[k], self.last_voxels@[self.resident@[k].slot]@),
    {
        assert(self.owns_places(k));
    }

    /// There is a slot for every resident brick.
    pub proof fn lemma_room(&self)
        requires
            self.wf(),
        ensures
            self.state().resident.dom().finite(),
            0 <= self.slot_cap() - self.state().resident.dom().len(),
    {
    }

    /// The brick whose cells are remembered at a slot has that slot.
    proof fn lemma_cells_owner(&self, s: u32) -> (k: Key)
        requires
            self.wf(),
            self.state().cells.dom().contains(s),
        ensures
            self.state().resident.dom().contains(k),
            self.state().resident[k].slot == s,
            self.state().resident[k].dense is Some,
    {
        assert(self.last_voxels@.dom().contains(s));
        assert(!self.free_slot(s));
        self.slots.owners()[s]->Held_0
    }

    /// The number of slots fits in 32 bits.
    proof fn lemma_slots_fit(&self)
        ensures
            0 <= self.slot_cap() <= u32::MAX,
    {
        self.slots.lemma_cap();
    }

    /// The offset of an index stream leaves room for the mark of a uniform brick.
    proof fn lemma_offsets(&self, k: Key)
        requires
            self.wf(),
            self.resident@.dom().contains(k),
        ensures
            self.resident@[k].dense matches Some(d) ==> d.index_offset < 0x8000_0000,
    {
        assert(self.owns_places(k));
    }

    /// A resident brick can be packed.
    proof fn lemma_key_ok(&self, k: Key)
        requires
            self.wf(),
            self.resident@.dom().contains(k),
        ensures
            key_ok(k),
    {
        assert(self.owns_places(k));
    }

    /// Remembering cells that fit a brick keeps the packer well-formed.
    proof fn lemma_refilled(&self, o: &ResidentPacker, k: Key)
        requires
            o.wf(),
            o.resident@.dom().contains(k),
            self.slots == o.slots,
            self.index_pool == o.index_pool,
            self.palette_pool == o.palette_pool,
            self.resident == o.resident,
            self.last_meta == o.last_meta,
            self.last_aabb == o.last_aabb,
            self.last_voxels@ == o.last_voxels@.insert(
                o.resident@[k].slot,
                self.last_voxels@[o.resident@[k].slot],
            ),
            self.fits_cells(self.resident@[k], self.last_voxels@[o.resident@[k].slot]@),
        ensures
            self.wf(),
    {
        assert(o.owns_places(k));
        assert forall|j: Key| #[trigger] self.resident@.dom().contains(j) implies self.owns_places(j) by {
            assert(o.owns_places(j));
        }
        assert forall|s: u32| self.free_slot(s) == o.free_slot(s) by {}
        assert forall|s: u32| #[trigger] self.last_meta@.dom().contains(s) implies s < self.slots.cap() && (
        self.free_slot(s) ==> self.last_meta@[s] == zero_meta()) by {
            assert(o.last_meta@.dom().contains(s));
        }
        assert forall|s: u32| #[trigger] self.last_aabb@.dom().contains(s) implies s < self.slots.cap() && (
        self.free_slot(s) ==> self.last_aabb@[s] == GpuBrickAabb::Degenerate) by {
            assert(o.last_aabb@.dom().contains(s));
        }
        assert forall|s: u32| #[trigger] self.last_voxels@.dom().contains(s) implies !self.free_slot(s)
            && self.fits_cells(self.resident@[self.slots.owners()[s]->Held_0], self.last_voxels@[s]@) by {
            if s != o.resident@[k].slot {
                assert(o.last_voxels@.dom().contains(s));
            }
        }
    }

    /// Taking buffers of new sizes changes nothing else.
    proof fn lemma_committed(&self, o: &ResidentPacker)
        requires
            o.wf(),
            self.index_pool.wf(),
            self.palette_pool.wf(),
            self.index_pool.sizes() == o.index_pool.sizes(),
            self.index_pool.layout() == o.index_pool.layout(),
            self.index_pool.owners() == o.index_pool.owners(),
            self.palette_pool.sizes() == o.palette_pool.sizes(),
            self.palette_pool.layout() == o.palette_pool.layout(),
            self.palette_pool.owners() == o.palette_pool.owners(),
            self.slots == o.slots,
            self.resident == o.resident,
            self.last_meta == o.last_meta,
            self.last_aabb == o.last_aabb,
            self.last_voxels == o.last_voxels,
        ensures
            self.wf(),
    {
        assert forall|k: Key| #[trigger] self.resident@.dom().contains(k) implies self.owns_places(k) by {
            assert(o.owns_places(k));
        }
        assert forall|s: u32| self.free_slot(s) == o.free_slot(s) by {}
        assert forall|s: u32| #[trigger] self.last_meta@.dom().contains(s) implies s < self.slots.cap() && (
        self.free_slot(s) ==> self.last_meta@[s] == zero_meta()) by {
            assert(o.last_meta@.dom().contains(s));
        }
        assert forall|s: u32| #[trigger] self.last_aabb@.dom().contains(s) implies s < self.slots.cap() && (
        self.free_slot(s) ==> self.last_aabb@[s] == GpuBrickAabb::Degenerate) by {
            assert(o.last_aabb@.dom().contains(s));
        }
        assert forall|s: u32| #[trigger] self.last_voxels@.dom().contains(s) implies !self.free_slot(s)
            && self.fits_cells(self.resident@[self.slots.owners()[s]->Held_0], self.last_voxels@[s]@) by {
            assert(o.last_voxels@.dom().contains(s));
        }
    }
}

} // verus!
