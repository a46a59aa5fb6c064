//! Full buffers made from what a packer remembers.

use super::{
    cells_of, class_of_voxels, content, copy_words, dense_matches, lemma_content_len, pack_key, remembers,
    stores, stream_words, PackerState, ResidentPacker, SlotState,
};
use crate::brickmap::{Brick, Key};
use crate::fxmap::{fx_contains, fx_get, fx_insert, fx_keys, fx_len};
use crate::gpu::{degenerate_aabb, zero_meta, GpuBrickAabb, GpuBrickMeta};
use crate::pack::{
    blocks_behind, bricks_wf, build_by_key, entries_wf, key_ok, lemma_resident_blocks, resident_blocks,
    Blocks, BrickVoxels, PackedBrick, ResidentBrick, VoxelsView,
};
use crate::palette::{BlockId, BlockRegistry};
use crate::paletted::{
    encode_paletted, index_stream, lemma_first_seen, lemma_index_stream, palette_words,
    widen_palette, words_at, PalettedBrick,
};
use crate::patch::{
    all_lights, any_glows, assemble_patch, has_bricks, is_light_list, is_ranking, mirrors_looks, packed_contents,
    registry_palette, EmissiveVoxel, GpuBrickPatch, GpuPaletteColor,
};
use crate::pools::capacity_for;
use crate::sort::{brightest_first, ranked_before};
use rustc_hash::FxHashMap;
use vstd::prelude::*;

verus! {

/// Full buffers of fixed capacity for a packer's bricks.
#[derive(Clone, Debug)]
pub struct SnapshotBuffers {
    /// One box per slot; degenerate where the slot is unused.
    pub aabbs: Vec<GpuBrickAabb>,
    /// One meta per slot; zero where the slot is unused.
    pub metas: Vec<GpuBrickMeta>,
    /// The index pool: the index stream of every dense brick at its offset, and zeros.
    pub indices: Vec<u32>,
    /// The palette pool: the palette of every dense brick at its offset, and zeros.
    pub brick_palettes: Vec<u32>,
    /// The colours of the registry's blocks.
    pub palette: Vec<GpuPaletteColor>,
    /// The number of resident bricks.
    pub brick_count: u32,
}

/// What a set of buffers of fixed capacity holds.
pub struct Buffers {
    pub metas: Seq<GpuBrickMeta>,
    pub aabbs: Seq<GpuBrickAabb>,
    pub indices: Seq<u32>,
    pub palettes: Seq<u32>,
}

impl SnapshotBuffers {
    /// What the buffers hold.
    pub open spec fn held(&self) -> Buffers {
        Buffers {
            metas: self.metas@,
            aabbs: self.aabbs@,
            indices: self.indices@,
            palettes: self.brick_palettes@,
        }
    }
}

/// Whether brick `k` is a dense brick whose cells are remembered.
pub open spec fn has_cells(st: PackerState, k: Key) -> bool {
    st.resident.dom().contains(k) && st.resident[k].dense is Some && st.cells.dom().contains(
        st.resident[k].slot,
    )
}

/// Whether the buffers hold the index stream and the palette of brick `k` at its offsets.
pub open spec fn holds_words(b: Buffers, st: PackerState, k: Key) -> bool {
    let d = st.resident[k].dense->0;
    let cells = st.cells[st.resident[k].slot];
    &&& words_at(b.indices, d.index_offset as int, index_stream(cells))
    &&& words_at(b.palettes, d.palette_offset as int, palette_words(cells))
}

/// Whether the buffers show what the packer says that they show: at every slot the meta and box that it
/// remembers, or those of an unused slot, and at the offsets of every dense brick whose cells it
/// remembers their index stream and palette.
pub open spec fn mirrors(b: Buffers, st: PackerState, capacity: int) -> bool {
    &&& b.metas.len() == capacity
    &&& b.aabbs.len() == capacity
    &&& forall|s: u32|
        s < capacity ==> (#[trigger] b.metas[s as int]) == (if st.metas.dom().contains(s) {
            st.metas[s]
        } else {
            zero_meta()
        })
    &&& forall|s: u32|
        s < capacity ==> (#[trigger] b.aabbs[s as int]) == (if st.aabbs.dom().contains(s) {
            st.aabbs[s]
        } else {
            GpuBrickAabb::Degenerate
        })
    &&& forall|k: Key| #[trigger] has_cells(st, k) ==> holds_words(b, st, k)
}

/// Whether word `i` of the index pool belongs to a brick whose cells are remembered.
pub open spec fn in_index(st: PackerState, i: int) -> bool {
    exists|k: Key| #[trigger]
        has_cells(st, k) && st.resident[k].dense->0.index_offset <= i
            < st.resident[k].dense->0.index_offset + stream_words(st.resident[k].dense->0.index_bits)
}

/// Whether word `i` of the palette pool belongs to a brick whose cells are remembered.
pub open spec fn in_palette(st: PackerState, i: int) -> bool {
    exists|k: Key| #[trigger]
        has_cells(st, k) && st.resident[k].dense->0.palette_offset <= i
            < st.resident[k].dense->0.palette_offset + st.resident[k].dense->0.palette_k
}

/// The buffer with the words `w` written from `off` on.
pub open spec fn write_at(buf: Seq<u32>, off: int, w: Seq<u32>) -> Seq<u32> {
    Seq::new(buf.len(), |i: int| if off <= i < off + w.len() { w[i - off] } else { buf[i] })
}

/// Words written elsewhere leave words as they are.
pub proof fn lemma_write_apart(buf: Seq<u32>, off: int, w: Seq<u32>, at: int, v: Seq<u32>)
    requires
        words_at(buf, at, v),
        off + w.len() <= at || at + v.len() <= off,
    ensures
        words_at(write_at(buf, off, w), at, v),
{
    let b = write_at(buf, off, w);
    assert forall|j: int| 0 <= j < v.len() implies #[trigger] b[at + j] == v[j] by {
        assert(buf[at + j] == v[j]);
    }
}

/// Words that were written are there.
pub proof fn lemma_write_there(buf: Seq<u32>, off: int, w: Seq<u32>)
    requires
        0 <= off,
        off + w.len() <= buf.len(),
    ensures
        words_at(write_at(buf, off, w), off, w),
{
}

fn zero_words(n: usize) -> (r: Vec<u32>)
    ensures
        r@.len() == n,
        forall|i: int| 0 <= i < n ==> r@[i] == 0,
{
    let mut r: Vec<u32> = Vec::with_capacity(n);
    let mut i: usize = 0;
    while i < n
        invariant
            i <= n,
            r@.len() == i,
            forall|j: int| 0 <= j < i ==> r@[j] == 0,
        decreases n - i,
    {
        r.push(0);
        i = i + 1;
    }
    r
}

fn write_words(buf: &mut Vec<u32>, off: usize, w: &Vec<u32>)
    requires
        off + w@.len() <= old(buf)@.len(),
    ensures
        final(buf)@ == write_at(old(buf)@, off as int, w@),
{
    let mut i: usize = 0;
    assert(buf@ =~= write_at(old(buf)@, off as int, w@.take(0)));
    while i < w.len()
        invariant
            i <= w@.len(),
            off + w@.len() <= old(buf)@.len(),
            buf@.len() == old(buf)@.len(),
            buf@ == write_at(old(buf)@, off as int, w@.take(i as int)),
        decreases w@.len() - i,
    {
        assert(buf.len() == buf@.len());
        buf.set(off + i, w[i]);
        proof {
            assert(buf@ =~= write_at(old(buf)@, off as int, w@.take(i + 1)));
        }
        i = i + 1;
    }
    assert(w@.take(i as int) =~= w@);
}

impl ResidentPacker {
    /// The metas and boxes of all slots.
    fn slot_buffers(&self) -> (r: (Vec<GpuBrickMeta>, Vec<GpuBrickAabb>))
        requires
            self.wf(),
        ensures
            r.0@.len() == self.slot_cap(),
            r.1@.len() == self.slot_cap(),
            forall|s: u32|
                s < self.slot_cap() ==> (#[trigger] r.0@[s as int]) == (if self.state().metas.dom().contains(
                    s,
                ) {
                    self.state().metas[s]
                } else {
                    zero_meta()
                }),
            forall|s: u32|
                s < self.slot_cap() ==> (#[trigger] r.1@[s as int]) == (if self.state().aabbs.dom().contains(
                    s,
                ) {
                    self.state().aabbs[s]
                } else {
                    GpuBrickAabb::Degenerate
                }),
    {
        let cap: u32 = self.slots.capacity();
        let mut metas: Vec<GpuBrickMeta> = Vec::with_capacity(cap as usize);
        let mut aabbs: Vec<GpuBrickAabb> = Vec::with_capacity(cap as usize);
        let mut s: u32 = 0;
        while s < cap
            invariant
                s <= cap,
                cap == self.slot_cap(),
                metas@.len() == s,
                aabbs@.len() == s,
                forall|t: u32|
                    t < s ==> (#[trigger] metas@[t as int]) == (if self.state().metas.dom().contains(t) {
                        self.state().metas[t]
                    } else {
                        zero_meta()
                    }),
                forall|t: u32|
                    t < s ==> (#[trigger] aabbs@[t as int]) == (if self.state().aabbs.dom().contains(t) {
                        self.state().aabbs[t]
                    } else {
                        GpuBrickAabb::Degenerate
                    }),
            decreases cap - s,
        {
            metas.push(match fx_get(&self.last_meta, s) {
                Some(m) => *m,
                None => GpuBrickMeta::zeroed(),
            });
            aabbs.push(match fx_get(&self.last_aabb, s) {
                Some(b) => *b,
                None => degenerate_aabb(),
            });
            s = s + 1;
        }
        (metas, aabbs)
    }

    /// Build the full buffers and take them as the ones that later updates patch: the pools' buffers get
    /// room to grow, and the growth mark is cleared.
    pub fn snapshot_buffers(&mut self, registry: &BlockRegistry) -> (r: SnapshotBuffers)
        requires
            old(self).wf(),
            registry.wf(),
        ensures
            final(self).wf(),
            final(self).state() == old(self).state(),
            final(self).places() == old(self).places(),
            final(self).slot_cap() == old(self).slot_cap(),
            final(self).rewrites() == old(self).rewrites(),
            final(self).stride() == old(self).stride(),
            Self::same_awaited(old(self), final(self)),
            final(self).index_used() == old(self).index_used(),
            final(self).palette_used() == old(self).palette_used(),
            final(self).index_floor() == old(self).index_floor(),
            final(self).palette_floor() == old(self).palette_floor(),
            final(self).index_cap() == capacity_for(
                old(self).index_used(),
                500,
                old(self).index_floor(),
            ),
            final(self).palette_cap() == capacity_for(
                old(self).palette_used(),
                65536,
                old(self).palette_floor(),
            ),
            !final(self).grown(),
            mirrors(r.held(), final(self).state(), final(self).slot_cap()),
            r.indices@.len() == final(self).index_cap(),
            r.brick_palettes@.len() == final(self).palette_cap(),
            forall|i: int|
                0 <= i < r.indices@.len() && !in_index(final(self).state(), i) ==> #[trigger] r.indices@[i]
                    == 0,
            forall|i: int|
                0 <= i < r.brick_palettes@.len() && !in_palette(final(self).state(), i)
                    ==> #[trigger] r.brick_palettes@[i] == 0,
            mirrors_looks(r.palette@, registry@),
            r.brick_count == final(self).state().resident.dom().len(),
    {
        let (metas, aabbs) = self.slot_buffers();
        let ghost o = *self;
        let index_cap: usize = self.index_pool.commit();
        let palette_cap: usize = self.palette_pool.commit();
        proof {
            self.lemma_committed(&o);
        }
        let mut indices: Vec<u32> = zero_words(index_cap);
        let mut brick_palettes: Vec<u32> = zero_words(palette_cap);
        let keys: Vec<Key> = fx_keys(&self.resident);
        let ghost st = self.state();
        let mut i: usize = 0;
        while i < keys.len()
            invariant
                i <= keys@.len(),
                self.wf(),
                !self.grown(),
                st == self.state(),
                keys@.no_duplicates(),
                forall|k: Key| #[trigger] st.resident.dom().contains(k) <==> keys@.contains(k),
                indices@.len() == self.index_cap(),
                brick_palettes@.len() == self.palette_cap(),
                forall|j: int|
                    0 <= j < i && has_cells(st, #[trigger] keys@[j]) ==> holds_words(
                        Buffers {
                            metas: Seq::empty(),
                            aabbs: Seq::empty(),
                            indices: indices@,
                            palettes: brick_palettes@,
                        },
                        st,
                        keys@[j],
                    ),
                forall|w: int|
                    0 <= w < indices@.len() && !in_index(st, w) ==> #[trigger] indices@[w] == 0,
                forall|w: int|
                    0 <= w < brick_palettes@.len() && !in_palette(st, w)
                        ==> #[trigger] brick_palettes@[w] == 0,
            decreases keys@.len() - i,
        {
            let key: Key = keys[i];
            proof {
                assert(keys@.contains(keys@[i as int]));
                assert(st.resident.dom().contains(key));
            }
            let place: SlotState = *fx_get(&self.resident, key).unwrap();
            if let Some(d) = place.dense {
                if let Some(cells) = fx_get(&self.last_voxels, place.slot) {
                    proof {
                        self.lemma_cells_fit(key);
                        self.law_places_are_disjoint(key, key);
                        lemma_index_stream(cells@);
                        lemma_first_seen(cells@);
                    }
                    let pb: PalettedBrick = encode_paletted(cells);
                    let words: Vec<u32> = widen_palette(&pb.palette);
                    let ghost indices0 = indices@;
                    let ghost palettes0 = brick_palettes@;
                    write_words(&mut indices, d.index_offset as usize, &pb.indices);
                    write_words(&mut brick_palettes, d.palette_offset as usize, &words);
                    proof {
                        assert(st.cells[place.slot] == cells@);
                        lemma_write_there(indices0, d.index_offset as int, pb.indices@);
                        lemma_write_there(palettes0, d.palette_offset as int, words@);
                        assert(has_cells(st, key));
                        assert forall|j: int|
                            0 <= j < i + 1 && has_cells(st, #[trigger] keys@[j]) implies holds_words(
                            Buffers {
                                metas: Seq::empty(),
                                aabbs: Seq::empty(),
                                indices: indices@,
                                palettes: brick_palettes@,
                            },
                            st,
                            keys@[j],
                        ) by {
                            if j < i {
                                let k = keys@[j];
                                let e = st.resident[k].dense->0;
                                let c = st.cells[st.resident[k].slot];
                                assert(k != key);
                                self.lemma_cells_fit(k);
                                self.law_places_are_disjoint(key, k);
                                lemma_index_stream(c);
                                lemma_write_apart(
                                    indices0,
                                    d.index_offset as int,
                                    pb.indices@,
                                    e.index_offset as int,
                                    index_stream(c),
                                );
                                lemma_write_apart(
                                    palettes0,
                                    d.palette_offset as int,
                                    words@,
                                    e.palette_offset as int,
                                    palette_words(c),
                                );
                            }
                        }
                        assert forall|w: int| 0 <= w < indices@.len() && !in_index(st, w) implies #[trigger] indices@[w]
                            == 0 by {
                            assert(indices0[w] == 0);
                        }
                        assert forall|w: int|
                            0 <= w < brick_palettes@.len() && !in_palette(st, w) implies #[trigger] brick_palettes@[w]
                            == 0 by {
                            assert(palettes0[w] == 0);
                        }
                    }
                }
            }
            i = i + 1;
        }
        let palette: Vec<GpuPaletteColor> = registry_palette(registry);
        let n: usize = fx_len(&self.resident);
        proof {
            self.lemma_count();
        }
        let r: SnapshotBuffers = SnapshotBuffers {
            aabbs,
            metas,
            indices,
            brick_palettes,
            palette,
            brick_count: n as u32,
        };
        proof {
            assert forall|k: Key| #[trigger] has_cells(st, k) implies holds_words(r.held(), st, k) by {
                assert(keys@.contains(k));
                let j = choose|j: int| 0 <= j < keys@.len() && keys@[j] == k;
                assert(has_cells(st, keys@[j]));
            }
        }
        r
    }
}

/// What a packer remembers of the content of brick `k`: its cells, or the block in its meta.
pub open spec fn remembered(st: PackerState, k: Key) -> VoxelsView {
    let p = st.resident[k];
    match p.dense {
        Some(_) => VoxelsView::Dense(st.cells[p.slot]),
        None => VoxelsView::Uniform(BlockId((st.metas[p.slot].voxel_offset % 0x1_0000) as u16)),
    }
}

/// Whether a packer remembers every brick in full: its slot shows its content, and the cells of a dense
/// brick are there.
pub open spec fn complete(st: PackerState) -> bool {
    forall|k: Key| #[trigger]
        st.resident.dom().contains(k) ==> stores(st, k, remembered(st, k)) && (st.resident[k].dense is Some
            ==> st.cells.dom().contains(st.resident[k].slot))
}

/// Whether `ks` lists the resident bricks, each once, in ascending order of their slots.
pub open spec fn in_slot_order(st: PackerState, ks: Seq<Key>) -> bool {
    &&& forall|k: Key| #[trigger] ks.contains(k) <==> st.resident.dom().contains(k)
    &&& forall|i: int, j: int|
        0 <= i < j < ks.len() ==> st.resident[#[trigger] ks[i]].slot < st.resident[#[trigger] ks[j]].slot
}

/// The cells that are remembered of brick `k` once it was looked up in the set `m`.
pub open spec fn refilled(st: PackerState, m: Blocks, k: Key) -> Option<Seq<u32>> {
    if has_cells(st, k) {
        Some(st.cells[st.resident[k].slot])
    } else if st.resident[k].dense is Some && m.dom().contains(k) {
        cells_of(content(m, k))
    } else {
        None
    }
}

impl ResidentPacker {
    /// Remember again the cells of every dense brick of which they were forgotten, by packing it anew.
    /// `entries` is the set that the packer was last reconciled with.
    pub fn repopulate_last_voxels(&mut self, entries: &[ResidentBrick<'_>])
        requires
            old(self).wf(),
            entries_wf(entries@),
            forall|k: Key| #[trigger]
                old(self).state().resident.dom().contains(k) && old(self).state().resident[k].dense is Some
                    && resident_blocks(entries@).dom().contains(k) && content(
                    resident_blocks(entries@),
                    k,
                ) is Dense ==> dense_matches(
                    class_of_voxels(content(resident_blocks(entries@), k)),
                    old(self).state().resident[k].dense,
                ),
        ensures
            final(self).wf(),
            final(self).places() == old(self).places(),
            final(self).state().resident == old(self).state().resident,
            final(self).state().metas == old(self).state().metas,
            final(self).state().aabbs == old(self).state().aabbs,
            forall|k: Key| #[trigger]
                final(self).state().resident.dom().contains(k) ==> remembers(
                    final(self).state(),
                    k,
                    refilled(old(self).state(), resident_blocks(entries@), k),
                ),
            Self::same_sizes(old(self), final(self)),
            final(self).rewrites() == old(self).rewrites(),
            final(self).stride() == old(self).stride(),
            Self::same_awaited(old(self), final(self)),
    {
        let by_key: FxHashMap<Key, &Brick> = build_by_key(entries);
        let ghost o = *self;
        let ghost a = self.state();
        let ghost m = resident_blocks(entries@);
        let keys: Vec<Key> = fx_keys(&self.resident);
        proof {
            lemma_resident_blocks(entries@);
            assert forall|k: Key| #[trigger] m.dom().contains(k) implies key_ok(k) by {
                let w = choose|w: int| 0 <= w < entries@.len() && (#[trigger] entries@[w]).key_spec() == k;
                assert(entries@[w].wf());
            }
        }
        let mut i: usize = 0;
        while i < keys.len()
            invariant
                i <= keys@.len(),
                o.wf(),
                a == o.state(),
                bricks_wf(by_key@),
                blocks_behind(by_key@) == m,
                by_key@.dom() == m.dom(),
                forall|k: Key| #[trigger] m.dom().contains(k) ==> key_ok(k),
                keys@.no_duplicates(),
                forall|k: Key| #[trigger] a.resident.dom().contains(k) <==> keys@.contains(k),
                forall|k: Key| #[trigger]
                    a.resident.dom().contains(k) && a.resident[k].dense is Some && m.dom().contains(k)
                        && content(m, k) is Dense ==> dense_matches(
                        class_of_voxels(content(m, k)),
                        a.resident[k].dense,
                    ),
                self.wf(),
                self.slots == o.slots,
                self.index_pool == o.index_pool,
                self.palette_pool == o.palette_pool,
                self.resident == o.resident,
                self.last_meta == o.last_meta,
                self.last_aabb == o.last_aabb,
                self.pending_rewrites == o.pending_rewrites,
                self.pending_classify == o.pending_classify,
                self.palette_stride == o.palette_stride,
                forall|j: int|
                    0 <= j < i ==> remembers(self.state(), #[trigger] keys@[j], refilled(a, m, keys@[j])),
                forall|j: int|
                    i <= j < keys@.len() ==> {
                        let s = a.resident[#[trigger] keys@[j]].slot;
                        &&& self.last_voxels@.dom().contains(s) == o.last_voxels@.dom().contains(s)
                        &&& (o.last_voxels@.dom().contains(s) ==> self.last_voxels@[s]
                            == o.last_voxels@[s])
                    },
            decreases keys@.len() - i,
        {
            let key: Key = keys[i];
            proof {
                assert(keys@.contains(keys@[i as int]));
                assert(a.resident.dom().contains(key));
            }
            let place: SlotState = *fx_get(&self.resident, key).unwrap();
            let ghost before = *self;
            let ghost slot = place.slot;
            if place.dense.is_some() && !fx_contains(&self.last_voxels, place.slot) && fx_contains(
                &by_key,
                key,
            ) {
                let pb: PackedBrick = pack_key(key, &by_key);
                proof {
                    assert(blocks_behind(by_key@)[key] == by_key@[key]@);
                    assert(pb.voxels@ == content(m, key));
                }
                if let BrickVoxels::Dense(cells) = pb.voxels {
                    proof {
                        lemma_content_len(m, key);
                        lemma_first_seen(cells@);
                    }
                    fx_insert(&mut self.last_voxels, place.slot, cells);
                    proof {
                        self.lemma_refilled(&before, key);
                    }
                }
            }
            proof {
                assert forall|j: int| 0 <= j < keys@.len() && j != i implies a.resident[#[trigger] keys@[j]].slot
                    != slot by {
                    assert(keys@.contains(keys@[j]));
                    assert(a.resident.dom().contains(keys@[j]));
                    o.law_places_are_disjoint(key, keys@[j]);
                }
                assert forall|j: int| 0 <= j < i + 1 implies remembers(
                    self.state(),
                    #[trigger] keys@[j],
                    refilled(a, m, keys@[j]),
                ) by {
                    if j < i {
                        assert(remembers(before.state(), keys@[j], refilled(a, m, keys@[j])));
                        assert(a.resident[keys@[j]].slot != slot);
                    }
                }
            }
            i = i + 1;
        }
        proof {
            assert forall|k: Key| #[trigger] self.state().resident.dom().contains(k) implies remembers(
                self.state(),
                k,
                refilled(a, m, k),
            ) by {
                assert(keys@.contains(k));
                let j = choose|j: int| 0 <= j < keys@.len() && keys@[j] == k;
                assert(remembers(self.state(), keys@[j], refilled(a, m, keys@[j])));
            }
        }
    }

    /// Assemble a contiguous patch of the resident bricks, in ascending order of their slots, from what
    /// is remembered of them.
    pub fn snapshot_patch<P: Fn(EmissiveVoxel) -> u32>(&self, registry: &BlockRegistry, power_of: &P) -> (patch:
        GpuBrickPatch)
        requires
            forall|v: EmissiveVoxel| #[trigger] call_requires(*power_of, (v,)),
            self.wf(),
            registry.wf(),
            complete(self.state()),
            1000 * self.state().resident.dom().len() < 0x8000_0000,
        ensures
            exists|ks: Seq<Key>| #[trigger]
                in_slot_order(self.state(), ks) && ({
                    let contents = ks.map_values(|k: Key| remembered(self.state(), k));
                    &&& has_bricks(patch, ks, contents)
                    &&& is_light_list(
                        *power_of,
                        if any_glows(registry@) {
                            all_lights(ks, contents, registry@)
                        } else {
                            Seq::empty()
                        },
                        patch.lights@,
                    )
                }),
            mirrors_looks(patch.palette@, registry@),
    {
        let ghost st = self.state();
        let keys: Vec<Key> = fx_keys(&self.resident);
        let mut power: Vec<u32> = Vec::with_capacity(keys.len());
        let mut i: usize = 0;
        while i < keys.len()
            invariant
                i <= keys@.len(),
                st == self.state(),
                forall|k: Key| #[trigger] st.resident.dom().contains(k) <==> keys@.contains(k),
                power@.len() == i,
                forall|j: int| 0 <= j < i ==> #[trigger] power@[j] == u32::MAX - st.resident[keys@[j]].slot,
            decreases keys@.len() - i,
        {
            assert(keys@.contains(keys@[i as int]));
            let place: SlotState = *fx_get(&self.resident, keys[i]).unwrap();
            power.push(u32::MAX - place.slot);
            i = i + 1;
        }
        let order: Vec<usize> = brightest_first(&power);
        let ghost ks = Seq::new(order@.len(), |j: int| keys@[order@[j] as int]);
        assert(order.len() == order@.len());
        proof {
            self.lemma_slot_order(keys@, power@, order@, ks);
            assert(keys@.len() == st.resident.dom().len()) by {
                keys@.unique_seq_to_set();
                assert(keys@.to_set() =~= st.resident.dom());
            }
        }
        let mut bricks: Vec<PackedBrick> = Vec::with_capacity(order.len());
        let mut i: usize = 0;
        while i < order.len()
            invariant
                i <= order@.len(),
                self.wf(),
                st == self.state(),
                complete(st),
                in_slot_order(st, ks),
                ks == Seq::new(order@.len(), |j: int| keys@[order@[j] as int]),
                order@.len() == keys@.len(),
                forall|j: int| 0 <= j < order@.len() ==> (#[trigger] order@[j]) < keys@.len(),
                bricks@.len() == i,
                forall|j: int|
                    0 <= j < i ==> {
                        &&& (#[trigger] bricks@[j]).is_at(ks[j])
                        &&& ks[j].3 <= 7
                        &&& bricks@[j].voxels@ == remembered(st, ks[j])
                        &&& (bricks@[j].voxels@ matches VoxelsView::Dense(c) ==> c.len() == 1000)
                    },
            decreases order@.len() - i,
        {
            let key: Key = keys[order[i]];
            proof {
                assert(ks[i as int] == key);
                assert(ks.contains(key));
                assert(st.resident.dom().contains(key));
                self.lemma_key_ok(key);
                if st.resident[key].dense is Some {
                    self.lemma_cells_fit(key);
                }
            }
            let place: SlotState = *fx_get(&self.resident, key).unwrap();
            let aabb: GpuBrickAabb = *fx_get(&self.last_aabb, place.slot).unwrap();
            let meta: GpuBrickMeta = *fx_get(&self.last_meta, place.slot).unwrap();
            let voxels: BrickVoxels = if meta.is_uniform() {
                BrickVoxels::Uniform(meta.uniform_block())
            } else {
                BrickVoxels::Dense(copy_words(fx_get(&self.last_voxels, place.slot).unwrap()))
            };
            bricks.push(
                PackedBrick {
                    aabb,
                    voxel_origin: meta.voxel_origin,
                    world_min: meta.world_min,
                    lod: meta.lod(),
                    voxels,
                },
            );
            i = i + 1;
        }
        proof {
            let contents = ks.map_values(|k: Key| remembered(st, k));
            assert(packed_contents(bricks@) =~= contents);
        }
        assemble_patch(&bricks, registry, power_of, Ghost(ks))
    }

    proof fn lemma_slot_order(&self, keys: Seq<Key>, power: Seq<u32>, order: Seq<usize>, ks: Seq<Key>)
        requires
            self.wf(),
            keys.no_duplicates(),
            forall|k: Key| #[trigger] self.state().resident.dom().contains(k) <==> keys.contains(k),
            power.len() == keys.len(),
            forall|j: int|
                0 <= j < power.len() ==> #[trigger] power[j] == u32::MAX
                    - self.state().resident[keys[j]].slot,
            is_ranking(power, order),
            order.len() <= usize::MAX,
            ks == Seq::new(order.len(), |j: int| keys[order[j] as int]),
        ensures
            in_slot_order(self.state(), ks),
    {
        let st = self.state();
        lemma_permutation(order);
        assert forall|k: Key| #[trigger] ks.contains(k) <==> st.resident.dom().contains(k) by {
            if ks.contains(k) {
                let j = choose|j: int| 0 <= j < ks.len() && ks[j] == k;
                assert(order[j] < power.len());
                assert(keys.contains(keys[order[j] as int]));
            }
            if st.resident.dom().contains(k) {
                let j = choose|j: int| 0 <= j < keys.len() && keys[j] == k;
                assert(order.contains(j as usize));
                let w = choose|w: int| 0 <= w < order.len() && order[w] == j as usize;
                assert(ks[w] == k);
            }
        }
        assert forall|i: int, j: int| 0 <= i < j < ks.len() implies st.resident[#[trigger] ks[i]].slot
            < st.resident[#[trigger] ks[j]].slot by {
            assert(ranked_before(power, order[i], order[j]));
            assert(order[i] != order[j]);
            let a = keys[order[i] as int];
            let b = keys[order[j] as int];
            assert(keys.contains(a) && keys.contains(b));
            assert(st.resident.dom().contains(a) && st.resident.dom().contains(b));
            self.law_places_are_disjoint(a, b);
        }
    }
}

/// Distinct places below the length of their list are all the places there are.
proof fn lemma_permutation(order: Seq<usize>)
    requires
        order.no_duplicates(),
        forall|i: int| 0 <= i < order.len() ==> (#[trigger] order[i]) < order.len(),
        order.len() <= usize::MAX,
    ensures
        forall|p: usize| p < order.len() ==> #[trigger] order.contains(p),
{
    let t = order.map_values(|p: usize| p as int);
    let n = order.len() as int;
    assert(t.no_duplicates());
    t.unique_seq_to_set();
    let range = vstd::set_lib::set_int_range(0, n);
    vstd::set_lib::lemma_int_range(0, n);
    assert(t.to_set().subset_of(range)) by {
        assert forall|p: int| #[trigger] t.to_set().contains(p) implies range.contains(p) by {
            let j = choose|j: int| 0 <= j < t.len() && t[j] == p;
            assert(order[j] < order.len());
        }
    }
    vstd::set_lib::lemma_subset_equality(t.to_set(), range);
    assert forall|p: usize| p < order.len() implies #[trigger] order.contains(p) by {
        assert(range.contains(p as int));
        assert(t.to_set().contains(p as int));
        let j = choose|j: int| 0 <= j < t.len() && t[j] == p as int;
        assert(order[j] == p);
    }
}

/// Buffers that mirror a packer: a slot that it wrote has the meta and the box that it wrote there, and any other a meta of
/// zeros and a box that nothing hits. The words of a brick whose cells are known lie at its two offsets.
pub proof fn law_what_buffers_mirror(b: Buffers, st: PackerState, capacity: int, s: u32, k: Key, j: int)
    requires
        mirrors(b, st, capacity),
        s < capacity,
    ensures
        b.metas.len() == capacity && b.aabbs.len() == capacity,
        st.metas.dom().contains(s) ==> b.metas[s as int] == st.metas[s],
        !st.metas.dom().contains(s) ==> b.metas[s as int].voxel_offset == 0 && b.metas[s as int].lod_and_bits == 0
            && b.metas[s as int].palette_base == 0,
        st.aabbs.dom().contains(s) ==> b.aabbs[s as int] == st.aabbs[s],
        !st.aabbs.dom().contains(s) ==> b.aabbs[s as int] == GpuBrickAabb::Degenerate,
        st.resident.dom().contains(k) && st.cells.dom().contains(st.resident[k].slot) ==> (st.resident[k].dense matches Some(
            d,
        ) ==> {
            let cells = st.cells[st.resident[k].slot];
            &&& 0 <= j < index_stream(cells).len() ==> b.indices[d.index_offset + j] == index_stream(cells)[j]
            &&& 0 <= j < palette_words(cells).len() ==> b.palettes[d.palette_offset + j] == palette_words(cells)[j]
        }),
{
    if st.resident.dom().contains(k) && st.cells.dom().contains(st.resident[k].slot) && st.resident[k].dense is Some {
        assert(has_cells(st, k));
        assert(holds_words(b, st, k));
    }
}

/// The cells that a packer knows again after it was told the bricks: those that it knew, and for a dense brick whose cells
/// it had forgotten, those of the brick where it was told. A uniform brick has none.
pub proof fn law_cells_are_known_again(st: PackerState, m: Blocks, k: Key)
    requires
        st.resident.dom().contains(k),
    ensures
        st.resident[k].dense is Some && st.cells.dom().contains(st.resident[k].slot) ==> refilled(st, m, k) == Some(
            st.cells[st.resident[k].slot],
        ),
        st.resident[k].dense is Some && !st.cells.dom().contains(st.resident[k].slot) && m.dom().contains(k) ==> (content(
            m,
            k,
        ) matches VoxelsView::Dense(cells) ==> refilled(st, m, k) == Some(cells)),
        st.resident[k].dense is Some && !st.cells.dom().contains(st.resident[k].slot) && !m.dom().contains(k) ==> refilled(
            st,
            m,
            k,
        ) is None,
        st.resident[k].dense is None ==> refilled(st, m, k) is None,
{
}

/// Writing words changes those places of a buffer, and no others.
pub proof fn law_writing_words(buf: Seq<u32>, off: int, w: Seq<u32>, i: int)
    requires
        0 <= i < buf.len(),
    ensures
        write_at(buf, off, w).len() == buf.len(),
        off <= i < off + w.len() ==> write_at(buf, off, w)[i] == w[i - off],
        i < off || off + w.len() <= i ==> write_at(buf, off, w)[i] == buf[i],
{
}

} // verus!
