//! A packed set of bricks: the buffers that are uploaded for it.
//!
//! Every brick has a box and a meta. A dense brick also has an index stream and a palette, which it
//! shares with every other brick of the same cells. The colour palette and the list of exposed emissive
//! voxels go with them.

use crate::brickmap::{
    in_brick, local_of, owner_of, voxel_at, world_block, Brick, BrickMap, Key,
};
use crate::gpu::{
    dense_meta, halo_at, halo_cells, uniform_meta, GpuBrickAabb, GpuBrickMeta,
};
use crate::math::{Cell, IVec3};
use crate::pack::{
    blocks_behind, bricks_wf, build_by_key, coord_of, entries_wf, halo_block, key_ok,
    lemma_resident_blocks, origin_of, pack_one, packed, resident_blocks, shifted, Blocks, BrickVoxels,
    DenseLayout, PackedBrick, ResidentBrick, VoxelsView,
};
use crate::palette::{glows, BlockId, BlockLook, BlockRegistry};
use crate::paletted::{
    cells_width, encode_paletted, first_seen, id_of, index_stream, is_width, law_cells_read_back,
    lemma_first_seen, lemma_index_stream, low_mask, palette_words, widen_palette, words_at, words_for,
    PalettedBrick,
};
use crate::sort::{brightest_first, key_before, keys_ascend, ranked_before, sorted_keys};
use rustc_hash::FxHashMap;
use vstd::prelude::*;

pub mod laws;

verus! {

/// The most lights that a light list keeps.
pub const MAX_VOXEL_LIGHTS: usize = 4096;

/// One entry of the colour palette: the linear RGBA albedo and the linear RGB emissive radiance of a
/// block, each channel as the bit pattern of a float. The fourth emissive word is zero.
#[derive(Clone, Copy, Debug, PartialEq, Eq)]
pub struct GpuPaletteColor {
    pub rgba: [u32; 4],
    pub emissive: [u32; 4],
}

/// Whether a colour palette mirrors a registry's blocks, in the order of their ids.
pub open spec fn mirrors_looks(palette: Seq<GpuPaletteColor>, looks: Seq<BlockLook>) -> bool {
    &&& palette.len() == looks.len()
    &&& forall|i: int|
        0 <= i < looks.len() ==> {
            let look = looks[i % 0x1_0000];
            &&& (#[trigger] palette[i]).rgba@ == look.color
            &&& palette[i].emissive@ == look.emissive.push(0)
        }
}

/// The colour palette of a registry.
pub fn registry_palette(registry: &BlockRegistry) -> (palette: Vec<GpuPaletteColor>)
    requires
        registry.wf(),
    ensures
        mirrors_looks(palette@, registry@),
{
    let n: usize = registry.len();
    let mut palette: Vec<GpuPaletteColor> = Vec::with_capacity(n);
    let mut i: usize = 0;
    while i < n
        invariant
            registry.wf(),
            n == registry@.len(),
            i <= n,
            palette@.len() == i,
            forall|j: int|
                0 <= j < i ==> {
                    let look = registry@[j % 0x1_0000];
                    &&& (#[trigger] palette@[j]).rgba@ == look.color
                    &&& palette@[j].emissive@ == look.emissive.push(0)
                },
        decreases n - i,
    {
        let id: BlockId = BlockId((i % 0x1_0000) as u16);
        let e: [u32; 3] = registry.emissive(id);
        let c: GpuPaletteColor = GpuPaletteColor {
            rgba: registry.color(id),
            emissive: [e[0], e[1], e[2], 0],
        };
        assert(c.emissive@ =~= e@.push(0));
        palette.push(c);
        i = i + 1;
    }
    palette
}

/// Index streams and palettes, one after the other, and where those of each brick's cells lie.
pub struct Streams {
    pub indices: Seq<u32>,
    pub palettes: Seq<u32>,
    pub seen: Map<Seq<u32>, (u32, u32, u8)>,
}

/// The streams before the first brick.
pub open spec fn no_streams() -> Streams {
    Streams { indices: Seq::empty(), palettes: Seq::empty(), seen: Map::empty() }
}

/// The streams with a brick of these cells added: nothing is appended where the cells are there already.
pub open spec fn intern(s: Streams, cells: Seq<u32>) -> Streams {
    if s.seen.dom().contains(cells) {
        s
    } else {
        Streams {
            indices: s.indices + index_stream(cells),
            palettes: s.palettes + palette_words(cells),
            seen: s.seen.insert(
                cells,
                (s.indices.len() as u32, s.palettes.len() as u32, cells_width(cells) as u8),
            ),
        }
    }
}

/// Whether the streams hold, for all cells that were added, their index stream and palette where they
/// are said to lie.
pub open spec fn coherent(s: Streams) -> bool {
    forall|c: Seq<u32>| #[trigger]
        s.seen.dom().contains(c) ==> {
            let l = s.seen[c];
            &&& words_at(s.indices, l.0 as int, index_stream(c))
            &&& words_at(s.palettes, l.1 as int, palette_words(c))
            &&& l.2 == cells_width(c)
            &&& l.0 < 0x8000_0000
        }
}

/// The contents of a map from lists of words.
pub uninterp spec fn slices_of(m: FxHashMap<Box<[u32]>, (u32, u32, u8)>) -> Map<
    Seq<u32>,
    (u32, u32, u8),
>;

/// `FxHashMap::default`, for a map keyed by boxed slices: it has no entries.
#[verifier::external_body]
fn slices_new() -> (m: FxHashMap<Box<[u32]>, (u32, u32, u8)>)
    ensures
        (slices_of(m) == Map::<Seq<u32>, (u32, u32, u8)>::empty()),
{
    FxHashMap::default()
}

/// `FxHashMap::get`, for a map keyed by boxed slices: the value of the key with these words, or `None`
/// where there is none. Boxed slices are equal, and hash alike, when their words are the same.
#[verifier::external_body]
fn slices_get(m: &FxHashMap<Box<[u32]>, (u32, u32, u8)>, key: &[u32]) -> (r: Option<(u32, u32, u8)>)
    ensures
        r == (if slices_of(*m).dom().contains(key@) { Some(slices_of(*m)[key@]) } else { None }),
{
    m.get(key).copied()
}

/// `FxHashMap::insert`, for a map keyed by boxed slices: afterwards the key with these words maps to
/// `v`, and every other key maps as before.
#[verifier::external_body]
fn slices_insert(m: &mut FxHashMap<Box<[u32]>, (u32, u32, u8)>, key: &[u32], v: (u32, u32, u8))
    ensures
        slices_of(*final(m)) == slices_of(*old(m)).insert(key@, v),
{
    m.insert(key.into(), v);
}

/// Finds bricks of the same cells, so that they share one index stream and one palette.
pub struct VoxelInterner {
    seen: FxHashMap<Box<[u32]>, (u32, u32, u8)>,
}

impl VoxelInterner {
    /// Where the stream and palette of each brick's cells lie.
    pub closed spec fn seen(&self) -> Map<Seq<u32>, (u32, u32, u8)> {
        slices_of(self.seen)
    }

    /// The streams that the interner and the two buffers make up.
    pub open spec fn streams(&self, indices: Seq<u32>, palettes: Seq<u32>) -> Streams {
        Streams { indices, palettes, seen: self.seen() }
    }

    /// An interner that has seen no brick.
    pub fn new() -> (v: VoxelInterner)
        ensures
            v.seen() == Map::<Seq<u32>, (u32, u32, u8)>::empty(),
    {
        VoxelInterner { seen: slices_new() }
    }

    /// Encode `cells` and append their index stream and palette to the two buffers, or, where the same
    /// cells were interned before, append nothing. Returns where they lie.
    pub fn intern_paletted(
        &mut self,
        indices: &mut Vec<u32>,
        palettes: &mut Vec<u32>,
        cells: &[u32],
    ) -> (layout: DenseLayout)
        requires
            cells@.len() * 16 + 31 <= usize::MAX,
            old(self).seen().dom().contains(cells@) || old(indices)@.len() < 0x8000_0000 && old(
                palettes,
            )@.len() < 0x8000_0000,
        ensures
            final(self).streams(final(indices)@, final(palettes)@) == intern(
                old(self).streams(old(indices)@, old(palettes)@),
                cells@,
            ),
            ({
                let l = final(self).seen()[cells@];
                layout == DenseLayout { voxel_offset: l.0, palette_base: l.1, index_bits: l.2 }
            }),
    {
        if let Some(l) = slices_get(&self.seen, cells) {
            return DenseLayout { voxel_offset: l.0, palette_base: l.1, index_bits: l.2 };
        }
        let pb: PalettedBrick = encode_paletted(cells);
        let voxel_offset: u32 = indices.len() as u32;
        let palette_base: u32 = palettes.len() as u32;
        let index_bits: u8 = pb.index_bits;
        let mut words: Vec<u32> = pb.indices;
        let mut ids: Vec<u32> = widen_palette(&pb.palette);
        indices.append(&mut words);
        palettes.append(&mut ids);
        slices_insert(&mut self.seen, cells, (voxel_offset, palette_base, index_bits));
        DenseLayout { voxel_offset, palette_base, index_bits }
    }
}

/// Adding a brick keeps the streams coherent, and leaves what was there where it was.
pub proof fn lemma_intern(s: Streams, cells: Seq<u32>)
    requires
        coherent(s),
        s.indices.len() < 0x8000_0000,
        s.palettes.len() < 0x8000_0000,
    ensures
        coherent(intern(s, cells)),
        intern(s, cells).seen.dom().contains(cells),
        s.seen.dom().subset_of(intern(s, cells).seen.dom()),
        forall|c: Seq<u32>| #[trigger]
            s.seen.dom().contains(c) ==> intern(s, cells).seen[c] == s.seen[c],
        intern(s, cells).indices.len() <= s.indices.len() + index_stream(cells).len(),
        intern(s, cells).palettes.len() <= s.palettes.len() + first_seen(cells).len(),
{
    let t = intern(s, cells);
    if !s.seen.dom().contains(cells) {
        assert forall|c: Seq<u32>| #[trigger] t.seen.dom().contains(c) implies {
            let l = t.seen[c];
            &&& words_at(t.indices, l.0 as int, index_stream(c))
            &&& words_at(t.palettes, l.1 as int, palette_words(c))
            &&& l.2 == cells_width(c)
            &&& l.0 < 0x8000_0000
        } by {
            if c != cells {
                assert(s.seen.dom().contains(c));
                let l = s.seen[c];
                assert forall|j: int| 0 <= j < index_stream(c).len() implies #[trigger] t.indices[l.0 + j]
                    == index_stream(c)[j] by {
                    assert(s.indices[l.0 + j] == index_stream(c)[j]);
                }
                assert forall|j: int| 0 <= j < palette_words(c).len() implies #[trigger] t.palettes[l.1
                    + j] == palette_words(c)[j] by {
                    assert(s.palettes[l.1 + j] == palette_words(c)[j]);
                }
            }
        }
    }
}

/// Bricks of the same cells share one index stream and one palette: adding cells a second time changes
/// nothing.
pub proof fn law_interning_is_idempotent(s: Streams, cells: Seq<u32>)
    ensures
        intern(intern(s, cells), cells) == intern(s, cells),
{
}

/// An emissive voxel that lights its surroundings: the brick that it is in, given by its corner in brick
/// spans of its level, the voxel's place in the brick, and its block.
#[derive(Clone, Copy, Debug, PartialEq, Eq, Structural)]
pub struct EmissiveVoxel {
    pub brick: IVec3,
    pub lod: u32,
    pub cell: IVec3,
    pub block: BlockId,
}

/// Whether cell `cell` of a brick with this meta can be read from the buffers.
pub open spec fn readable(voxels: Seq<u32>, palettes: Seq<u32>, meta: GpuBrickMeta, cell: int) -> bool {
    let off = meta.voxel_offset as int;
    let bits = (meta.lod_and_bits / 8) % 32;
    meta.voxel_offset < 0x8000_0000 ==> (if bits == 0 {
        off + cell < voxels.len()
    } else {
        &&& off + (cell * bits) / 32 < voxels.len()
        &&& meta.palette_base + local_index(voxels, meta, cell) < palettes.len()
    })
}

/// The palette index of cell `cell` of a dense brick.
pub open spec fn local_index(voxels: Seq<u32>, meta: GpuBrickMeta, cell: int) -> u32 {
    let bits = (meta.lod_and_bits / 8) % 32;
    (voxels[meta.voxel_offset + (cell * bits) / 32] >> (((cell * bits) % 32) as u32)) & low_mask(
        bits as nat,
    )
}

/// The block of cell `cell` of a brick with this meta: that of the meta where the brick is uniform, the
/// word itself where the stream has no palette, else the palette entry that the cell's index names.
pub open spec fn cell_id(voxels: Seq<u32>, palettes: Seq<u32>, meta: GpuBrickMeta, cell: int) -> BlockId {
    if meta.voxel_offset >= 0x8000_0000 {
        BlockId((meta.voxel_offset % 0x1_0000) as u16)
    } else if (meta.lod_and_bits / 8) % 32 == 0 {
        BlockId(id_of(voxels[meta.voxel_offset + cell]))
    } else {
        BlockId(id_of(palettes[meta.palette_base + local_index(voxels, meta, cell)]))
    }
}

/// Read the block of cell `cell` of the brick with the given meta.
fn read_cell(voxels: &[u32], palettes: &[u32], meta: &GpuBrickMeta, cell: usize) -> (b: BlockId)
    requires
        cell < 1000,
        readable(voxels@, palettes@, *meta, cell as int),
    ensures
        b == cell_id(voxels@, palettes@, *meta, cell as int),
{
    if meta.is_uniform() {
        return meta.uniform_block();
    }
    let off: usize = meta.dense_offset() as usize;
    let bits: u8 = meta.index_bits();
    if bits == 0 {
        return BlockId(voxels[off + cell] as u16);
    }
    assert(cell * bits <= 1000 * 32) by (nonlinear_arith)
        requires
            cell < 1000,
            bits < 32,
    ;
    let bit: usize = cell * bits as usize;
    let b: u32 = bits as u32;
    assert(1u32 << b >= 1) by (bit_vector)
        requires
            b < 32,
    ;
    let mask: u32 = (1u32 << b) - 1;
    let word: usize = off + bit / 32;
    let local: u32 = (voxels[word] >> ((bit % 32) as u32)) & mask;
    assert(local == local_index(voxels@, *meta, cell as int));
    assert(palettes.len() == palettes@.len());
    let at: usize = meta.palette_base as usize + local as usize;
    BlockId(palettes[at] as u16)
}

/// Whether the voxel at cell `i` of a haloed grid has a face to the air.
pub open spec fn has_air_face(ids: spec_fn(int) -> BlockId, i: int) -> bool {
    ||| ids(i + 1) == BlockId::air()
    ||| ids(i - 1) == BlockId::air()
    ||| ids(i + 10) == BlockId::air()
    ||| ids(i - 10) == BlockId::air()
    ||| ids(i + 100) == BlockId::air()
    ||| ids(i - 100) == BlockId::air()
}

/// The look of a block: an id out of range looks like block zero.
pub open spec fn look_of(looks: Seq<BlockLook>, b: BlockId) -> BlockLook {
    if b.0 < looks.len() {
        looks[b.0 as int]
    } else {
        looks[0]
    }
}

/// The cell of a haloed grid that voxel `j` of the brick has.
pub open spec fn core_at(j: int) -> int {
    halo_at(j % 8 + 1, (j / 8) % 8 + 1, j / 64 + 1)
}

/// Whether voxel `j` of a brick with the given haloed grid is a light: it is not air, its block emits,
/// and it has a face to the air.
pub open spec fn is_light(ids: spec_fn(int) -> BlockId, looks: Seq<BlockLook>, j: int) -> bool {
    let b = ids(core_at(j));
    b != BlockId::air() && look_of(looks, b).emits && has_air_face(ids, core_at(j))
}

/// The lights among the first `n` voxels of a brick.
pub open spec fn lights_before(
    ids: spec_fn(int) -> BlockId,
    looks: Seq<BlockLook>,
    brick: IVec3,
    lod: u32,
    n: nat,
) -> Seq<EmissiveVoxel>
    decreases n,
{
    if n == 0 {
        Seq::empty()
    } else {
        let before = lights_before(ids, looks, brick, lod, (n - 1) as nat);
        let j = n - 1;
        if is_light(ids, looks, j) {
            before.push(
                EmissiveVoxel {
                    brick,
                    lod,
                    cell: IVec3 { x: (j % 8) as i32, y: ((j / 8) % 8) as i32, z: (j / 64) as i32 },
                    block: ids(core_at(j)),
                },
            )
        } else {
            before
        }
    }
}

/// A brick has no lights where no block emits.
pub proof fn lemma_dark(ids: spec_fn(int) -> BlockId, looks: Seq<BlockLook>, brick: IVec3, lod: u32, n: nat)
    requires
        looks.len() > 0,
        forall|i: int| 0 <= i < looks.len() ==> !(#[trigger] looks[i]).emits,
    ensures
        lights_before(ids, looks, brick, lod, n).len() == 0,
    decreases n,
{
    if n > 0 {
        lemma_dark(ids, looks, brick, lod, (n - 1) as nat);
    }
}

/// The lights of a brick whose haloed grid is `ids`.
pub open spec fn brick_lights(
    ids: spec_fn(int) -> BlockId,
    looks: Seq<BlockLook>,
    brick: IVec3,
    lod: u32,
) -> Seq<EmissiveVoxel> {
    lights_before(ids, looks, brick, lod, 512)
}

/// The haloed grid of the brick with this meta, as it reads from the buffers.
pub open spec fn read_grid(
    voxels: Seq<u32>,
    palettes: Seq<u32>,
    meta: GpuBrickMeta,
) -> spec_fn(int) -> BlockId {
    |i: int| cell_id(voxels, palettes, meta, i)
}

/// Append the lights of one brick, read from the buffers.
fn gather_lights_into(
    found: &mut Vec<EmissiveVoxel>,
    voxels: &[u32],
    palettes: &[u32],
    registry: &BlockRegistry,
    meta: &GpuBrickMeta,
)
    requires
        registry.wf(),
        forall|i: int| 0 <= i < 1000 ==> #[trigger] readable(voxels@, palettes@, *meta, i),
    ensures
        final(found)@ == old(found)@ + brick_lights(
            read_grid(voxels@, palettes@, *meta),
            registry@,
            meta.world_min,
            (meta.lod_and_bits % 8) as u32,
        ),
{
    let lod: u32 = meta.lod();
    let ghost ids = read_grid(voxels@, palettes@, *meta);
    let mut j: usize = 0;
    assert(found@ =~= old(found)@ + lights_before(ids, registry@, meta.world_min, lod, 0));
    while j < 512
        invariant
            j <= 512,
            registry.wf(),
            forall|i: int| 0 <= i < 1000 ==> #[trigger] readable(voxels@, palettes@, *meta, i),
            ids == read_grid(voxels@, palettes@, *meta),
            lod == meta.lod_and_bits % 8,
            found@ == old(found)@ + lights_before(ids, registry@, meta.world_min, lod, j as nat),
        decreases 512 - j,
    {
        let x: usize = j % 8;
        let y: usize = (j / 8) % 8;
        let z: usize = j / 64;
        let at: usize = (x + 1) + (y + 1) * 10 + (z + 1) * 100;
        assert(at == core_at(j as int));
        let ghost before = found@;
        assert(readable(voxels@, palettes@, *meta, at as int));
        let block: BlockId = read_cell(voxels, palettes, meta, at);
        if !block.is_air() && registry.emits(block) {
            assert(readable(voxels@, palettes@, *meta, at + 1));
            assert(readable(voxels@, palettes@, *meta, at - 1));
            assert(readable(voxels@, palettes@, *meta, at + 10));
            assert(readable(voxels@, palettes@, *meta, at - 10));
            assert(readable(voxels@, palettes@, *meta, at + 100));
            assert(readable(voxels@, palettes@, *meta, at - 100));
            let exposed: bool = read_cell(voxels, palettes, meta, at + 1).is_air() || read_cell(
                voxels,
                palettes,
                meta,
                at - 1,
            ).is_air() || read_cell(voxels, palettes, meta, at + 10).is_air() || read_cell(
                voxels,
                palettes,
                meta,
                at - 10,
            ).is_air() || read_cell(voxels, palettes, meta, at + 100).is_air() || read_cell(
                voxels,
                palettes,
                meta,
                at - 100,
            ).is_air();
            if exposed {
                found.push(
                    EmissiveVoxel {
                        brick: meta.world_min,
                        lod,
                        cell: IVec3 { x: x as i32, y: y as i32, z: z as i32 },
                        block,
                    },
                );
            }
        }
        proof {
            let a = lights_before(ids, registry@, meta.world_min, lod, j as nat);
            let b = lights_before(ids, registry@, meta.world_min, lod, (j + 1) as nat);
            assert(registry@[registry.slot_of(block)] == look_of(registry@, block));
            assert(found@ =~= old(found)@ + b);
        }
        j = j + 1;
    }
}

/// The streams of a list of bricks, added one after the other.
pub open spec fn streams_of(contents: Seq<VoxelsView>) -> Streams
    decreases contents.len(),
{
    if contents.len() == 0 {
        no_streams()
    } else {
        let before = streams_of(contents.drop_last());
        match contents.last() {
            VoxelsView::Uniform(_) => before,
            VoxelsView::Dense(cells) => intern(before, cells),
        }
    }
}

/// The meta of the brick at `k` with content `v`, whose stream and palette lie where `s` says.
pub open spec fn patch_meta(s: Streams, k: Key, v: VoxelsView) -> GpuBrickMeta {
    match v {
        VoxelsView::Uniform(b) => uniform_meta(origin_of(k), b, coord_of(k), k.3),
        VoxelsView::Dense(cells) => {
            let l = s.seen[cells];
            dense_meta(origin_of(k), l.0, coord_of(k), k.3, l.2, l.1)
        },
    }
}

/// The haloed grid of a dense brick.
pub open spec fn cells_grid(cells: Seq<u32>) -> spec_fn(int) -> BlockId {
    |i: int| BlockId(id_of(cells[i]))
}

/// The lights of the brick at `k` with content `v`. A uniform brick is buried and has none.
pub open spec fn content_lights(k: Key, v: VoxelsView, looks: Seq<BlockLook>) -> Seq<EmissiveVoxel> {
    match v {
        VoxelsView::Uniform(_) => Seq::empty(),
        VoxelsView::Dense(cells) => brick_lights(cells_grid(cells), looks, coord_of(k), k.3),
    }
}

/// The lights of a list of bricks, brick by brick.
pub open spec fn all_lights(
    keys: Seq<Key>,
    contents: Seq<VoxelsView>,
    looks: Seq<BlockLook>,
) -> Seq<EmissiveVoxel>
    decreases keys.len(),
{
    if keys.len() == 0 {
        Seq::empty()
    } else {
        all_lights(keys.drop_last(), contents.drop_last(), looks) + content_lights(
            keys.last(),
            contents.last(),
            looks,
        )
    }
}

/// A buffer for upload: one zero word stands for no words.
pub open spec fn or_zero(words: Seq<u32>) -> Seq<u32> {
    if words.len() == 0 {
        seq![0u32]
    } else {
        words
    }
}

/// Two grids that agree on their thousand cells have the same lights.
proof fn lemma_lights_agree(
    a: spec_fn(int) -> BlockId,
    b: spec_fn(int) -> BlockId,
    looks: Seq<BlockLook>,
    brick: IVec3,
    lod: u32,
    n: nat,
)
    requires
        n <= 512,
        forall|i: int| 0 <= i < 1000 ==> #[trigger] a(i) == b(i),
    ensures
        lights_before(a, looks, brick, lod, n) == lights_before(b, looks, brick, lod, n),
    decreases n,
{
    if n > 0 {
        lemma_lights_agree(a, b, looks, brick, lod, (n - 1) as nat);
        let i = core_at(n - 1);
        assert(a(i) == b(i) && a(i + 1) == b(i + 1) && a(i - 1) == b(i - 1) && a(i + 10) == b(i + 10)
            && a(i - 10) == b(i - 10) && a(i + 100) == b(i + 100) && a(i - 100) == b(i - 100));
    }
}

/// The cells of a brick read back through its meta from the buffers that hold its stream and palette.
pub proof fn law_meta_reads_back(
    voxels: Seq<u32>,
    palettes: Seq<u32>,
    origin: IVec3,
    corner: IVec3,
    off: u32,
    base: u32,
    lod: u32,
    cells: Seq<u32>,
    i: int,
)
    requires
        0 <= i < cells.len(),
        off < 0x8000_0000,
        lod <= 7,
        words_at(voxels, off as int, index_stream(cells)),
        words_at(palettes, base as int, palette_words(cells)),
    ensures
        ({
            let meta = dense_meta(origin, off, corner, lod, cells_width(cells) as u8, base);
            &&& readable(voxels, palettes, meta, i)
            &&& cell_id(voxels, palettes, meta, i) == BlockId(id_of(cells[i]))
        }),
{
    let bits = cells_width(cells);
    let meta = dense_meta(origin, off, corner, lod, bits as u8, base);
    assert(is_width(bits));
    assert((meta.lod_and_bits / 8) % 32 == bits);
    law_cells_read_back(voxels, off as int, palettes, base as int, cells, i);
    let local = local_index(voxels, meta, i);
    let id = id_of(cells[i]);
    let w = palettes[base + local];
    assert(w == id as u32);
    assert((id as u32) as u16 == id);
}

/// The buffers of a packed set of bricks. A brick's place in `aabbs` and `metas` is its index.
#[derive(Clone, Debug)]
pub struct GpuBrickPatch {
    /// One box per brick.
    pub aabbs: Vec<GpuBrickAabb>,
    /// One meta per brick.
    pub metas: Vec<GpuBrickMeta>,
    /// The index streams of the dense bricks.
    pub voxels: Vec<u32>,
    /// The palettes of the dense bricks, one block id per word.
    pub brick_palettes: Vec<u32>,
    /// The colours of the registry's blocks.
    pub palette: Vec<GpuPaletteColor>,
    /// The exposed emissive voxels.
    pub lights: Vec<EmissiveVoxel>,
}

/// Whether the boxes, metas, streams and palettes of `p` are those of the bricks at `keys` with the given
/// contents.
pub open spec fn has_bricks(p: GpuBrickPatch, keys: Seq<Key>, contents: Seq<VoxelsView>) -> bool {
    let s = streams_of(contents);
    &&& p.aabbs@.len() == keys.len()
    &&& p.metas@.len() == keys.len()
    &&& forall|i: int|
        0 <= i < keys.len() ==> #[trigger] p.aabbs@[i] == (GpuBrickAabb::Brick {
            coord: coord_of(keys[i]),
            lod: keys[i].3,
        })
    &&& forall|i: int|
        0 <= i < keys.len() ==> #[trigger] p.metas@[i] == patch_meta(s, keys[i], contents[i])
    &&& p.voxels@ == or_zero(s.indices)
    &&& p.brick_palettes@ == or_zero(s.palettes)
}

/// Whether `p` is the patch of the bricks at `keys` with the given contents.
pub open spec fn is_patch<P: Fn(EmissiveVoxel) -> u32>(
    p: GpuBrickPatch,
    keys: Seq<Key>,
    contents: Seq<VoxelsView>,
    looks: Seq<BlockLook>,
    power_of: P,
) -> bool {
    &&& has_bricks(p, keys, contents)
    &&& mirrors_looks(p.palette@, looks)
    &&& is_light_list(power_of, all_lights(keys, contents, looks), p.lights@)
}

/// Keep the index and palette buffers from being empty: an empty one gets a single zero word, which no
/// brick refers to.
pub fn ensure_voxels_nonempty(patch: &mut GpuBrickPatch)
    ensures
        final(patch).aabbs == old(patch).aabbs,
        final(patch).metas == old(patch).metas,
        final(patch).palette == old(patch).palette,
        final(patch).lights == old(patch).lights,
        final(patch).voxels@ == or_zero(old(patch).voxels@),
        final(patch).brick_palettes@ == or_zero(old(patch).brick_palettes@),
{
    if patch.voxels.len() == 0 {
        patch.voxels.push(0);
        assert(patch.voxels@ =~= seq![0u32]);
    }
    if patch.brick_palettes.len() == 0 {
        patch.brick_palettes.push(0);
        assert(patch.brick_palettes@ =~= seq![0u32]);
    }
}

/// A patch in the making.
struct PatchBuilder {
    patch: GpuBrickPatch,
    interner: VoxelInterner,
}

impl PatchBuilder {
    /// Whether the patch holds the bricks at `keys` with the given contents, not yet ready for upload.
    spec fn holds(&self, keys: Seq<Key>, contents: Seq<VoxelsView>) -> bool {
        let s = streams_of(contents);
        &&& keys.len() == contents.len()
        &&& self.interner.streams(self.patch.voxels@, self.patch.brick_palettes@) == s
        &&& coherent(s)
        &&& s.indices.len() <= 500 * keys.len()
        &&& s.palettes.len() <= 1000 * keys.len()
        &&& self.patch.aabbs@.len() == keys.len()
        &&& self.patch.metas@.len() == keys.len()
        &&& forall|i: int|
            0 <= i < keys.len() ==> #[trigger] self.patch.aabbs@[i] == (GpuBrickAabb::Brick {
                coord: coord_of(keys[i]),
                lod: keys[i].3,
            })
        &&& forall|i: int|
            0 <= i < keys.len() ==> (#[trigger] self.patch.metas@[i]) == patch_meta(
                s,
                keys[i],
                contents[i],
            ) && (contents[i] matches VoxelsView::Dense(c) ==> s.seen.dom().contains(c))
    }

    fn new() -> (b: PatchBuilder)
        ensures
            b.holds(Seq::empty(), Seq::empty()),
            b.patch.palette@.len() == 0,
            b.patch.lights@.len() == 0,
    {
        let b: PatchBuilder = PatchBuilder {
            patch: GpuBrickPatch {
                aabbs: Vec::new(),
                metas: Vec::new(),
                voxels: Vec::new(),
                brick_palettes: Vec::new(),
                palette: Vec::new(),
                lights: Vec::new(),
            },
            interner: VoxelInterner::new(),
        };
        assert(b.patch.voxels@ =~= no_streams().indices);
        assert(b.patch.brick_palettes@ =~= no_streams().palettes);
        b
    }

    /// Add a uniform brick.
    fn push_uniform(
        &mut self,
        aabb: GpuBrickAabb,
        meta: GpuBrickMeta,
        k: Ghost<Key>,
        block: Ghost<BlockId>,
        keys: Ghost<Seq<Key>>,
        contents: Ghost<Seq<VoxelsView>>,
    )
        requires
            old(self).holds(keys@, contents@),
            aabb == (GpuBrickAabb::Brick { coord: coord_of(k@), lod: k@.3 }),
            meta == uniform_meta(origin_of(k@), block@, coord_of(k@), k@.3),
        ensures
            final(self).holds(keys@.push(k@), contents@.push(VoxelsView::Uniform(block@))),
            final(self).patch.lights == old(self).patch.lights,
            final(self).patch.palette == old(self).patch.palette,
    {
        self.patch.aabbs.push(aabb);
        self.patch.metas.push(meta);
        proof {
            let more = contents@.push(VoxelsView::Uniform(block@));
            assert(more.drop_last() =~= contents@);
        }
    }

    /// Add a dense brick. Returns its meta, through which its cells read back.
    fn push_dense(
        &mut self,
        aabb: GpuBrickAabb,
        origin: IVec3,
        corner: IVec3,
        lod: u32,
        cells: &Vec<u32>,
        k: Ghost<Key>,
        keys: Ghost<Seq<Key>>,
        contents: Ghost<Seq<VoxelsView>>,
    ) -> (meta: GpuBrickMeta)
        requires
            old(self).holds(keys@, contents@),
            aabb == (GpuBrickAabb::Brick { coord: coord_of(k@), lod: k@.3 }),
            origin == origin_of(k@),
            corner == coord_of(k@),
            lod == k@.3,
            lod <= 7,
            cells@.len() == 1000,
            1000 * keys@.len() < 0x8000_0000,
        ensures
            final(self).holds(keys@.push(k@), contents@.push(VoxelsView::Dense(cells@))),
            final(self).patch.lights == old(self).patch.lights,
            final(self).patch.palette == old(self).patch.palette,
            meta.world_min == coord_of(k@),
            meta.lod_and_bits % 8 == lod,
            meta.voxel_offset < 0x8000_0000,
            forall|i: int|
                0 <= i < 1000 ==> #[trigger] readable(
                    final(self).patch.voxels@,
                    final(self).patch.brick_palettes@,
                    meta,
                    i,
                ),
            forall|i: int|
                0 <= i < 1000 ==> #[trigger] cell_id(
                    final(self).patch.voxels@,
                    final(self).patch.brick_palettes@,
                    meta,
                    i,
                ) == BlockId(id_of(cells@[i])),
    {
        let ghost s = streams_of(contents@);
        let ghost before = *self;
        let layout: DenseLayout = self.interner.intern_paletted(
            &mut self.patch.voxels,
            &mut self.patch.brick_palettes,
            cells,
        );
        let ghost t = intern(s, cells@);
        proof {
            lemma_intern(s, cells@);
            lemma_index_stream(cells@);
            lemma_first_seen(cells@);
            let more = contents@.push(VoxelsView::Dense(cells@));
            assert(more.drop_last() =~= contents@);
            assert(streams_of(more) == t);
            assert(t.seen.dom().contains(cells@));
            let bits = cells_width(cells@);
            assert(words_for(1000, bits) <= 500) by {
                assert(is_width(bits));
            }
        }
        let meta: GpuBrickMeta = GpuBrickMeta::dense(
            origin,
            layout.voxel_offset,
            corner,
            lod,
            layout.index_bits,
            layout.palette_base,
        );
        self.patch.aabbs.push(aabb);
        self.patch.metas.push(meta);
        proof {
            let ks = keys@.push(k@);
            let more = contents@.push(VoxelsView::Dense(cells@));
            assert forall|i: int| 0 <= i < ks.len() implies (#[trigger] self.patch.metas@[i])
                == patch_meta(t, ks[i], more[i]) && (more[i] matches VoxelsView::Dense(c)
                ==> t.seen.dom().contains(c)) by {
                if i < keys@.len() {
                    assert(self.patch.metas@[i] == before.patch.metas@[i]);
                    assert(before.patch.metas@[i] == patch_meta(s, keys@[i], contents@[i]));
                }
            }
            assert forall|i: int| 0 <= i < ks.len() implies #[trigger] self.patch.aabbs@[i] == (
            GpuBrickAabb::Brick { coord: coord_of(ks[i]), lod: ks[i].3 }) by {
                if i < keys@.len() {
                    assert(self.patch.aabbs@[i] == before.patch.aabbs@[i]);
                }
            }
            assert forall|i: int| 0 <= i < 1000 implies readable(
                self.patch.voxels@,
                self.patch.brick_palettes@,
                meta,
                i,
            ) && cell_id(self.patch.voxels@, self.patch.brick_palettes@, meta, i) == BlockId(
                id_of(cells@[i]),
            ) by {
                law_meta_reads_back(
                    self.patch.voxels@,
                    self.patch.brick_palettes@,
                    origin,
                    corner,
                    layout.voxel_offset,
                    layout.palette_base,
                    lod,
                    cells@,
                    i,
                );
            }
        }
        meta
    }
}

/// The keys of a list of resident bricks.
pub open spec fn entry_keys(entries: Seq<ResidentBrick>) -> Seq<Key> {
    entries.map_values(|e: ResidentBrick| e.key_spec())
}

/// The contents of a list of resident bricks, each packed against all of them.
pub open spec fn entry_contents(entries: Seq<ResidentBrick>) -> Seq<VoxelsView> {
    let m = resident_blocks(entries);
    entries.map_values(|e: ResidentBrick| packed(e.brick@, m, e.key_spec()))
}

/// Pack a list of resident bricks, in its order. `power_of` gives the bit pattern of a light's power, by which a light
/// list that is too long is cut down.
pub fn pack_resident_set<P: Fn(EmissiveVoxel) -> u32>(
    entries: &[ResidentBrick<'_>],
    registry: &BlockRegistry,
    power_of: &P,
) -> (patch: GpuBrickPatch)
    requires
        forall|v: EmissiveVoxel| #[trigger] call_requires(*power_of, (v,)),
        entries_wf(entries@),
        registry.wf(),
        1000 * entries@.len() < 0x8000_0000,
    ensures
        is_patch(patch, entry_keys(entries@), entry_contents(entries@), registry@, *power_of),
{
    let by_key: FxHashMap<Key, &Brick> = build_by_key(entries);
    let mut b: PatchBuilder = PatchBuilder::new();
    let mut found: Vec<EmissiveVoxel> = Vec::new();
    let ghost keys = entry_keys(entries@);
    let ghost contents = entry_contents(entries@);
    let mut i: usize = 0;
    assert(keys.take(0) =~= Seq::empty());
    assert(contents.take(0) =~= Seq::empty());
    while i < entries.len()
        invariant
            i <= entries@.len(),
            entries_wf(entries@),
            registry.wf(),
            1000 * entries@.len() < 0x8000_0000,
            bricks_wf(by_key@),
            blocks_behind(by_key@) == resident_blocks(entries@),
            keys == entry_keys(entries@),
            contents == entry_contents(entries@),
            b.holds(keys.take(i as int), contents.take(i as int)),
            found@ == all_lights(keys.take(i as int), contents.take(i as int), registry@),
        decreases entries@.len() - i,
    {
        let e = &entries[i];
        assert(entries@[i as int].wf());
        let pb: PackedBrick = pack_one(e, &by_key);
        let ghost k = keys[i as int];
        let ghost v = contents[i as int];
        let ghost ks = keys.take(i as int);
        let ghost cs = contents.take(i as int);
        proof {
            assert(keys.take(i + 1) =~= ks.push(k));
            assert(contents.take(i + 1) =~= cs.push(v));
            assert(ks.push(k).drop_last() =~= ks);
            assert(cs.push(v).drop_last() =~= cs);
            assert(pb.voxels@ == v);
        }
        match &pb.voxels {
            BrickVoxels::Uniform(block) => {
                let meta: GpuBrickMeta = pb.meta_uniform();
                b.push_uniform(pb.aabb, meta, Ghost(k), Ghost(*block), Ghost(ks), Ghost(cs));
                assert(found@ =~= all_lights(ks.push(k), cs.push(v), registry@));
            },
            BrickVoxels::Dense(cells) => {
                let meta: GpuBrickMeta = b.push_dense(
                    pb.aabb,
                    pb.voxel_origin,
                    pb.world_min,
                    pb.lod,
                    cells,
                    Ghost(k),
                    Ghost(ks),
                    Ghost(cs),
                );
                gather_lights_into(
                    &mut found,
                    &b.patch.voxels,
                    &b.patch.brick_palettes,
                    registry,
                    &meta,
                );
                proof {
                    let ids = read_grid(b.patch.voxels@, b.patch.brick_palettes@, meta);
                    let grid = cells_grid(cells@);
                    assert forall|j: int| 0 <= j < 1000 implies #[trigger] ids(j) == grid(j) by {
                        assert(cell_id(b.patch.voxels@, b.patch.brick_palettes@, meta, j) == BlockId(
                            id_of(cells@[j]),
                        ));
                    }
                    lemma_lights_agree(ids, grid, registry@, meta.world_min, k.3, 512);
                }
            },
        }
        i = i + 1;
    }
    assert(keys.take(i as int) =~= keys);
    assert(contents.take(i as int) =~= contents);
    let PatchBuilder { patch: built, interner: _ } = b;
    let mut patch: GpuBrickPatch = built;
    ensure_voxels_nonempty(&mut patch);
    patch.palette = registry_palette(registry);
    patch.lights = finalize_lights(found, power_of);
    patch
}

/// The lights that read from the buffers of a patch, dense brick by dense brick.
pub open spec fn read_lights(
    voxels: Seq<u32>,
    palettes: Seq<u32>,
    metas: Seq<GpuBrickMeta>,
    looks: Seq<BlockLook>,
) -> Seq<EmissiveVoxel>
    decreases metas.len(),
{
    if metas.len() == 0 {
        Seq::empty()
    } else {
        let before = read_lights(voxels, palettes, metas.drop_last(), looks);
        let meta = metas.last();
        if meta.voxel_offset >= 0x8000_0000 {
            before
        } else {
            before + brick_lights(
                read_grid(voxels, palettes, meta),
                looks,
                meta.world_min,
                (meta.lod_and_bits % 8) as u32,
            )
        }
    }
}

/// Whether a registry has a block with nonzero emissive radiance.
pub open spec fn any_glows(looks: Seq<BlockLook>) -> bool {
    exists|i: int| 0 <= i < looks.len() && glows(#[trigger] looks[i])
}

/// Fill in the colour palette and the light list of a patch whose bricks are in place. Without a block
/// of nonzero emissive radiance no brick is looked at and the list is empty.
pub fn finalize_patch_palette_and_lights<P: Fn(EmissiveVoxel) -> u32>(
    patch: &mut GpuBrickPatch,
    registry: &BlockRegistry,
    power_of: &P,
)
    requires
        forall|v: EmissiveVoxel| #[trigger] call_requires(*power_of, (v,)),
        registry.wf(),
        forall|b: int, i: int|
            0 <= b < old(patch).metas@.len() && 0 <= i < 1000 ==> #[trigger] readable(
                old(patch).voxels@,
                old(patch).brick_palettes@,
                old(patch).metas@[b],
                i,
            ),
    ensures
        final(patch).aabbs == old(patch).aabbs,
        final(patch).metas == old(patch).metas,
        final(patch).voxels == old(patch).voxels,
        final(patch).brick_palettes == old(patch).brick_palettes,
        mirrors_looks(final(patch).palette@, registry@),
        is_light_list(
            *power_of,
            if any_glows(registry@) {
                read_lights(
                    old(patch).voxels@,
                    old(patch).brick_palettes@,
                    old(patch).metas@,
                    registry@,
                )
            } else {
                Seq::empty()
            },
            final(patch).lights@,
        ),
{
    let mut found: Vec<EmissiveVoxel> = Vec::new();
    if registry.has_emitters() {
        let mut b: usize = 0;
        assert(patch.metas@.take(0) =~= Seq::empty());
        while b < patch.metas.len()
            invariant
                registry.wf(),
                b <= patch.metas@.len(),
                *patch == *old(patch),
                forall|c: int, i: int|
                    0 <= c < old(patch).metas@.len() && 0 <= i < 1000 ==> #[trigger] readable(
                        old(patch).voxels@,
                        old(patch).brick_palettes@,
                        old(patch).metas@[c],
                        i,
                    ),
                found@ == read_lights(
                    patch.voxels@,
                    patch.brick_palettes@,
                    patch.metas@.take(b as int),
                    registry@,
                ),
            decreases patch.metas@.len() - b,
        {
            let meta: GpuBrickMeta = patch.metas[b];
            proof {
                let t = patch.metas@.take(b + 1);
                assert(t.drop_last() =~= patch.metas@.take(b as int));
                assert(t.last() == meta);
                assert(meta == old(patch).metas@[b as int]);
            }
            if !meta.is_uniform() {
                gather_lights_into(&mut found, &patch.voxels, &patch.brick_palettes, registry, &meta);
            }
            b = b + 1;
        }
        assert(patch.metas@.take(b as int) =~= patch.metas@);
    }
    patch.palette = registry_palette(registry);
    patch.lights = finalize_lights(found, power_of);
}

/// The light list of a list of resident bricks; empty without a block of nonzero emissive radiance.
pub fn build_lights_from_entries<P: Fn(EmissiveVoxel) -> u32>(
    entries: &[ResidentBrick<'_>],
    registry: &BlockRegistry,
    power_of: &P,
) -> (lights: Vec<EmissiveVoxel>)
    requires
        forall|v: EmissiveVoxel| #[trigger] call_requires(*power_of, (v,)),
        entries_wf(entries@),
        registry.wf(),
        1000 * entries@.len() < 0x8000_0000,
    ensures
        is_light_list(
            *power_of,
            if any_glows(registry@) {
                all_lights(entry_keys(entries@), entry_contents(entries@), registry@)
            } else {
                Seq::empty()
            },
            lights@,
        ),
{
    if !registry.has_emitters() {
        return finalize_lights(Vec::new(), power_of);
    }
    let patch: GpuBrickPatch = pack_resident_set(entries, registry, power_of);
    patch.lights
}

/// Cut a light list down to the greatest number of lights, keeping the brightest: `power` is, light by
/// light, the bit pattern of its power, which is not negative, so that a greater power has the greater
/// pattern. A list that is too long comes out in descending order of power, lights of equal power in
/// their order; one that is not comes out as it is.
pub fn cap_lights(lights: Vec<EmissiveVoxel>, power: &[u32]) -> (r: Vec<EmissiveVoxel>)
    requires
        power@.len() == lights@.len(),
    ensures
        lights@.len() <= MAX_VOXEL_LIGHTS ==> r@ == lights@,
        lights@.len() > MAX_VOXEL_LIGHTS ==> r@.len() == MAX_VOXEL_LIGHTS && exists|order: Seq<usize>|
            #[trigger] is_ranking(power@, order) && forall|i: int|
                0 <= i < MAX_VOXEL_LIGHTS ==> r@[i] == lights@[#[trigger] order[i] as int],
{
    if lights.len() <= MAX_VOXEL_LIGHTS {
        return lights;
    }
    let order: Vec<usize> = brightest_first(power);
    assert(is_ranking(power@, order@));
    let mut r: Vec<EmissiveVoxel> = Vec::with_capacity(MAX_VOXEL_LIGHTS);
    let mut i: usize = 0;
    while i < MAX_VOXEL_LIGHTS
        invariant
            i <= MAX_VOXEL_LIGHTS,
            MAX_VOXEL_LIGHTS < lights@.len(),
            lights@.len() == power@.len(),
            is_ranking(power@, order@),
            r@.len() == i,
            forall|j: int| 0 <= j < i ==> r@[j] == lights@[#[trigger] order@[j] as int],
        decreases MAX_VOXEL_LIGHTS - i,
    {
        assert(order@[i as int] < power@.len());
        r.push(lights[order[i]]);
        i = i + 1;
    }
    r
}

/// Whether `order` lists every place of `power` once, the greatest power first and equal powers in
/// their order.
pub open spec fn is_ranking(power: Seq<u32>, order: Seq<usize>) -> bool {
    &&& order.len() == power.len()
    &&& order.no_duplicates()
    &&& forall|i: int| 0 <= i < order.len() ==> (#[trigger] order[i]) < power.len()
    &&& forall|i: int, j: int|
        0 <= i < j < order.len() ==> ranked_before(power, #[trigger] order[i], #[trigger] order[j])
}

/// Whether a meta is that of a uniform brick.
pub open spec fn is_uniform_meta(m: GpuBrickMeta) -> bool {
    m.voxel_offset >= 0x8000_0000
}

/// Whether the list has, light by light, what `power_of` gives.
pub open spec fn are_powers<P: Fn(EmissiveVoxel) -> u32>(
    power_of: P,
    lights: Seq<EmissiveVoxel>,
    power: Seq<u32>,
) -> bool {
    &&& power.len() == lights.len()
    &&& forall|i: int| 0 <= i < lights.len() ==> call_ensures(power_of, (lights[i],), #[trigger] power[i])
}

/// Whether `kept` is what a light list is cut down to by these powers: the list itself where it is short enough,
/// else the brightest, in descending order.
pub open spec fn is_cut(lights: Seq<EmissiveVoxel>, power: Seq<u32>, kept: Seq<EmissiveVoxel>) -> bool {
    if lights.len() <= MAX_VOXEL_LIGHTS {
        kept == lights
    } else {
        kept.len() == MAX_VOXEL_LIGHTS && exists|order: Seq<usize>| #[trigger]
            is_ranking(power, order) && forall|i: int|
                0 <= i < MAX_VOXEL_LIGHTS ==> kept[i] == lights[#[trigger] order[i] as int]
    }
}

/// Whether `lights` is what the lights `found` are cut down to by the powers that `power_of` gives them.
pub open spec fn is_light_list<P: Fn(EmissiveVoxel) -> u32>(
    power_of: P,
    found: Seq<EmissiveVoxel>,
    lights: Seq<EmissiveVoxel>,
) -> bool {
    exists|power: Seq<u32>| #[trigger] are_powers(power_of, found, power) && is_cut(found, power, lights)
}

/// A light list is no longer than the longest one, and as long as what was found where that is not too long.
pub proof fn law_light_list_is_capped<P: Fn(EmissiveVoxel) -> u32>(
    power_of: P,
    found: Seq<EmissiveVoxel>,
    lights: Seq<EmissiveVoxel>,
)
    requires
        is_light_list(power_of, found, lights),
    ensures
        lights.len() == (if found.len() <= MAX_VOXEL_LIGHTS {
            found.len() as int
        } else {
            MAX_VOXEL_LIGHTS as int
        }),
{
}

/// Finish a light list: `power_of` gives the bit pattern of a light's power, and the list is cut down to the
/// brightest where it is too long.
pub fn finalize_lights<P: Fn(EmissiveVoxel) -> u32>(found: Vec<EmissiveVoxel>, power_of: &P) -> (r: Vec<
    EmissiveVoxel,
>)
    requires
        forall|v: EmissiveVoxel| #[trigger] call_requires(*power_of, (v,)),
    ensures
        is_light_list(*power_of, found@, r@),
{
    let mut power: Vec<u32> = Vec::with_capacity(found.len());
    let mut i: usize = 0;
    while i < found.len()
        invariant
            i <= found@.len(),
            power@.len() == i,
            forall|v: EmissiveVoxel| #[trigger] call_requires(*power_of, (v,)),
            forall|k: int| 0 <= k < i ==> call_ensures(*power_of, (found@[k],), #[trigger] power@[k]),
        decreases found@.len() - i,
    {
        let p: u32 = power_of(found[i]);
        power.push(p);
        i = i + 1;
    }
    let ghost lights = found@;
    let r: Vec<EmissiveVoxel> = cap_lights(found, &power);
    assert(are_powers(*power_of, lights, power@) && is_cut(lights, power@, r@));
    r
}

/// The bytes that a patch takes, and those that it would take with every brick stored as a full grid.
#[derive(Clone, Copy, Debug, PartialEq, Eq, Structural)]
pub struct StorageReport {
    /// The number of bricks.
    pub bricks: usize,
    /// How many of them are uniform.
    pub uniform_bricks: usize,
    /// Bytes of the metas and boxes.
    pub meta_aabb_bytes: usize,
    /// Bytes of the colour palette.
    pub palette_bytes: usize,
    /// Bytes of the light list and of its sampling table, which has one entry per light.
    pub light_bytes: usize,
    /// Bytes of the voxels with every brick stored as a full haloed grid of words.
    pub voxel_bytes_before: usize,
    /// Bytes of the index streams.
    pub voxel_bytes_after: usize,
    /// Bytes of the bricks' palettes.
    pub brick_palette_bytes: usize,
}

/// Whether a report says what a patch takes.
pub open spec fn is_report(r: StorageReport, p: GpuBrickPatch) -> bool {
    &&& r.bricks == p.aabbs@.len()
    &&& r.uniform_bricks == p.metas@.filter(|m: GpuBrickMeta| is_uniform_meta(m)).len()
    &&& r.meta_aabb_bytes == p.aabbs@.len() * 80
    &&& r.palette_bytes == p.palette@.len() * 32
    &&& r.light_bytes == p.lights@.len() * 32 + p.lights@.len() * 8
    &&& r.voxel_bytes_before == p.aabbs@.len() * 1000 * 4
    &&& r.voxel_bytes_after == p.voxels@.len() * 4
    &&& r.brick_palette_bytes == p.brick_palettes@.len() * 4
}

impl StorageReport {
    /// What the bricks take with every one stored as a full grid.
    pub open spec fn before(self) -> int {
        self.meta_aabb_bytes + self.palette_bytes + self.light_bytes + self.voxel_bytes_before
    }

    /// What the bricks take as they are stored.
    pub open spec fn after(self) -> int {
        self.meta_aabb_bytes + self.palette_bytes + self.light_bytes + self.voxel_bytes_after + self.brick_palette_bytes
    }

    /// The total with every brick stored as a full grid.
    pub fn total_vram_before(&self) -> (n: usize)
        requires
            self.meta_aabb_bytes + self.palette_bytes + self.light_bytes + self.voxel_bytes_before
                <= usize::MAX,
        ensures
            n == self.before(),
    {
        self.meta_aabb_bytes + self.palette_bytes + self.light_bytes + self.voxel_bytes_before
    }

    /// The total as stored.
    pub fn total_vram_after(&self) -> (n: usize)
        requires
            self.meta_aabb_bytes + self.palette_bytes + self.light_bytes + self.voxel_bytes_after
                + self.brick_palette_bytes <= usize::MAX,
        ensures
            n == self.after(),
    {
        self.meta_aabb_bytes + self.palette_bytes + self.light_bytes + self.voxel_bytes_after
            + self.brick_palette_bytes
    }
}

impl GpuBrickPatch {
    /// The number of bricks.
    pub fn brick_count(&self) -> (n: usize)
        ensures
            n == self.aabbs@.len(),
    {
        self.aabbs.len()
    }

    /// True iff there are no bricks.
    pub fn is_empty(&self) -> (b: bool)
        ensures
            b == (self.aabbs@.len() == 0),
    {
        self.aabbs.len() == 0
    }

    /// The number of uniform bricks.
    pub fn uniform_brick_count(&self) -> (n: usize)
        ensures
            n == self.metas@.filter(|m: GpuBrickMeta| is_uniform_meta(m)).len(),
            n <= self.metas@.len(),
    {
        let ghost f = |m: GpuBrickMeta| is_uniform_meta(m);
        let mut n: usize = 0;
        let mut i: usize = 0;
        proof {
            reveal(Seq::filter);
            assert(self.metas@.take(0).filter(f).len() == 0);
        }
        while i < self.metas.len()
            invariant
                i <= self.metas@.len(),
                n <= i,
                f == (|m: GpuBrickMeta| is_uniform_meta(m)),
                n == self.metas@.take(i as int).filter(f).len(),
            decreases self.metas@.len() - i,
        {
            proof {
                reveal(Seq::filter);
                let t = self.metas@.take(i + 1);
                assert(t.drop_last() =~= self.metas@.take(i as int));
                assert(t.last() == self.metas@[i as int]);
            }
            if self.metas[i].is_uniform() {
                n = n + 1;
            }
            i = i + 1;
        }
        assert(self.metas@.take(i as int) =~= self.metas@);
        n
    }

    /// The block of cell `cell` of the haloed grid of the brick with the given meta.
    pub fn cell_block(&self, meta: &GpuBrickMeta, cell: usize) -> (b: BlockId)
        requires
            cell < 1000,
            readable(self.voxels@, self.brick_palettes@, *meta, cell as int),
        ensures
            b == cell_id(self.voxels@, self.brick_palettes@, *meta, cell as int),
    {
        read_cell(&self.voxels, &self.brick_palettes, meta, cell)
    }

    /// The bytes that the patch takes: 48 for a meta, 32 for a box, a colour and a light, 8 for an entry
    /// of the lights' sampling table and 4 for a word.
    pub fn storage_report(&self) -> (r: StorageReport)
        requires
            4080 * self.aabbs@.len() <= usize::MAX,
            32 * self.palette@.len() <= usize::MAX,
            40 * self.lights@.len() <= usize::MAX,
            4 * self.voxels@.len() <= usize::MAX,
            4 * self.brick_palettes@.len() <= usize::MAX,
        ensures
            is_report(r, *self),
    {
        let bricks: usize = self.brick_count();
        let uniform_bricks: usize = self.uniform_brick_count();
        StorageReport {
            bricks,
            uniform_bricks,
            meta_aabb_bytes: bricks * 80,
            palette_bytes: self.palette.len() * 32,
            light_bytes: self.lights.len() * 32 + self.lights.len() * 8,
            voxel_bytes_before: bricks * halo_cells(0) * 4,
            voxel_bytes_after: self.voxels.len() * 4,
            brick_palette_bytes: self.brick_palettes.len() * 4,
        }
    }
}

/// The streams of bricks with a thousand cells each are coherent and hold those cells.
pub proof fn lemma_streams_of(contents: Seq<VoxelsView>)
    requires
        1000 * contents.len() < 0x8000_0000,
        forall|i: int|
            0 <= i < contents.len() ==> (#[trigger] contents[i] matches VoxelsView::Dense(c) ==> c.len()
                == 1000),
    ensures
        coherent(streams_of(contents)),
        streams_of(contents).indices.len() <= 500 * contents.len(),
        streams_of(contents).palettes.len() <= 1000 * contents.len(),
        forall|i: int|
            0 <= i < contents.len() ==> (#[trigger] contents[i] matches VoxelsView::Dense(c)
                ==> streams_of(contents).seen.dom().contains(c)),
    decreases contents.len(),
{
    if contents.len() > 0 {
        let front = contents.drop_last();
        assert forall|i: int| 0 <= i < front.len() implies (#[trigger] front[i] matches VoxelsView::Dense(
            c,
        ) ==> c.len() == 1000) by {
            assert(front[i] == contents[i]);
        }
        lemma_streams_of(front);
        let s = streams_of(front);
        assert(contents[contents.len() - 1] == contents.last());
        if let VoxelsView::Dense(cells) = contents.last() {
            lemma_intern(s, cells);
            lemma_index_stream(cells);
            lemma_first_seen(cells);
            assert(is_width(cells_width(cells)));
            assert(words_for(1000, cells_width(cells)) <= 500);
        }
        assert forall|i: int| 0 <= i < contents.len() implies (#[trigger] contents[i] matches VoxelsView::Dense(
            c,
        ) ==> streams_of(contents).seen.dom().contains(c)) by {
            if i < front.len() {
                assert(front[i] == contents[i]);
            }
        }
    }
}

/// Every cell of every brick of a patch reads back as the block that the brick has there.
pub proof fn law_patch_reads_back(
    p: GpuBrickPatch,
    keys: Seq<Key>,
    contents: Seq<VoxelsView>,
    b: int,
    i: int,
)
    requires
        has_bricks(p, keys, contents),
        keys.len() == contents.len(),
        1000 * contents.len() < 0x8000_0000,
        forall|j: int|
            0 <= j < contents.len() ==> (#[trigger] contents[j] matches VoxelsView::Dense(c) ==> c.len()
                == 1000),
        0 <= b < keys.len(),
        keys[b].3 <= 7,
        0 <= i < 1000,
    ensures
        readable(p.voxels@, p.brick_palettes@, p.metas@[b], i),
        cell_id(p.voxels@, p.brick_palettes@, p.metas@[b], i) == (match contents[b] {
            VoxelsView::Uniform(block) => block,
            VoxelsView::Dense(cells) => BlockId(id_of(cells[i])),
        }),
{
    lemma_streams_of(contents);
    let s = streams_of(contents);
    let k = keys[b];
    assert(p.metas@[b] == patch_meta(s, k, contents[b]));
    match contents[b] {
        VoxelsView::Uniform(block) => {
            assert((0x8000_0000 + block.0) % 0x1_0000 == block.0);
        },
        VoxelsView::Dense(cells) => {
            assert(s.seen.dom().contains(cells));
            let l = s.seen[cells];
            lemma_index_stream(cells);
            lemma_first_seen(cells);
            assert(s.palettes.len() > 0) by {
                assert(words_at(s.palettes, l.1 as int, palette_words(cells)));
            }
            assert(s.indices.len() > 0) by {
                assert(words_at(s.indices, l.0 as int, index_stream(cells)));
                assert(is_width(cells_width(cells)));
                assert(words_for(1000, cells_width(cells)) > 0);
            }
            law_meta_reads_back(
                p.voxels@,
                p.brick_palettes@,
                origin_of(k),
                coord_of(k),
                l.0,
                l.1,
                k.3,
                cells,
                i,
            );
        },
    }
}

/// The bricks of a store, as bricks of the finest level.
pub open spec fn finest(bricks: Map<Cell, Seq<BlockId>>) -> Blocks {
    Map::new(
        |k: Key| k.3 == 0 && bricks.dom().contains((k.0, k.1, k.2)),
        |k: Key| bricks[(k.0, k.1, k.2)],
    )
}

/// A list of bricks with distinct keys holds each entry's blocks under its key.
pub proof fn lemma_distinct_blocks(entries: Seq<ResidentBrick>, i: int)
    requires
        0 <= i < entries.len(),
        forall|a: int, b: int|
            0 <= a < b < entries.len() ==> (#[trigger] entries[a]).key_spec() != (
            #[trigger] entries[b]).key_spec(),
    ensures
        resident_blocks(entries).dom().contains(entries[i].key_spec()),
        resident_blocks(entries)[entries[i].key_spec()] == entries[i].brick@,
    decreases entries.len(),
{
    let front = entries.drop_last();
    if i < front.len() {
        assert forall|a: int, b: int| 0 <= a < b < front.len() implies (
        #[trigger] front[a]).key_spec() != (#[trigger] front[b]).key_spec() by {
            assert(entries[a].key_spec() != entries[b].key_spec());
        }
        lemma_distinct_blocks(front, i);
        assert(front[i] == entries[i]);
        assert(entries[i].key_spec() != entries[entries.len() - 1].key_spec());
    }
}

/// Pack a store of bricks, in ascending order of their coordinates: by z, then y, then x.
pub fn pack_brickmap<P: Fn(EmissiveVoxel) -> u32>(map: &BrickMap, registry: &BlockRegistry, power_of: &P) -> (patch:
    GpuBrickPatch)
    requires
        forall|v: EmissiveVoxel| #[trigger] call_requires(*power_of, (v,)),
        map.wf(),
        registry.wf(),
        1000 * map@.dom().len() < 0x8000_0000,
        forall|c: Cell| #[trigger] map@.dom().contains(c) ==> key_ok((c.0, c.1, c.2, 0)),
    ensures
        exists|keys: Seq<Key>| #[trigger]
            keys_ascend(keys) && (forall|k: Key| #[trigger]
                keys.contains(k) <==> finest(map@).dom().contains(k)) && is_patch(
                patch,
                keys,
                keys.map_values(|k: Key| packed(finest(map@)[k], finest(map@), k)),
                registry@,
                *power_of,
            ),
{
    let ghost m = finest(map@);
    let coords: Vec<Cell> = map.coords();
    let mut keys: Vec<Key> = Vec::with_capacity(coords.len());
    let mut i: usize = 0;
    while i < coords.len()
        invariant
            i <= coords@.len(),
            keys@.len() == i,
            forall|j: int|
                0 <= j < i ==> #[trigger] keys@[j] == (coords@[j].0, coords@[j].1, coords@[j].2, 0u32),
        decreases coords@.len() - i,
    {
        let c: Cell = coords[i];
        keys.push((c.0, c.1, c.2, 0));
        i = i + 1;
    }
    proof {
        assert forall|a: int, b: int| 0 <= a < keys@.len() && 0 <= b < keys@.len() && a != b implies keys@[a]
            != keys@[b] by {
            assert(coords@[a] != coords@[b]);
        }
        assert forall|k: Key| #[trigger] keys@.contains(k) <==> m.dom().contains(k) by {
            if keys@.contains(k) {
                let j = choose|j: int| 0 <= j < keys@.len() && keys@[j] == k;
                assert(coords@.contains(coords@[j]));
            }
            if m.dom().contains(k) {
                assert(coords@.contains((k.0, k.1, k.2)));
                let j = choose|j: int| 0 <= j < coords@.len() && coords@[j] == (k.0, k.1, k.2);
                assert(keys@[j] == k);
            }
        }
        map.lemma_view();
        assert(coords@.len() == map@.dom().len()) by {
            coords@.unique_seq_to_set();
            assert(coords@.to_set() =~= map@.dom());
        }
    }
    let sorted: Vec<Key> = sorted_keys(keys);
    let mut entries: Vec<ResidentBrick<'_>> = Vec::with_capacity(sorted.len());
    let mut i: usize = 0;
    while i < sorted.len()
        invariant
            map.wf(),
            m == finest(map@),
            i <= sorted@.len(),
            forall|k: Key| #[trigger] sorted@.contains(k) <==> m.dom().contains(k),
            forall|c: Cell| #[trigger] map@.dom().contains(c) ==> key_ok((c.0, c.1, c.2, 0)),
            entries@.len() == i,
            forall|j: int|
                0 <= j < i ==> (#[trigger] entries@[j]).key_spec() == sorted@[j] && entries@[j].brick@
                    == m[sorted@[j]] && entries@[j].wf(),
        decreases sorted@.len() - i,
    {
        let k: Key = sorted[i];
        proof {
            assert(sorted@.contains(sorted@[i as int]));
            assert(map@.dom().contains((k.0, k.1, k.2)));
        }
        let coord: IVec3 = IVec3 { x: k.0, y: k.1, z: k.2 };
        let brick: &Brick = map.get(coord).unwrap();
        entries.push(ResidentBrick { coord, brick, lod: 0 });
        i = i + 1;
    }
    proof {
        let es = entries@;
        assert forall|a: int, b: int| 0 <= a < b < es.len() implies (#[trigger] es[a]).key_spec() != (
        #[trigger] es[b]).key_spec() by {
            assert(key_before(sorted@[a], sorted@[b]));
        }
        lemma_resident_blocks(es);
        assert(resident_blocks(es) =~= m) by {
            assert forall|k: Key| resident_blocks(es).dom().contains(k) <==> m.dom().contains(k) by {
                if resident_blocks(es).dom().contains(k) {
                    let j = choose|j: int| 0 <= j < es.len() && (#[trigger] es[j]).key_spec() == k;
                    assert(sorted@.contains(sorted@[j]));
                }
                if m.dom().contains(k) {
                    assert(sorted@.contains(k));
                    let j = choose|j: int| 0 <= j < sorted@.len() && sorted@[j] == k;
                    assert(es[j].key_spec() == k);
                }
            }
            assert forall|k: Key| #[trigger] m.dom().contains(k) implies resident_blocks(es)[k] == m[k] by {
                assert(sorted@.contains(k));
                let j = choose|j: int| 0 <= j < sorted@.len() && sorted@[j] == k;
                lemma_distinct_blocks(es, j);
            }
        }
        assert(entry_keys(es) =~= sorted@);
        assert(entry_contents(es) =~= sorted@.map_values(|k: Key| packed(m[k], m, k)));
        assert(keys_ascend(sorted@));
    }
    pack_resident_set(&entries, registry, power_of)
}

/// The haloed grid of a brick of a store holds, cell by cell, the blocks of the world around the brick.
pub proof fn law_halo_is_world(bricks: Map<Cell, Seq<BlockId>>, c: Cell, x: int, y: int, z: int)
    requires
        bricks.dom().contains(c),
        -0x1000_0000 < c.0 < 0xFFF_FFFF,
        -0x1000_0000 < c.1 < 0xFFF_FFFF,
        -0x1000_0000 < c.2 < 0xFFF_FFFF,
        -1 <= x <= 8,
        -1 <= y <= 8,
        -1 <= z <= 8,
    ensures
        halo_block(
            finest(bricks)[(c.0, c.1, c.2, 0)],
            finest(bricks),
            (c.0, c.1, c.2, 0),
            halo_at(x + 1, y + 1, z + 1),
        ) == world_block(
            bricks,
            ((8 * c.0 + x) as i32, (8 * c.1 + y) as i32, (8 * c.2 + z) as i32),
        ),
{
    let i = halo_at(x + 1, y + 1, z + 1);
    assert(i % 10 == x + 1 && (i / 10) % 10 == y + 1 && i / 100 == z + 1);
    let k: Key = (c.0, c.1, c.2, 0);
    let v: Cell = ((8 * c.0 + x) as i32, (8 * c.1 + y) as i32, (8 * c.2 + z) as i32);
    let n = shifted(k, x / 8, y / 8, z / 8);
    assert(owner_of(v) == (n.0, n.1, n.2));
    assert(local_of(v) == voxel_at(x % 8, y % 8, z % 8));
    if in_brick(x, y, z) {
        assert(n == k);
    }
}

/// The contents of a list of packed bricks.
pub open spec fn packed_contents(bricks: Seq<PackedBrick>) -> Seq<VoxelsView> {
    bricks.map_values(|b: PackedBrick| b.voxels@)
}

/// Whether a list of packed bricks is that of the bricks at `keys`.
pub open spec fn packed_at(bricks: Seq<PackedBrick>, keys: Seq<Key>) -> bool {
    &&& bricks.len() == keys.len()
    &&& forall|i: int|
        0 <= i < keys.len() ==> {
            &&& (#[trigger] bricks[i]).is_at(keys[i])
            &&& keys[i].3 <= 7
            &&& (bricks[i].voxels@ matches VoxelsView::Dense(c) ==> c.len() == 1000)
        }
}

/// The lights that read from the buffers of a patch are those of its bricks' contents.
proof fn lemma_read_lights(
    p: GpuBrickPatch,
    keys: Seq<Key>,
    contents: Seq<VoxelsView>,
    looks: Seq<BlockLook>,
    n: int,
)
    requires
        has_bricks(p, keys, contents),
        keys.len() == contents.len(),
        1000 * contents.len() < 0x8000_0000,
        forall|j: int|
            0 <= j < contents.len() ==> (#[trigger] contents[j] matches VoxelsView::Dense(c) ==> c.len()
                == 1000),
        forall|j: int| 0 <= j < keys.len() ==> (#[trigger] keys[j]).3 <= 7,
        0 <= n <= keys.len(),
    ensures
        read_lights(p.voxels@, p.brick_palettes@, p.metas@.take(n), looks) == all_lights(
            keys.take(n),
            contents.take(n),
            looks,
        ),
    decreases n,
{
    if n > 0 {
        lemma_read_lights(p, keys, contents, looks, n - 1);
        assert(p.metas@.take(n).drop_last() =~= p.metas@.take(n - 1));
        assert(keys.take(n).drop_last() =~= keys.take(n - 1));
        assert(contents.take(n).drop_last() =~= contents.take(n - 1));
        let meta = p.metas@[n - 1];
        let k = keys[n - 1];
        lemma_streams_of(contents);
        assert(meta == patch_meta(streams_of(contents), k, contents[n - 1]));
        match contents[n - 1] {
            VoxelsView::Uniform(_) => {
                assert(all_lights(keys.take(n), contents.take(n), looks) =~= all_lights(
                    keys.take(n - 1),
                    contents.take(n - 1),
                    looks,
                ));
            },
            VoxelsView::Dense(cells) => {
                assert(streams_of(contents).seen.dom().contains(cells));
                assert(is_width(cells_width(cells)));
                let ids = read_grid(p.voxels@, p.brick_palettes@, meta);
                let grid = cells_grid(cells);
                assert forall|i: int| 0 <= i < 1000 implies #[trigger] ids(i) == grid(i) by {
                    law_patch_reads_back(p, keys, contents, n - 1, i);
                }
                lemma_lights_agree(ids, grid, looks, coord_of(k), k.3, 512);
            },
        }
    }
}

/// Lay packed bricks out as a patch, in their order, with the colour palette and, where a block of the
/// registry has nonzero emissive radiance, the light list.
pub(crate) fn assemble_patch<P: Fn(EmissiveVoxel) -> u32>(
    bricks: &[PackedBrick],
    registry: &BlockRegistry,
    power_of: &P,
    keys: Ghost<Seq<Key>>,
) -> (patch: GpuBrickPatch)
    requires
        forall|v: EmissiveVoxel| #[trigger] call_requires(*power_of, (v,)),
        registry.wf(),
        packed_at(bricks@, keys@),
        1000 * bricks@.len() < 0x8000_0000,
    ensures
        has_bricks(patch, keys@, packed_contents(bricks@)),
        mirrors_looks(patch.palette@, registry@),
        is_light_list(
            *power_of,
            if any_glows(registry@) {
                all_lights(keys@, packed_contents(bricks@), registry@)
            } else {
                Seq::empty()
            },
            patch.lights@,
        ),
{
    let mut b: PatchBuilder = PatchBuilder::new();
    let ghost keys = keys@;
    let ghost contents = packed_contents(bricks@);
    let mut i: usize = 0;
    assert(keys.take(0) =~= Seq::empty());
    assert(contents.take(0) =~= Seq::empty());
    while i < bricks.len()
        invariant
            i <= bricks@.len(),
            packed_at(bricks@, keys),
            contents == packed_contents(bricks@),
            1000 * bricks@.len() < 0x8000_0000,
            b.holds(keys.take(i as int), contents.take(i as int)),
        decreases bricks@.len() - i,
    {
        let pb: &PackedBrick = &bricks[i];
        let ghost k = keys[i as int];
        let ghost ks = keys.take(i as int);
        let ghost cs = contents.take(i as int);
        proof {
            assert(bricks@[i as int].is_at(keys[i as int]));
            assert(keys.take(i + 1) =~= ks.push(k));
            assert(contents.take(i + 1) =~= cs.push(contents[i as int]));
        }
        match &pb.voxels {
            BrickVoxels::Uniform(block) => {
                let meta: GpuBrickMeta = pb.meta_uniform();
                b.push_uniform(pb.aabb, meta, Ghost(k), Ghost(*block), Ghost(ks), Ghost(cs));
            },
            BrickVoxels::Dense(cells) => {
                let _meta: GpuBrickMeta = b.push_dense(
                    pb.aabb,
                    pb.voxel_origin,
                    pb.world_min,
                    pb.lod,
                    cells,
                    Ghost(k),
                    Ghost(ks),
                    Ghost(cs),
                );
            },
        }
        i = i + 1;
    }
    assert(keys.take(i as int) =~= keys);
    assert(contents.take(i as int) =~= contents);
    let PatchBuilder { patch: built, interner: _ } = b;
    let mut patch: GpuBrickPatch = built;
    ensure_voxels_nonempty(&mut patch);
    proof {
        assert forall|j: int| 0 <= j < contents.len() implies (#[trigger] contents[j] matches VoxelsView::Dense(
            c,
        ) ==> c.len() == 1000) by {
            assert(bricks@[j].is_at(keys[j]));
        }
        assert forall|j: int| 0 <= j < keys.len() implies (#[trigger] keys[j]).3 <= 7 by {
            assert(bricks@[j].is_at(keys[j]));
        }
        assert forall|c: int, j: int| 0 <= c < patch.metas@.len() && 0 <= j < 1000 implies #[trigger] readable(
            patch.voxels@,
            patch.brick_palettes@,
            patch.metas@[c],
            j,
        ) by {
            law_patch_reads_back(patch, keys, contents, c, j);
        }
        lemma_read_lights(patch, keys, contents, registry@, keys.len() as int);
        assert(patch.metas@.take(keys.len() as int) =~= patch.metas@);
        assert(keys.take(keys.len() as int) =~= keys);
        assert(contents.take(keys.len() as int) =~= contents);
    }
    finalize_patch_palette_and_lights(&mut patch, registry, power_of);
    patch
}

/// The lights that are read back from the buffers of a patch are those of its bricks.
pub proof fn law_lights_read_back(p: GpuBrickPatch, keys: Seq<Key>, contents: Seq<VoxelsView>, looks: Seq<BlockLook>)
    requires
        has_bricks(p, keys, contents),
        keys.len() == contents.len(),
        1000 * contents.len() < 0x8000_0000,
        forall|j: int|
            0 <= j < contents.len() ==> (#[trigger] contents[j] matches VoxelsView::Dense(c) ==> c.len() == 1000),
        forall|j: int| 0 <= j < keys.len() ==> (#[trigger] keys[j]).3 <= 7,
    ensures
        read_lights(p.voxels@, p.brick_palettes@, p.metas@, looks) == all_lights(keys, contents, looks),
{
    lemma_read_lights(p, keys, contents, looks, keys.len() as int);
    assert(p.metas@.take(keys.len() as int) =~= p.metas@);
    assert(keys.take(keys.len() as int) =~= keys);
    assert(contents.take(keys.len() as int) =~= contents);
}

} // verus!
