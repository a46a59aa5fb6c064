//! The layout of resident bricks in GPU storage.
//!
//! A patch is a set of parallel per-brick buffers plus shared pools. Each resident brick has a bounding
//! box, a [`GpuBrickMeta`], and, unless its whole haloed grid is one block, a bit-packed index stream
//! and a palette. The haloed grid is the brick's `8³` core with a border of one cell on every side that
//! holds the neighbours' boundary voxels, air where a neighbour is absent.

use crate::brickmap::lod_edge;
use crate::math::IVec3;
use crate::palette::BlockId;
use vstd::prelude::*;

verus! {

/// The stored per-axis grid edge of a brick: the core edge plus a border cell on either side.
pub fn halo_edge(lod: u32) -> (e: i32)
    ensures
        e == 10,
{
    lod_edge(lod) + 2
}

/// Number of cells a haloed brick stores (`halo_edge³`).
pub fn halo_cells(lod: u32) -> (n: usize)
    ensures
        n == 1000,
{
    let h: usize = halo_edge(lod) as usize;
    h * h * h
}

/// Whether `(x, y, z)` is a cell of the haloed grid.
pub open spec fn in_halo(x: int, y: int, z: int) -> bool {
    0 <= x < 10 && 0 <= y < 10 && 0 <= z < 10
}

/// The position of haloed-grid cell `(x, y, z)`: +X fastest, then +Y, then +Z.
pub open spec fn halo_at(x: int, y: int, z: int) -> int {
    x + y * 10 + z * 100
}

/// Linear index of a haloed-grid cell `(x, y, z)` in `[0, halo_edge)`. Border cells have a coordinate
/// `0` or `halo_edge - 1`; core cells lie in `[1, lod_edge]`.
pub fn halo_index(x: i32, y: i32, z: i32, lod: u32) -> (i: usize)
    requires
        in_halo(x as int, y as int, z as int),
    ensures
        i == halo_at(x as int, y as int, z as int),
        i < 1000,
{
    let h: i32 = halo_edge(lod);
    assert(h * h == 100 && y * h == y * 10 && z * h == z * 10) by (nonlinear_arith)
        requires
            h == 10,
    ;
    assert(z * h * h == z * 100) by (nonlinear_arith)
        requires
            h == 10,
    ;
    (x + y * h + z * h * h) as usize
}

/// The bounding box of a slot: the world box of the brick at `coord` on level `lod`, grown by the seam
/// epsilon, or the inverted box of an unused slot, which no ray meets.
#[derive(Clone, Copy, Debug, PartialEq, Eq, Structural)]
pub enum GpuBrickAabb {
    /// The box of a resident brick.
    Brick { coord: IVec3, lod: u32 },
    /// The inverted box of an unused slot.
    Degenerate,
}

/// The bounding box of the brick at `coord` on level `lod`.
pub fn brick_aabb(coord: IVec3, lod: u32) -> (b: GpuBrickAabb)
    ensures
        b == (GpuBrickAabb::Brick { coord, lod }),
{
    GpuBrickAabb::Brick { coord, lod }
}

/// The box of an unused slot.
pub fn degenerate_aabb() -> (b: GpuBrickAabb)
    ensures
        b == GpuBrickAabb::Degenerate,
{
    GpuBrickAabb::Degenerate
}

/// The `voxel_offset` bit that marks a uniform brick.
pub const BRICK_UNIFORM_FLAG: u32 = 0x8000_0000;

/// Per-brick metadata, 48 bytes. Read the packed fields through the accessors.
#[derive(Clone, Copy, Debug, PartialEq, Eq, Structural)]
pub struct GpuBrickMeta {
    /// The world voxel of the brick's local `(0, 0, 0)` corner.
    pub voxel_origin: IVec3,
    /// Where the brick's index stream begins, or, with [`BRICK_UNIFORM_FLAG`] set, the block of a
    /// uniform brick in the low sixteen bits.
    pub voxel_offset: u32,
    /// The brick's world-minimum corner, in brick spans of its level.
    pub world_min: IVec3,
    /// The level in bits 0 to 2 and the index width in bits 3 to 7.
    pub lod_and_bits: u32,
    /// Where the brick's palette begins.
    pub palette_base: u32,
    /// Padding, always zero.
    pub _pad0: u32,
    pub _pad1: u32,
    pub _pad2: u32,
}

/// The meta of a dense brick.
pub open spec fn dense_meta(
    voxel_origin: IVec3,
    voxel_offset: u32,
    world_min: IVec3,
    lod: u32,
    index_bits: u8,
    palette_base: u32,
) -> GpuBrickMeta {
    GpuBrickMeta {
        voxel_origin,
        voxel_offset,
        world_min,
        lod_and_bits: (lod + 8 * index_bits) as u32,
        palette_base,
        _pad0: 0,
        _pad1: 0,
        _pad2: 0,
    }
}

/// The meta of a uniform brick.
pub open spec fn uniform_meta(
    voxel_origin: IVec3,
    block: BlockId,
    world_min: IVec3,
    lod: u32,
) -> GpuBrickMeta {
    GpuBrickMeta {
        voxel_origin,
        voxel_offset: (0x8000_0000 + block.0) as u32,
        world_min,
        lod_and_bits: lod,
        palette_base: 0,
        _pad0: 0,
        _pad1: 0,
        _pad2: 0,
    }
}

/// The meta of an unused slot.
pub open spec fn zero_meta() -> GpuBrickMeta {
    GpuBrickMeta {
        voxel_origin: IVec3 { x: 0, y: 0, z: 0 },
        voxel_offset: 0,
        world_min: IVec3 { x: 0, y: 0, z: 0 },
        lod_and_bits: 0,
        palette_base: 0,
        _pad0: 0,
        _pad1: 0,
        _pad2: 0,
    }
}

impl GpuBrickMeta {
    /// The meta of a dense brick: its index stream begins at `voxel_offset` and its indices, of
    /// `index_bits` bits, refer to the palette at `palette_base`.
    pub fn dense(
        voxel_origin: IVec3,
        voxel_offset: u32,
        world_min: IVec3,
        lod: u32,
        index_bits: u8,
        palette_base: u32,
    ) -> (m: GpuBrickMeta)
        requires
            voxel_offset < 0x8000_0000,
            lod <= 7,
            index_bits <= 16,
        ensures
            m == dense_meta(voxel_origin, voxel_offset, world_min, lod, index_bits, palette_base),
    {
        GpuBrickMeta {
            voxel_origin,
            voxel_offset,
            world_min,
            lod_and_bits: pack_lod_bits(lod, index_bits),
            palette_base,
            _pad0: 0,
            _pad1: 0,
            _pad2: 0,
        }
    }

    /// The meta of a uniform brick: its block rides in the meta.
    pub fn uniform(voxel_origin: IVec3, block: BlockId, world_min: IVec3, lod: u32) -> (m: GpuBrickMeta)
        requires
            lod <= 7,
        ensures
            m == uniform_meta(voxel_origin, block, world_min, lod),
    {
        let b: u32 = block.0 as u32;
        assert(0x8000_0000u32 | b == 0x8000_0000u32 + b) by (bit_vector)
            requires
                b < 0x1_0000,
        ;
        GpuBrickMeta {
            voxel_origin,
            voxel_offset: BRICK_UNIFORM_FLAG | b,
            world_min,
            lod_and_bits: pack_lod_bits(lod, 0),
            palette_base: 0,
            _pad0: 0,
            _pad1: 0,
            _pad2: 0,
        }
    }

    /// The meta of an unused slot.
    pub fn zeroed() -> (m: GpuBrickMeta)
        ensures
            m == zero_meta(),
    {
        GpuBrickMeta {
            voxel_origin: IVec3 { x: 0, y: 0, z: 0 },
            voxel_offset: 0,
            world_min: IVec3 { x: 0, y: 0, z: 0 },
            lod_and_bits: 0,
            palette_base: 0,
            _pad0: 0,
            _pad1: 0,
            _pad2: 0,
        }
    }

    /// Whether the meta is one of a uniform brick.
    pub open spec fn says_uniform(self) -> bool {
        self.voxel_offset >= 0x8000_0000
    }

    /// The block that the meta of a uniform brick says.
    pub open spec fn said_block(self) -> BlockId {
        BlockId((self.voxel_offset % 0x1_0000) as u16)
    }

    /// The offset that the meta of a dense brick says.
    pub open spec fn said_offset(self) -> int {
        self.voxel_offset as int % 0x8000_0000
    }

    /// The level that a meta says.
    pub open spec fn said_level(self) -> int {
        self.lod_and_bits as int % 8
    }

    /// The index width that a meta says.
    pub open spec fn said_width(self) -> int {
        (self.lod_and_bits as int / 8) % 32
    }

    /// True iff this is the meta of a uniform brick.
    pub fn is_uniform(&self) -> (b: bool)
        ensures
            b == self.says_uniform(),
    {
        let v: u32 = self.voxel_offset;
        assert((v & 0x8000_0000u32 != 0) == (v >= 0x8000_0000u32)) by (bit_vector);
        v & BRICK_UNIFORM_FLAG != 0
    }

    /// The block of a uniform brick.
    pub fn uniform_block(&self) -> (b: BlockId)
        ensures
            b == self.said_block(),
    {
        let v: u32 = self.voxel_offset;
        assert(v & 0xFFFFu32 == v % 0x1_0000u32) by (bit_vector);
        BlockId((v & 0xFFFF) as u16)
    }

    /// Where a dense brick's index stream begins.
    pub fn dense_offset(&self) -> (o: u32)
        ensures
            o == self.said_offset(),
    {
        let v: u32 = self.voxel_offset;
        assert(v & !0x8000_0000u32 == v % 0x8000_0000u32) by (bit_vector);
        v & !BRICK_UNIFORM_FLAG
    }

    /// The brick's level.
    pub fn lod(&self) -> (l: u32)
        ensures
            l == self.said_level(),
    {
        let v: u32 = self.lod_and_bits;
        assert(v & 7u32 == v % 8u32) by (bit_vector);
        v & 0x7
    }

    /// The index width of a dense brick.
    pub fn index_bits(&self) -> (b: u8)
        ensures
            b == self.said_width(),
    {
        let v: u32 = self.lod_and_bits;
        assert((v >> 3u32) & 31u32 == (v / 8u32) % 32u32) by (bit_vector);
        ((v >> 3) & 0x1F) as u8
    }
}

/// Pack the level (bits 0 to 2) and the index width (bits 3 to 7) into one field.
pub fn pack_lod_bits(lod: u32, index_bits: u8) -> (v: u32)
    requires
        lod <= 7,
        index_bits <= 16,
    ensures
        v == lod + 8 * index_bits,
{
    let b: u32 = index_bits as u32;
    assert((lod & 7u32) | ((b & 31u32) << 3u32) == lod + 8 * b) by (bit_vector)
        requires
            lod <= 7,
            b <= 16,
    ;
    (lod & 0x7) | ((b & 0x1F) << 3)
}

/// What a dense meta was made of reads back from it: it is not uniform, and its offset, level, width
/// and palette base are those it was given.
pub proof fn law_dense_meta_reads_back(
    voxel_origin: IVec3,
    voxel_offset: u32,
    world_min: IVec3,
    lod: u32,
    index_bits: u8,
    palette_base: u32,
)
    requires
        voxel_offset < 0x8000_0000,
        lod <= 7,
        index_bits <= 16,
    ensures
        ({
            let m = dense_meta(voxel_origin, voxel_offset, world_min, lod, index_bits, palette_base);
            &&& m.voxel_offset < 0x8000_0000
            &&& m.voxel_offset % 0x8000_0000 == voxel_offset
            &&& m.lod_and_bits % 8 == lod
            &&& (m.lod_and_bits / 8) % 32 == index_bits
            &&& m.palette_base == palette_base
            &&& m.voxel_origin == voxel_origin
            &&& m.world_min == world_min
            &&& m._pad0 == 0 && m._pad1 == 0 && m._pad2 == 0
            &&& !m.says_uniform()
            &&& m.said_offset() == voxel_offset
            &&& m.said_level() == lod
            &&& m.said_width() == index_bits
        }),
{
}

/// What a uniform meta was made of reads back from it: it is uniform, and its block and level are those
/// it was given.
pub proof fn law_uniform_meta_reads_back(
    voxel_origin: IVec3,
    block: BlockId,
    world_min: IVec3,
    lod: u32,
)
    requires
        lod <= 7,
    ensures
        ({
            let m = uniform_meta(voxel_origin, block, world_min, lod);
            &&& m.voxel_offset >= 0x8000_0000
            &&& m.voxel_offset % 0x1_0000 == block.0
            &&& m.lod_and_bits % 8 == lod
            &&& m.lod_and_bits / 8 == 0
            &&& m.says_uniform()
            &&& m.said_block() == block
            &&& m.said_level() == lod
            &&& m.said_width() == 0
            &&& m.palette_base == 0
            &&& m.voxel_origin == voxel_origin
            &&& m.world_min == world_min
            &&& m._pad0 == 0 && m._pad1 == 0 && m._pad2 == 0
        }),
{
}

/// The meta of an unused slot is zero in every field.
pub proof fn law_zero_meta()
    ensures
        ({
            let m = zero_meta();
            &&& m.voxel_origin@ == (0i32, 0i32, 0i32)
            &&& m.world_min@ == (0i32, 0i32, 0i32)
            &&& m.voxel_offset == 0 && m.lod_and_bits == 0 && m.palette_base == 0
            &&& m._pad0 == 0 && m._pad1 == 0 && m._pad2 == 0
        }),
{
}

/// The cells of a haloed grid are in order, x fastest, then y, then z, each at a place of its own.
pub proof fn law_halo_cells_in_order(x: int, y: int, z: int, i: int)
    requires
        0 <= x < 10 && 0 <= y < 10 && 0 <= z < 10,
    ensures
        in_halo(x, y, z),
        0 <= halo_at(x, y, z) < 1000,
        halo_at(x, y, z) == i <==> 0 <= i < 1000 && x == i % 10 && y == (i / 10) % 10 && z == i / 100,
{
}

} // verus!
