//! A sparse brick store of voxels.
//!
//! A [`Brick`] is an `8³` block of voxels. Bricks are keyed by their integer brick coordinate; an
//! absent key is space that is all air, so empty regions cost nothing.

use crate::fxmap::{fx_get, fx_insert, fx_keys, fx_len, fx_new, fx_remove};
use crate::math::{floor_div8, Cell, IVec3};
use crate::palette::BlockId;
use rustc_hash::FxHashMap;
use vstd::prelude::*;

verus! {

/// Voxels per brick edge.
pub const BRICK_EDGE: i32 = 8;

/// Voxels per brick (`BRICK_EDGE³`).
pub const BRICK_VOXELS: usize = 512;

/// The coarsest level of detail a brick can be stored at.
pub const MAX_LOD: u32 = 7;

/// The voxel-grid edge of a brick at level `lod`: the same at every level. The world span of a brick
/// scales with its level, not its resolution.
pub fn lod_edge(_lod: u32) -> (e: i32)
    ensures
        e == BRICK_EDGE,
{
    BRICK_EDGE
}

/// The clipmap key of a brick: its coordinate on the grid of its level, and the level.
#[derive(Clone, Copy, Debug, PartialEq, Eq, Structural, Hash)]
pub struct BrickKey {
    pub coord: IVec3,
    pub lod: u32,
}

/// A [`BrickKey`] as a tuple, the form in which it keys a map.
pub type Key = (i32, i32, i32, u32);

impl View for BrickKey {
    type V = Key;

    open spec fn view(&self) -> Key {
        (self.coord.x, self.coord.y, self.coord.z, self.lod)
    }
}

impl BrickKey {
    /// The key as a tuple.
    pub fn key(&self) -> (k: Key)
        ensures
            k == self@,
    {
        (self.coord.x, self.coord.y, self.coord.z, self.lod)
    }

    /// The key of the tuple `k`.
    pub fn of_key(k: Key) -> (b: BrickKey)
        ensures
            b@ == k,
    {
        BrickKey { coord: IVec3 { x: k.0, y: k.1, z: k.2 }, lod: k.3 }
    }
}

/// Whether `(x, y, z)` is a local voxel of a brick.
pub open spec fn in_brick(x: int, y: int, z: int) -> bool {
    0 <= x < 8 && 0 <= y < 8 && 0 <= z < 8
}

/// The position of local voxel `(x, y, z)` in a brick's voxel order: +X fastest, then +Y, then +Z.
pub open spec fn voxel_at(x: int, y: int, z: int) -> int {
    x + y * 8 + z * 64
}

/// Linear voxel index for a local `(x, y, z)` in `[0, BRICK_EDGE)`.
pub fn voxel_index(x: i32, y: i32, z: i32) -> (i: usize)
    requires
        in_brick(x as int, y as int, z as int),
    ensures
        i == voxel_at(x as int, y as int, z as int),
        i < BRICK_VOXELS,
{
    (x + y * BRICK_EDGE + z * BRICK_EDGE * BRICK_EDGE) as usize
}

/// The per-voxel storage of a brick: one block for all voxels, or a block per voxel.
#[derive(Clone, Debug, PartialEq)]
enum BrickStorage {
    /// Every voxel is this block.
    Uniform(BlockId),
    /// Per-voxel block ids, indexed by [`voxel_index`].
    Dense(Box<[BlockId; BRICK_VOXELS]>),
}

/// One `8³` brick of voxels: a per-voxel block store plus a cached occupancy bitmask.
#[derive(Clone, Debug, PartialEq)]
pub struct Brick {
    storage: BrickStorage,
    /// Bit `voxel_index(x, y, z)` is set iff that voxel is solid.
    occupancy: [u64; 8],
}

/// Bit `i` of an occupancy mask.
pub open spec fn mask_bit(occupancy: Seq<u64>, i: int) -> bool {
    (occupancy[i / 64] >> ((i % 64) as u64)) & 1 == 1
}

/// Whether every block of `v` is `b`.
pub open spec fn all_are(v: Seq<BlockId>, b: BlockId) -> bool {
    forall|i: int| 0 <= i < v.len() ==> v[i] == b
}

impl View for Brick {
    type V = Seq<BlockId>;

    /// The blocks of the brick in [`voxel_at`] order.
    closed spec fn view(&self) -> Seq<BlockId> {
        match self.storage {
            BrickStorage::Uniform(b) => Seq::new(512, |i: int| b),
            BrickStorage::Dense(v) => v@,
        }
    }
}

impl Brick {
    /// The occupancy mask says which voxels are solid, and a brick of one block is stored as uniform.
    pub closed spec fn wf(&self) -> bool {
        &&& forall|i: int|
            0 <= i < 512 ==> (#[trigger] mask_bit(self.occupancy@, i) <==> self@[i] != BlockId::air())
        &&& (self.storage is Dense ==> !all_are(self@, self@[0]))
    }

    /// A uniform brick: all voxels are `block`.
    pub fn uniform(block: BlockId) -> (brick: Brick)
        ensures
            brick.wf(),
            brick@ == Seq::new(512, |i: int| block),
    {
        let occ: u64 = if block.is_air() { 0u64 } else { 0xFFFF_FFFF_FFFF_FFFFu64 };
        let brick = Brick { storage: BrickStorage::Uniform(block), occupancy: [occ; 8] };
        proof {
            assert forall|i: int| 0 <= i < 512 implies (#[trigger] mask_bit(brick.occupancy@, i)
                <==> brick@[i] != BlockId::air()) by {
                let s = (i % 64) as u64;
                assert((0u64 >> s) & 1 == 0) by (bit_vector);
                assert((0xFFFF_FFFF_FFFF_FFFFu64 >> s) & 1 == 1) by (bit_vector)
                    requires
                        s < 64,
                ;
            }
        }
        brick
    }

    /// Build a brick from a per-voxel block array. If every voxel is the same block it collapses to the
    /// uniform form; otherwise the array is kept.
    pub fn from_voxels(voxels: Box<[BlockId; BRICK_VOXELS]>) -> (brick: Brick)
        ensures
            brick.wf(),
            brick@ == voxels@,
    {
        let first: BlockId = voxels[0];
        let mut uniform: bool = true;
        let mut occupancy: [u64; 8] = [0u64; 8];
        let mut i: usize = 0;
        proof {
            assert forall|k: int| 0 <= k < 512 implies !#[trigger] mask_bit(occupancy@, k) by {
                let s = (k % 64) as u64;
                assert((0u64 >> s) & 1 == 0) by (bit_vector);
            }
        }
        while i < BRICK_VOXELS
            invariant
                i <= 512,
                voxels@.len() == 512,
                first == voxels@[0],
                uniform <==> (forall|k: int| 0 <= k < i ==> voxels@[k] == first),
                forall|k: int|
                    0 <= k < 512 ==> (#[trigger] mask_bit(occupancy@, k) <==> (k < i && voxels@[k]
                        != BlockId::air())),
            decreases 512 - i,
        {
            let b: BlockId = voxels[i];
            if b != first {
                uniform = false;
            }
            if !b.is_air() {
                let ghost before = occupancy@;
                let w: u64 = occupancy[i / 64];
                let s: u64 = (i % 64) as u64;
                occupancy[i / 64] = w | (1u64 << s);
                proof {
                    assert forall|k: int| 0 <= k < 512 implies (#[trigger] mask_bit(occupancy@, k)
                        <==> (mask_bit(before, k) || k == i)) by {
                        if k / 64 == i as int / 64 {
                            lemma_set_bit(w, s, (k % 64) as u64);
                        }
                    }
                }
            }
            i = i + 1;
        }
        if uniform {
            let brick = Brick { storage: BrickStorage::Uniform(first), occupancy };
            assert(brick@ =~= voxels@);
            brick
        } else {
            Brick { storage: BrickStorage::Dense(voxels), occupancy }
        }
    }

    /// The block at local `(x, y, z)` in `[0, BRICK_EDGE)`.
    pub fn get(&self, x: i32, y: i32, z: i32) -> (b: BlockId)
        requires
            self.wf(),
            in_brick(x as int, y as int, z as int),
        ensures
            b == self@[voxel_at(x as int, y as int, z as int)],
    {
        match &self.storage {
            BrickStorage::Uniform(b) => *b,
            BrickStorage::Dense(v) => v[voxel_index(x, y, z)],
        }
    }

    /// True iff local `(x, y, z)` is solid, read from the occupancy mask.
    pub fn is_solid(&self, x: i32, y: i32, z: i32) -> (b: bool)
        requires
            self.wf(),
            in_brick(x as int, y as int, z as int),
        ensures
            b == (self@[voxel_at(x as int, y as int, z as int)] != BlockId::air()),
    {
        let i: usize = voxel_index(x, y, z);
        let b: bool = (self.occupancy[i / 64] >> ((i % 64) as u64)) & 1 == 1;
        assert(b == mask_bit(self.occupancy@, i as int));
        b
    }

    /// True iff the brick is entirely air. Such bricks are never stored in a [`BrickMap`].
    pub fn is_empty(&self) -> (b: bool)
        requires
            self.wf(),
        ensures
            b == all_are(self@, BlockId::air()),
    {
        let mut w: usize = 0;
        while w < 8
            invariant
                self.wf(),
                w <= 8,
                forall|k: int| 0 <= k < 64 * w ==> self@[k] == BlockId::air(),
            decreases 8 - w,
        {
            let word: u64 = self.occupancy[w];
            if word != 0 {
                proof {
                    let s = lemma_nonzero_has_bit(word);
                    let k: int = 64 * w + s;
                    assert(k / 64 == w && k % 64 == s);
                    assert(mask_bit(self.occupancy@, k));
                    assert(self@[k] != BlockId::air());
                }
                return false;
            }
            proof {
                assert forall|k: int| 64 * w <= k < 64 * w + 64 implies self@[k] == BlockId::air() by {
                    let s = (k % 64) as u64;
                    assert((0u64 >> s) & 1 == 0) by (bit_vector);
                    assert(k / 64 == w);
                    assert(!mask_bit(self.occupancy@, k));
                }
            }
            w = w + 1;
        }
        true
    }

    /// True iff every voxel is the same solid block.
    pub fn is_uniform_solid(&self) -> (b: bool)
        requires
            self.wf(),
        ensures
            b == (all_are(self@, self@[0]) && self@[0] != BlockId::air()),
    {
        match &self.storage {
            BrickStorage::Uniform(b) => !b.is_air(),
            BrickStorage::Dense(_) => false,
        }
    }

    /// The single block of a brick whose voxels are all the same block, or `None` for any other brick.
    pub fn uniform_block(&self) -> (r: Option<BlockId>)
        requires
            self.wf(),
        ensures
            r == (if all_are(self@, self@[0]) { Some(self@[0]) } else { None }),
    {
        match &self.storage {
            BrickStorage::Uniform(b) => Some(*b),
            BrickStorage::Dense(_) => None,
        }
    }

    /// A brick holds 512 blocks.
    pub broadcast proof fn lemma_len(&self)
        ensures
            #[trigger] self@.len() == 512,
    {
    }
}

proof fn lemma_set_bit(w: u64, s: u64, t: u64)
    by (bit_vector)
    requires
        s < 64,
        t < 64,
    ensures
        (((w | (1u64 << s)) >> t) & 1 == 1) <==> (((w >> t) & 1 == 1) || t == s),
{
}

/// A nonzero word has a set bit.
proof fn lemma_nonzero_has_bit(w: u64) -> (s: u64)
    requires
        w != 0,
    ensures
        s < 64,
        (w >> s) & 1 == 1,
    decreases w,
{
    if w & 1 == 1 {
        assert((w >> 0u64) & 1 == 1) by (bit_vector)
            requires
                w & 1 == 1,
        ;
        0u64
    } else {
        let h = w >> 1u64;
        assert(h != 0 && h < w && (h >> 63u64) & 1 == 0) by (bit_vector)
            requires
                w != 0,
                w & 1 != 1,
                h == w >> 1u64,
        ;
        let t = lemma_nonzero_has_bit(h);
        let s = (t + 1) as u64;
        assert(s < 64 && (w >> s) & 1 == 1) by (bit_vector)
            requires
                h == w >> 1u64,
                (h >> 63u64) & 1 == 0,
                t < 64,
                (h >> t) & 1 == 1,
                s == t + 1,
        ;
        s
    }
}

/// The brick coordinate that owns a world voxel: floor division by the brick edge on each axis.
pub open spec fn owner_of(v: Cell) -> Cell {
    ((v.0 as int / 8) as i32, (v.1 as int / 8) as i32, (v.2 as int / 8) as i32)
}

/// The position of a world voxel inside the brick that owns it.
pub open spec fn local_of(v: Cell) -> int {
    voxel_at(v.0 as int % 8, v.1 as int % 8, v.2 as int % 8)
}

/// The block at world voxel `v` of a brick store: that of the owning brick, or air where no brick is.
pub open spec fn world_block(bricks: Map<Cell, Seq<BlockId>>, v: Cell) -> BlockId {
    if bricks.dom().contains(owner_of(v)) {
        bricks[owner_of(v)][local_of(v)]
    } else {
        BlockId::air()
    }
}

/// The bricks with these blocks at `c`: a brick that is all air is not kept.
pub open spec fn with_brick(bricks: Map<Cell, Seq<BlockId>>, c: Cell, blocks: Seq<BlockId>) -> Map<Cell, Seq<BlockId>> {
    if all_are(blocks, BlockId::air()) {
        bricks.remove(c)
    } else {
        bricks.insert(c, blocks)
    }
}

/// The brick coordinate owning a world voxel coordinate.
pub fn brick_coord_of_voxel(world_voxel: IVec3) -> (bc: IVec3)
    ensures
        bc@ == owner_of(world_voxel@),
        bc.x as int == world_voxel.x as int / 8,
        bc.y as int == world_voxel.y as int / 8,
        bc.z as int == world_voxel.z as int / 8,
{
    IVec3 { x: floor_div8(world_voxel.x), y: floor_div8(world_voxel.y), z: floor_div8(world_voxel.z) }
}

/// A sparse store of [`Brick`]s keyed by integer brick coordinate. Absent keys are empty space.
#[derive(Debug)]
pub struct BrickMap {
    bricks: FxHashMap<Cell, Brick>,
}

impl View for BrickMap {
    type V = Map<Cell, Seq<BlockId>>;

    /// The stored bricks as sequences of blocks.
    closed spec fn view(&self) -> Map<Cell, Seq<BlockId>> {
        self.bricks@.map_values(|b: Brick| b@)
    }
}

impl BrickMap {
    /// Every stored brick is well-formed and holds a solid voxel.
    pub closed spec fn wf(&self) -> bool {
        &&& self.bricks@.dom().finite()
        &&& forall|c: Cell| #[trigger] self.bricks@.dom().contains(c) ==> self.bricks@[c].wf()
        &&& forall|c: Cell| #[trigger]
            self.bricks@.dom().contains(c) ==> !all_are(self.bricks@[c]@, BlockId::air())
    }

    /// What a store's view says of the bricks in it: 512 blocks each, not all of them air.
    pub proof fn lemma_view(&self)
        requires
            self.wf(),
        ensures
            self@.dom().finite(),
            forall|c: Cell| #[trigger]
                self@.dom().contains(c) ==> self@[c].len() == 512 && !all_are(
                    self@[c],
                    BlockId::air(),
                ),
    {
        assert(self@.dom() =~= self.bricks@.dom());
    }

    /// An empty store.
    pub fn new() -> (m: BrickMap)
        ensures
            m.wf(),
            m@ == Map::<Cell, Seq<BlockId>>::empty(),
    {
        let m = BrickMap { bricks: fx_new() };
        assert(m@ =~= Map::<Cell, Seq<BlockId>>::empty());
        m
    }

    /// Insert `brick` at `coord`, unless it is entirely air: empty bricks are never stored. Returns
    /// `true` if the brick was stored. Replaces any existing brick at `coord`.
    pub fn insert(&mut self, coord: IVec3, brick: Brick) -> (stored: bool)
        requires
            old(self).wf(),
            brick.wf(),
        ensures
            final(self).wf(),
            stored == !all_are(brick@, BlockId::air()),
            final(self)@ == with_brick(old(self)@, coord@, brick@),
    {
        if brick.is_empty() {
            let _gone = fx_remove(&mut self.bricks, coord.cell());
            assert(self@ =~= old(self)@.remove(coord@));
            false
        } else {
            fx_insert(&mut self.bricks, coord.cell(), brick);
            assert(self@ =~= old(self)@.insert(coord@, brick@));
            true
        }
    }

    /// The brick at `coord`, or `None` if that brick is absent.
    pub fn get(&self, coord: IVec3) -> (r: Option<&Brick>)
        requires
            self.wf(),
        ensures
            r is Some == self@.dom().contains(coord@),
            r matches Some(b) ==> b.wf() && b@ == self@[coord@],
    {
        fx_get(&self.bricks, coord.cell())
    }

    /// The block at a world voxel coordinate; an absent brick is air.
    pub fn voxel_block(&self, world_voxel: IVec3) -> (b: BlockId)
        requires
            self.wf(),
        ensures
            b == world_block(self@, world_voxel@),
    {
        let bc: IVec3 = brick_coord_of_voxel(world_voxel);
        match self.get(bc) {
            Some(brick) => {
                let lx: i32 = world_voxel.x - bc.x * BRICK_EDGE;
                let ly: i32 = world_voxel.y - bc.y * BRICK_EDGE;
                let lz: i32 = world_voxel.z - bc.z * BRICK_EDGE;
                brick.get(lx, ly, lz)
            },
            None => BlockId::air(),
        }
    }

    /// True iff the world voxel is solid.
    pub fn voxel_is_solid(&self, world_voxel: IVec3) -> (b: bool)
        requires
            self.wf(),
        ensures
            b == (world_block(self@, world_voxel@) != BlockId::air()),
    {
        !self.voxel_block(world_voxel).is_air()
    }

    /// Number of stored bricks.
    pub fn len(&self) -> (n: usize)
        requires
            self.wf(),
        ensures
            n == self@.dom().len(),
    {
        assert(self@.dom() =~= self.bricks@.dom());
        fx_len(&self.bricks)
    }

    /// True iff no bricks are stored.
    pub fn is_empty(&self) -> (b: bool)
        requires
            self.wf(),
        ensures
            b == (self@ == Map::<Cell, Seq<BlockId>>::empty()),
    {
        let n: usize = self.len();
        proof {
            if n == 0 {
                self.lemma_view();
                assert(self@.dom() =~= Set::empty());
                assert(self@ =~= Map::<Cell, Seq<BlockId>>::empty());
            }
        }
        n == 0
    }

    /// Every stored brick with its coordinate, each once, in an order that is left open.
    pub fn iter(&self) -> (bs: Vec<(IVec3, &Brick)>)
        requires
            self.wf(),
        ensures
            forall|i: int|
                0 <= i < bs@.len() ==> (#[trigger] bs@[i]).1.wf() && self@.dom().contains(bs@[i].0@)
                    && bs@[i].1@ == self@[bs@[i].0@],
            forall|i: int, j: int|
                0 <= i < j < bs@.len() ==> (#[trigger] bs@[i]).0@ != (#[trigger] bs@[j]).0@,
            bs@.len() == self@.dom().len(),
    {
        let cs: Vec<Cell> = self.coords();
        let mut bs: Vec<(IVec3, &Brick)> = Vec::new();
        let mut i: usize = 0;
        while i < cs.len()
            invariant
                self.wf(),
                i <= cs@.len(),
                bs@.len() == i,
                cs@.no_duplicates(),
                forall|c: Cell| #[trigger] self@.dom().contains(c) <==> cs@.contains(c),
                forall|k: int|
                    0 <= k < i ==> (#[trigger] bs@[k]).0@ == cs@[k] && bs@[k].1.wf()
                        && self@.dom().contains(cs@[k]) && bs@[k].1@ == self@[cs@[k]],
            decreases cs@.len() - i,
        {
            let v: IVec3 = IVec3::of_cell(cs[i]);
            assert(cs@.contains(cs@[i as int]));
            if let Some(b) = self.get(v) {
                bs.push((v, b));
            }
            i = i + 1;
        }
        proof {
            cs@.unique_seq_to_set();
            assert(cs@.to_set() =~= self@.dom()) by {
                assert forall|c: Cell| cs@.to_set().contains(c) <==> self@.dom().contains(c) by {}
            }
        }
        bs
    }

    /// The coordinates of every stored brick, each once, in an order that is left open.
    pub fn coords(&self) -> (cs: Vec<Cell>)
        requires
            self.wf(),
        ensures
            cs@.no_duplicates(),
            forall|c: Cell| #[trigger] self@.dom().contains(c) <==> cs@.contains(c),
    {
        let cs: Vec<Cell> = fx_keys(&self.bricks);
        assert forall|c: Cell| #[trigger] self@.dom().contains(c) <==> cs@.contains(c) by {
            assert(self@.dom().contains(c) == self.bricks@.dom().contains(c));
        }
        cs
    }
}

/// A brick's voxels are in order, x fastest, then y, then z, each at a place of its own.
pub proof fn law_voxels_in_order(x: int, y: int, z: int, i: int)
    requires
        0 <= x < 8 && 0 <= y < 8 && 0 <= z < 8,
    ensures
        in_brick(x, y, z),
        0 <= voxel_at(x, y, z) < 512,
        voxel_at(x, y, z) == i <==> 0 <= i < 512 && x == i % 8 && y == (i / 8) % 8 && z == i / 64,
{
}

/// Local voxel `(x, y, z)` of the brick at `c` is world voxel `8 * c + (x, y, z)`: a store has there what the brick has
/// at place `x + 8 * y + 64 * z`, and air where it has no such brick.
pub proof fn law_world_voxels(bricks: Map<Cell, Seq<BlockId>>, c: Cell, x: int, y: int, z: int, v: Cell)
    requires
        0 <= x < 8 && 0 <= y < 8 && 0 <= z < 8,
        v.0 == 8 * c.0 + x && v.1 == 8 * c.1 + y && v.2 == 8 * c.2 + z,
    ensures
        owner_of(v) == c,
        local_of(v) == x + 8 * y + 64 * z,
        bricks.dom().contains(c) ==> world_block(bricks, v) == bricks[c][x + 8 * y + 64 * z],
        !bricks.dom().contains(c) ==> world_block(bricks, v) == BlockId(0),
{
}

/// The blocks of a brick are all one block just where none of them is another.
pub proof fn law_uniform_blocks(v: Seq<BlockId>, b: BlockId)
    ensures
        all_are(v, b) <==> !(exists|i: int| 0 <= i < v.len() && #[trigger] v[i] != b),
{
}

/// Putting a brick into a store changes the world in that brick alone: it shows there what the brick has, voxel by voxel,
/// and elsewhere what it showed. What an earlier brick had there is gone, and a brick of air leaves nothing behind.
pub proof fn law_a_brick_shows_in_its_place(bricks: Map<Cell, Seq<BlockId>>, c: Cell, blocks: Seq<BlockId>, v: Cell)
    requires
        blocks.len() == 512,
    ensures
        v.0 as int / 8 == c.0 && v.1 as int / 8 == c.1 && v.2 as int / 8 == c.2 ==> world_block(
            with_brick(bricks, c, blocks),
            v,
        ) == blocks[v.0 as int % 8 + 8 * (v.1 as int % 8) + 64 * (v.2 as int % 8)],
        !(v.0 as int / 8 == c.0 && v.1 as int / 8 == c.1 && v.2 as int / 8 == c.2) ==> world_block(
            with_brick(bricks, c, blocks),
            v,
        ) == world_block(bricks, v),
        with_brick(bricks, c, blocks).dom().contains(c) <==> exists|i: int| 0 <= i < 512 && (#[trigger] blocks[i]).0 != 0,
{
    let i = v.0 as int % 8 + 8 * (v.1 as int % 8) + 64 * (v.2 as int % 8);
    assert(local_of(v) == i);
    assert(0 <= i < 512);
    if !all_are(blocks, BlockId(0)) {
        let j = choose|j: int| 0 <= j < blocks.len() && blocks[j] != BlockId(0);
        assert(blocks[j].0 != 0);
    }
}

/// A brick's key has its coordinate, in order, and then its level.
pub proof fn law_key_of_a_brick(b: BrickKey)
    ensures
        b@.0 == b.coord.x,
        b@.1 == b.coord.y,
        b@.2 == b.coord.z,
        b@.3 == b.lod,
{
}

} // verus!
