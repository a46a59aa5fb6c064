//! The GPU contribution of one resident brick.
//!
//! A brick is packed from its own `8³` core and the boundary voxels of its neighbours on the same level.
//! The full packer and the incremental packer both build a brick through [`pack_one`].

use crate::brickmap::{in_brick, voxel_at, Brick, Key, BRICK_EDGE};
use crate::fxmap::{fx_get, fx_insert, fx_new};
use crate::gpu::{brick_aabb, dense_meta, halo_at, halo_cells, uniform_meta, GpuBrickAabb, GpuBrickMeta};
use crate::math::{floor_div8, floor_rem8, IVec3};
use crate::palette::BlockId;
use rustc_hash::FxHashMap;
use vstd::prelude::*;

verus! {

/// One resident brick ready to pack: its clipmap key and its voxels at that level.
pub struct ResidentBrick<'a> {
    /// Integer brick coordinate on the grid of level `lod`.
    pub coord: IVec3,
    /// The brick's voxels.
    pub brick: &'a Brick,
    /// The level of this brick. Different levels are different coordinate grids.
    pub lod: u32,
}

impl<'a> ResidentBrick<'a> {
    /// The brick's clipmap key.
    pub open spec fn key_spec(&self) -> Key {
        (self.coord.x, self.coord.y, self.coord.z, self.lod)
    }

    /// The brick's clipmap key.
    pub fn key(&self) -> (k: Key)
        ensures
            k == self.key_spec(),
    {
        (self.coord.x, self.coord.y, self.coord.z, self.lod)
    }

    /// The brick is well-formed and its key can be packed.
    pub open spec fn wf(&self) -> bool {
        self.brick.wf() && key_ok(self.key_spec())
    }
}

/// The blocks of a set of resident bricks.
pub type Blocks = Map<Key, Seq<BlockId>>;

/// Whether a brick of this key can be packed: its world-voxel origin fits in 32 bits on every axis and
/// its level in the meta's level field.
pub open spec fn key_ok(k: Key) -> bool {
    &&& -0x1000_0000 <= k.0 < 0x1000_0000
    &&& -0x1000_0000 <= k.1 < 0x1000_0000
    &&& -0x1000_0000 <= k.2 < 0x1000_0000
    &&& k.3 <= 7
}

/// The key `(dx, dy, dz)` bricks away on the same level.
pub open spec fn shifted(k: Key, dx: int, dy: int, dz: int) -> Key {
    ((k.0 + dx) as i32, (k.1 + dy) as i32, (k.2 + dz) as i32, k.3)
}

/// The block at local voxel `(cx, cy, cz)` of the brick at `k`, where a coordinate outside the brick
/// reads the neighbour it falls into, and an absent neighbour is air.
pub open spec fn border_block(m: Blocks, k: Key, cx: int, cy: int, cz: int) -> BlockId {
    let n = shifted(k, cx / 8, cy / 8, cz / 8);
    if m.dom().contains(n) {
        m[n][voxel_at(cx % 8, cy % 8, cz % 8)]
    } else {
        BlockId::air()
    }
}

/// The block in cell `i` of the haloed grid of a brick with the given core.
pub open spec fn halo_block(core: Seq<BlockId>, m: Blocks, k: Key, i: int) -> BlockId {
    let cx = i % 10 - 1;
    let cy = (i / 10) % 10 - 1;
    let cz = i / 100 - 1;
    if in_brick(cx, cy, cz) {
        core[voxel_at(cx, cy, cz)]
    } else {
        border_block(m, k, cx, cy, cz)
    }
}

/// The haloed grid of a brick: its core and a border of neighbouring voxels, as block ids.
pub open spec fn haloed(core: Seq<BlockId>, m: Blocks, k: Key) -> Seq<u32> {
    Seq::new(1000, |i: int| halo_block(core, m, k, i).0 as u32)
}

/// Whether a brick is buried: its whole haloed grid is one solid block.
pub open spec fn buried(core: Seq<BlockId>, m: Blocks, k: Key) -> bool {
    &&& core[0] != BlockId::air()
    &&& forall|i: int| 0 <= i < 1000 ==> #[trigger] halo_block(core, m, k, i) == core[0]
}

/// The voxel content one resident brick contributes.
#[derive(Clone, Debug, PartialEq)]
pub enum BrickVoxels {
    /// The whole haloed grid is this block; it rides in the meta.
    Uniform(BlockId),
    /// The haloed grid, one block id per cell.
    Dense(Vec<u32>),
}

/// The voxel content of a packed brick.
pub enum VoxelsView {
    Uniform(BlockId),
    Dense(Seq<u32>),
}

impl View for BrickVoxels {
    type V = VoxelsView;

    open spec fn view(&self) -> VoxelsView {
        match self {
            BrickVoxels::Uniform(b) => VoxelsView::Uniform(*b),
            BrickVoxels::Dense(cells) => VoxelsView::Dense(cells@),
        }
    }
}

/// The voxel content of a brick: one block where the brick is buried, else its haloed grid.
pub open spec fn packed(core: Seq<BlockId>, m: Blocks, k: Key) -> VoxelsView {
    if buried(core, m, k) {
        VoxelsView::Uniform(core[0])
    } else {
        VoxelsView::Dense(haloed(core, m, k))
    }
}

/// The world-voxel origin of the brick at `k`.
pub open spec fn origin_of(k: Key) -> IVec3 {
    IVec3 { x: (k.0 * 8) as i32, y: (k.1 * 8) as i32, z: (k.2 * 8) as i32 }
}

/// The coordinate of the brick at `k`.
pub open spec fn coord_of(k: Key) -> IVec3 {
    IVec3 { x: k.0, y: k.1, z: k.2 }
}

/// The GPU contribution of one resident brick, independent of where its voxels are laid out.
#[derive(Clone, Debug, PartialEq)]
pub struct PackedBrick {
    /// The brick's bounding box.
    pub aabb: GpuBrickAabb,
    /// The brick's world-voxel origin.
    pub voxel_origin: IVec3,
    /// The brick's world-minimum corner, in brick spans of its level.
    pub world_min: IVec3,
    /// The brick's level.
    pub lod: u32,
    /// One block, or the haloed grid.
    pub voxels: BrickVoxels,
}

/// Where a dense brick's index stream and palette lie, and how wide its indices are.
#[derive(Clone, Copy, Debug, PartialEq, Eq, Structural)]
pub struct DenseLayout {
    /// Start word of the index stream.
    pub voxel_offset: u32,
    /// Start word of the palette.
    pub palette_base: u32,
    /// The index width.
    pub index_bits: u8,
}

impl PackedBrick {
    /// The geometry is that of the brick at `k`.
    pub open spec fn is_at(&self, k: Key) -> bool {
        &&& self.aabb == (GpuBrickAabb::Brick { coord: coord_of(k), lod: k.3 })
        &&& self.voxel_origin == origin_of(k)
        &&& self.world_min == coord_of(k)
        &&& self.lod == k.3
    }

    /// The meta of a uniform brick.
    pub fn meta_uniform(&self) -> (m: GpuBrickMeta)
        requires
            self.voxels is Uniform,
            self.lod <= 7,
        ensures
            m == uniform_meta(
                self.voxel_origin,
                self.voxels->Uniform_0,
                self.world_min,
                self.lod,
            ),
    {
        match &self.voxels {
            BrickVoxels::Uniform(block) => GpuBrickMeta::uniform(
                self.voxel_origin,
                *block,
                self.world_min,
                self.lod,
            ),
            BrickVoxels::Dense(_) => GpuBrickMeta::zeroed(),
        }
    }

    /// The meta of a dense brick once its layout is known.
    pub fn meta_dense(&self, layout: DenseLayout) -> (m: GpuBrickMeta)
        requires
            layout.voxel_offset < 0x8000_0000,
            layout.index_bits <= 16,
            self.lod <= 7,
        ensures
            m == dense_meta(
                self.voxel_origin,
                layout.voxel_offset,
                self.world_min,
                self.lod,
                layout.index_bits,
                layout.palette_base,
            ),
    {
        GpuBrickMeta::dense(
            self.voxel_origin,
            layout.voxel_offset,
            self.world_min,
            self.lod,
            layout.index_bits,
            layout.palette_base,
        )
    }
}

/// The blocks behind a map of brick references.
pub open spec fn blocks_behind(m: Map<Key, &Brick>) -> Blocks {
    m.map_values(|b: &Brick| b@)
}

/// Whether every brick of the map is well-formed.
pub open spec fn bricks_wf(m: Map<Key, &Brick>) -> bool {
    forall|k: Key| #[trigger] m.dom().contains(k) ==> m[k].wf()
}

/// The blocks of a list of resident bricks; of two entries with one key the later counts.
pub open spec fn resident_blocks(entries: Seq<ResidentBrick>) -> Blocks
    decreases entries.len(),
{
    if entries.len() == 0 {
        Map::empty()
    } else {
        resident_blocks(entries.drop_last()).insert(
            entries.last().key_spec(),
            entries.last().brick@,
        )
    }
}

/// Whether every entry can be packed.
pub open spec fn entries_wf(entries: Seq<ResidentBrick>) -> bool {
    forall|i: int| 0 <= i < entries.len() ==> (#[trigger] entries[i]).wf()
}

/// A key has blocks in the list iff an entry has that key.
pub proof fn lemma_resident_blocks(entries: Seq<ResidentBrick>)
    ensures
        resident_blocks(entries).dom().finite(),
        forall|k: Key| #[trigger]
            resident_blocks(entries).dom().contains(k) <==> exists|i: int|
                0 <= i < entries.len() && (#[trigger] entries[i]).key_spec() == k,
    decreases entries.len(),
{
    if entries.len() > 0 {
        let front = entries.drop_last();
        lemma_resident_blocks(front);
        assert forall|k: Key| #[trigger] resident_blocks(entries).dom().contains(k) <==> exists|i: int|
            0 <= i < entries.len() && (#[trigger] entries[i]).key_spec() == k by {
            if resident_blocks(front).dom().contains(k) {
                let i = choose|i: int| 0 <= i < front.len() && (#[trigger] front[i]).key_spec() == k;
                assert(entries[i] == front[i]);
            }
            if k == entries.last().key_spec() {
                assert(entries[entries.len() - 1].key_spec() == k);
            }
            if exists|i: int| 0 <= i < entries.len() && (#[trigger] entries[i]).key_spec() == k {
                let i = choose|i: int|
                    0 <= i < entries.len() && (#[trigger] entries[i]).key_spec() == k;
                if i < front.len() {
                    assert(front[i] == entries[i]);
                }
            }
        }
    }
}

/// Index a list of resident bricks by clipmap key.
pub fn build_by_key<'a>(entries: &[ResidentBrick<'a>]) -> (m: FxHashMap<Key, &'a Brick>)
    requires
        entries_wf(entries@),
    ensures
        bricks_wf(m@),
        blocks_behind(m@) == resident_blocks(entries@),
        m@.dom() == resident_blocks(entries@).dom(),
{
    let mut m: FxHashMap<Key, &'a Brick> = fx_new();
    let mut i: usize = 0;
    assert(entries@.take(0) =~= Seq::empty());
    assert(blocks_behind(m@) =~= resident_blocks(entries@.take(0)));
    while i < entries.len()
        invariant
            i <= entries@.len(),
            entries_wf(entries@),
            bricks_wf(m@),
            blocks_behind(m@) == resident_blocks(entries@.take(i as int)),
        decreases entries@.len() - i,
    {
        let e = &entries[i];
        let ghost before = m@;
        assert(entries@[i as int].wf());
        fx_insert(&mut m, e.key(), e.brick);
        proof {
            let t = entries@.take(i + 1);
            assert(t.drop_last() =~= entries@.take(i as int));
            assert(t.last() == entries@[i as int]);
            assert(blocks_behind(m@) =~= blocks_behind(before).insert(e.key_spec(), e.brick@));
        }
        i = i + 1;
    }
    assert(entries@.take(i as int) =~= entries@);
    assert(m@.dom() =~= blocks_behind(m@).dom());
    m
}

/// The block of a border cell at local voxel `cc` of the brick at `k`: that of the neighbour that owns
/// the voxel, or air where there is no such neighbour on this level.
pub fn neighbour_border_cell(by_key: &FxHashMap<Key, &Brick>, k: Key, cc: IVec3) -> (b: BlockId)
    requires
        bricks_wf(by_key@),
        key_ok(k),
        -8 <= cc.x < 16,
        -8 <= cc.y < 16,
        -8 <= cc.z < 16,
    ensures
        b == border_block(blocks_behind(by_key@), k, cc.x as int, cc.y as int, cc.z as int),
{
    let n: Key = (k.0 + floor_div8(cc.x), k.1 + floor_div8(cc.y), k.2 + floor_div8(cc.z), k.3);
    match fx_get(by_key, n) {
        Some(brick) => brick.get(floor_rem8(cc.x), floor_rem8(cc.y), floor_rem8(cc.z)),
        None => BlockId::air(),
    }
}

/// The block in cell `i` of the haloed grid.
fn halo_cell(core: &Brick, by_key: &FxHashMap<Key, &Brick>, k: Key, i: usize) -> (b: BlockId)
    requires
        core.wf(),
        bricks_wf(by_key@),
        key_ok(k),
        i < 1000,
    ensures
        b == halo_block(core@, blocks_behind(by_key@), k, i as int),
{
    let cx: i32 = (i % 10) as i32 - 1;
    let cy: i32 = ((i / 10) % 10) as i32 - 1;
    let cz: i32 = (i / 100) as i32 - 1;
    if 0 <= cx && cx < BRICK_EDGE && 0 <= cy && cy < BRICK_EDGE && 0 <= cz && cz < BRICK_EDGE {
        core.get(cx, cy, cz)
    } else {
        neighbour_border_cell(by_key, k, IVec3 { x: cx, y: cy, z: cz })
    }
}

/// A cell of the core of a haloed grid.
pub proof fn lemma_core_cell(core: Seq<BlockId>, m: Blocks, k: Key, j: int)
    requires
        0 <= j < 512,
    ensures
        ({
            let i = halo_at(j % 8 + 1, (j / 8) % 8 + 1, j / 64 + 1);
            &&& 0 <= i < 1000
            &&& halo_block(core, m, k, i) == core[j]
        }),
{
    let x = j % 8;
    let y = (j / 8) % 8;
    let z = j / 64;
    lemma_digits(j);
    lemma_halo_digits(x, y, z);
    assert(voxel_at(x, y, z) == j);
}

/// The coordinates of a voxel give its place.
proof fn lemma_digits(j: int)
    requires
        0 <= j < 512,
    ensures
        j == j % 8 + (j / 8) % 8 * 8 + j / 64 * 64,
        0 <= (j / 8) % 8 < 8,
        0 <= j / 64 < 8,
{
    let q = j / 8;
    assert(j == q * 8 + j % 8);
    assert(q / 8 == j / 64);
    assert(q == q / 8 * 8 + q % 8);
}

/// The place of a core cell in the haloed grid gives its coordinates.
proof fn lemma_halo_digits(x: int, y: int, z: int)
    requires
        0 <= x < 8,
        0 <= y < 8,
        0 <= z < 8,
    ensures
        0 <= halo_at(x + 1, y + 1, z + 1) < 1000,
        halo_at(x + 1, y + 1, z + 1) % 10 == x + 1,
        (halo_at(x + 1, y + 1, z + 1) / 10) % 10 == y + 1,
        halo_at(x + 1, y + 1, z + 1) / 100 == z + 1,
{
    let i = halo_at(x + 1, y + 1, z + 1);
    let q = (y + 1) + (z + 1) * 10;
    assert(i == q * 10 + (x + 1));
    assert(i / 10 == q && i % 10 == x + 1);
    assert(q / 10 == z + 1 && q % 10 == y + 1);
    assert(i / 100 == q / 10);
}

/// The block of a brick that is buried, or `None`. Only a brick whose core is one solid block can be.
fn uniform_incl_halo_block(core: &Brick, by_key: &FxHashMap<Key, &Brick>, k: Key) -> (r: Option<BlockId>)
    requires
        core.wf(),
        bricks_wf(by_key@),
        key_ok(k),
    ensures
        r == (if buried(core@, blocks_behind(by_key@), k) {
            Some(core@[0])
        } else {
            None
        }),
{
    let ghost m = blocks_behind(by_key@);
    proof {
        broadcast use Brick::lemma_len;

        if buried(core@, m, k) {
            assert forall|j: int| 0 <= j < 512 implies #[trigger] core@[j] == core@[0] by {
                lemma_core_cell(core@, m, k, j);
            }
        }
    }
    match core.uniform_block() {
        None => None,
        Some(block) => {
            if block.is_air() {
                return None;
            }
            let mut i: usize = 0;
            while i < 1000
                invariant
                    core.wf(),
                    bricks_wf(by_key@),
                    key_ok(k),
                    m == blocks_behind(by_key@),
                    block == core@[0],
                    block != BlockId::air(),
                    i <= 1000,
                    forall|j: int| 0 <= j < i ==> #[trigger] halo_block(core@, m, k, j) == block,
                decreases 1000 - i,
            {
                if halo_cell(core, by_key, k, i) != block {
                    return None;
                }
                i = i + 1;
            }
            Some(block)
        },
    }
}

/// Pack one resident brick against the resident bricks around it.
pub fn pack_one(e: &ResidentBrick<'_>, by_key: &FxHashMap<Key, &Brick>) -> (pb: PackedBrick)
    requires
        e.wf(),
        bricks_wf(by_key@),
    ensures
        pb.is_at(e.key_spec()),
        pb.voxels@ == packed(e.brick@, blocks_behind(by_key@), e.key_spec()),
{
    let k: Key = e.key();
    let ghost m = blocks_behind(by_key@);
    let voxel_origin: IVec3 = IVec3 { x: k.0 * BRICK_EDGE, y: k.1 * BRICK_EDGE, z: k.2 * BRICK_EDGE };
    let aabb: GpuBrickAabb = brick_aabb(e.coord, e.lod);
    if let Some(block) = uniform_incl_halo_block(e.brick, by_key, k) {
        return PackedBrick {
            aabb,
            voxel_origin,
            world_min: e.coord,
            lod: e.lod,
            voxels: BrickVoxels::Uniform(block),
        };
    }
    let n: usize = halo_cells(0);
    let mut voxels: Vec<u32> = Vec::with_capacity(n);
    let mut i: usize = 0;
    while i < n
        invariant
            n == 1000,
            i <= n,
            e.wf(),
            bricks_wf(by_key@),
            k == e.key_spec(),
            m == blocks_behind(by_key@),
            voxels@.len() == i,
            forall|j: int| 0 <= j < i ==> #[trigger] voxels@[j] == haloed(e.brick@, m, k)[j],
        decreases n - i,
    {
        let b: BlockId = halo_cell(e.brick, by_key, k, i);
        voxels.push(b.0 as u32);
        i = i + 1;
    }
    assert(voxels@ =~= haloed(e.brick@, m, k));
    PackedBrick { aabb, voxel_origin, world_min: e.coord, lod: e.lod, voxels: BrickVoxels::Dense(voxels) }
}

/// The block at the voxel `(x, y, z)` of a level, counted over all its bricks: that of the brick that has the voxel, and
/// air where there is none.
pub open spec fn level_block(m: Blocks, lod: u32, x: int, y: int, z: int) -> BlockId {
    let k = ((x / 8) as i32, (y / 8) as i32, (z / 8) as i32, lod);
    if m.dom().contains(k) {
        m[k][x % 8 + 8 * (y % 8) + 64 * (z % 8)]
    } else {
        BlockId(0)
    }
}

/// The haloed grid of a brick holds the blocks of its level in and around the brick, up to one voxel away: cell
/// `(x + 1) + 10 * (y + 1) + 100 * (z + 1)` is the voxel `(x, y, z)` from the brick's corner.
pub proof fn law_halo_is_the_level(m: Blocks, k: Key, x: int, y: int, z: int)
    requires
        m.dom().contains(k),
        key_ok(k),
        -1 <= x <= 8,
        -1 <= y <= 8,
        -1 <= z <= 8,
    ensures
        halo_block(m[k], m, k, (x + 1) + 10 * (y + 1) + 100 * (z + 1)) == level_block(
            m,
            k.3,
            8 * k.0 + x,
            8 * k.1 + y,
            8 * k.2 + z,
        ),
{
    let i = (x + 1) + 10 * (y + 1) + 100 * (z + 1);
    let q = (y + 1) + 10 * (z + 1);
    assert(i == q * 10 + (x + 1));
    assert(i / 10 == q && i % 10 == x + 1);
    assert(q / 10 == z + 1 && q % 10 == y + 1);
    assert(i / 100 == q / 10);
    assert((8 * k.0 + x) / 8 == k.0 + x / 8 && (8 * k.0 + x) % 8 == x % 8);
    assert((8 * k.1 + y) / 8 == k.1 + y / 8 && (8 * k.1 + y) % 8 == y % 8);
    assert((8 * k.2 + z) / 8 == k.2 + z / 8 && (8 * k.2 + z) % 8 == z % 8);
}

/// A brick is packed as one block just where it and all voxels around it are that block and solid; else its haloed grid
/// is kept, cell by cell.
pub proof fn law_packed_brick(m: Blocks, k: Key)
    requires
        m.dom().contains(k),
        m[k].len() == 512,
        key_ok(k),
    ensures
        (packed(m[k], m, k) matches VoxelsView::Uniform(b) ==> b != BlockId(0) && forall|x: int, y: int, z: int|
            -1 <= x <= 8 && -1 <= y <= 8 && -1 <= z <= 8 ==> #[trigger] level_block(
                m,
                k.3,
                8 * k.0 + x,
                8 * k.1 + y,
                8 * k.2 + z,
            ) == b),
        (packed(m[k], m, k) matches VoxelsView::Dense(cells) ==> cells.len() == 1000 && forall|x: int, y: int, z: int|
            -1 <= x <= 8 && -1 <= y <= 8 && -1 <= z <= 8 ==> cells[(x + 1) + 10 * (y + 1) + 100 * (z + 1)]
                == #[trigger] level_block(m, k.3, 8 * k.0 + x, 8 * k.1 + y, 8 * k.2 + z).0),
        (forall|x: int, y: int, z: int|
            -1 <= x <= 8 && -1 <= y <= 8 && -1 <= z <= 8 ==> #[trigger] level_block(
                m,
                k.3,
                8 * k.0 + x,
                8 * k.1 + y,
                8 * k.2 + z,
            ) == m[k][0]) && m[k][0] != BlockId(0) ==> packed(m[k], m, k) is Uniform,
{
    assert forall|x: int, y: int, z: int| -1 <= x <= 8 && -1 <= y <= 8 && -1 <= z <= 8 implies #[trigger] level_block(
        m,
        k.3,
        8 * k.0 + x,
        8 * k.1 + y,
        8 * k.2 + z,
    ) == halo_block(m[k], m, k, (x + 1) + 10 * (y + 1) + 100 * (z + 1)) && 0 <= (x + 1) + 10 * (y + 1) + 100 * (z + 1)
        < 1000 by {
        law_halo_is_the_level(m, k, x, y, z);
    }
    if (forall|x: int, y: int, z: int|
        -1 <= x <= 8 && -1 <= y <= 8 && -1 <= z <= 8 ==> #[trigger] level_block(
            m,
            k.3,
            8 * k.0 + x,
            8 * k.1 + y,
            8 * k.2 + z,
        ) == m[k][0]) && m[k][0] != BlockId(0) {
        assert forall|i: int| 0 <= i < 1000 implies #[trigger] halo_block(m[k], m, k, i) == m[k][0] by {
            let (x, y, z) = (i % 10 - 1, (i / 10) % 10 - 1, i / 100 - 1);
            law_halo_is_the_level(m, k, x, y, z);
            assert(i == i / 10 * 10 + i % 10 && i / 10 == i / 10 / 10 * 10 + i / 10 % 10 && i / 10 / 10 == i / 100);
            assert(level_block(m, k.3, 8 * k.0 + x, 8 * k.1 + y, 8 * k.2 + z) == m[k][0]);
        }
    }
}

/// The geometry of a brick: its voxels begin at eight times its coordinate.
pub proof fn law_brick_geometry(k: Key)
    requires
        key_ok(k),
    ensures
        origin_of(k).x == 8 * k.0,
        origin_of(k).y == 8 * k.1,
        origin_of(k).z == 8 * k.2,
        coord_of(k).x == k.0,
        coord_of(k).y == k.1,
        coord_of(k).z == k.2,
{
}

/// A list of resident bricks has a brick at the keys that are listed and nowhere else; where a key is listed twice, the
/// last one counts.
pub proof fn law_last_resident_counts(entries: Seq<ResidentBrick>, k: Key)
    ensures
        resident_blocks(entries).dom().contains(k) <==> exists|i: int|
            0 <= i < entries.len() && #[trigger] entries[i].key_spec() == k,
        forall|i: int|
            0 <= i < entries.len() && #[trigger] entries[i].key_spec() == k && (forall|j: int|
                i < j < entries.len() ==> #[trigger] entries[j].key_spec() != k) ==> resident_blocks(entries)[k]
                == entries[i].brick@,
    decreases entries.len(),
{
    if entries.len() > 0 {
        let front = entries.drop_last();
        let n = entries.len() - 1;
        law_last_resident_counts(front, k);
        assert(entries[n] == entries.last());
        assert(forall|i: int| 0 <= i < n ==> #[trigger] front[i] == entries[i]);
        let last = entries[n].key_spec();
        assert(resident_blocks(entries) == resident_blocks(front).insert(last, entries[n].brick@));
        assert forall|i: int|
            0 <= i < entries.len() && #[trigger] entries[i].key_spec() == k && (forall|j: int|
                i < j < entries.len() ==> #[trigger] entries[j].key_spec() != k) implies resident_blocks(entries)[k]
            == entries[i].brick@ by {
            if i < n {
                assert(entries[n].key_spec() != k);
                assert(front[i].key_spec() == k);
                assert forall|j: int| i < j < front.len() implies #[trigger] front[j].key_spec() != k by {
                    assert(entries[j].key_spec() != k);
                }
            }
        }
        if resident_blocks(front).dom().contains(k) {
            let i = choose|i: int| 0 <= i < front.len() && #[trigger] front[i].key_spec() == k;
            assert(entries[i].key_spec() == k);
        }
        if exists|i: int| 0 <= i < entries.len() && #[trigger] entries[i].key_spec() == k {
            let i = choose|i: int| 0 <= i < entries.len() && #[trigger] entries[i].key_spec() == k;
            if i < n {
                assert(front[i].key_spec() == k);
            }
        }
    }
}

/// The key of a resident brick: its coordinate and its level.
pub proof fn law_resident_key(e: ResidentBrick)
    ensures
        e.key_spec().0 == e.coord.x,
        e.key_spec().1 == e.coord.y,
        e.key_spec().2 == e.coord.z,
        e.key_spec().3 == e.lod,
{
}

/// A packed brick is where its key says: its box, its corner, its first voxel and its level.
pub proof fn law_where_a_packed_brick_is(b: PackedBrick, k: Key)
    requires
        b.is_at(k),
        key_ok(k),
    ensures
        b.aabb matches GpuBrickAabb::Brick { coord, lod } && coord@ == (k.0, k.1, k.2) && lod == k.3,
        b.voxel_origin.x == 8 * k.0 && b.voxel_origin.y == 8 * k.1 && b.voxel_origin.z == 8 * k.2,
        b.world_min@ == (k.0, k.1, k.2),
        b.lod == k.3,
{
}

/// The blocks behind a table of bricks are those of its bricks, key by key.
pub proof fn law_blocks_behind(m: Map<Key, &Brick>, k: Key)
    ensures
        blocks_behind(m).dom().contains(k) == m.dom().contains(k),
        m.dom().contains(k) ==> blocks_behind(m)[k] == m[k]@,
{
}

/// What a packed brick has is its one block or its cells.
pub proof fn law_voxels_of_a_packed_brick(v: BrickVoxels)
    ensures
        v matches BrickVoxels::Uniform(b) ==> v@ == VoxelsView::Uniform(b),
        v matches BrickVoxels::Dense(cells) ==> v@ == VoxelsView::Dense(cells@),
{
}

} // verus!
