//! The voxel block registry: the appearance of each [`BlockId`], and the bridge from a worldgen material
//! to its block.
//!
//! Colours and material parameters are 32-bit floats. The registry never computes with them: it holds
//! their bit patterns and hands them on.

use crate::fxmap::{fx_get, fx_insert, fx_new};
use crate::text::{append_decimal, decimal};
use rustc_hash::FxHashMap;
use vstd::prelude::*;

verus! {

/// A voxel block id. `0` is always AIR (empty space); `1..=N` are solid blocks.
#[derive(Clone, Copy, Debug, PartialEq, Eq, Structural, Hash, PartialOrd, Ord)]
pub struct BlockId(pub u16);

impl BlockId {
    /// The empty block: the absence of a voxel.
    #[verifier::allow_in_spec]
    pub fn air() -> BlockId
        returns
            BlockId(0),
    {
        BlockId(0)
    }

    /// True iff this is the air block.
    pub fn is_air(self) -> (b: bool)
        ensures
            b == (self == BlockId::air()),
    {
        self.0 == 0
    }
}

/// The fixed blocks of the Cornell-box palette ([`BlockRegistry::cornell`]).
#[derive(Clone, Copy, Debug, PartialEq, Eq, Structural)]
pub enum CornellBlock {
    /// Floor, ceiling and back wall: neutral white.
    White,
    /// Left wall (-X): red.
    Red,
    /// Right wall (+X): green.
    Green,
    /// Ceiling light panel: emissive white.
    Light,
}

/// Number of Cornell blocks, air not counted.
pub const CORNELL_COUNT: usize = 4;

impl CornellBlock {
    /// The place of this block in the Cornell palette.
    pub open spec fn place(self) -> u16 {
        match self {
            CornellBlock::White => 1,
            CornellBlock::Red => 2,
            CornellBlock::Green => 3,
            CornellBlock::Light => 4,
        }
    }

    /// This Cornell block's [`BlockId`].
    pub fn id(self) -> (b: BlockId)
        ensures
            b == BlockId(self.place()),
    {
        match self {
            CornellBlock::White => BlockId(1),
            CornellBlock::Red => BlockId(2),
            CornellBlock::Green => BlockId(3),
            CornellBlock::Light => BlockId(4),
        }
    }
}

/// One block type's appearance. The numbers are bit patterns of 32-bit floats: `color` is linear RGBA,
/// `emissive` linear RGB radiance. `emits` says whether the luminance of `emissive` is above zero.
#[derive(Clone, Debug, PartialEq)]
pub struct BlockDef {
    pub name: String,
    pub color: [u32; 4],
    pub roughness: u32,
    pub metal: u32,
    pub emissive: [u32; 3],
    pub emits: bool,
    pub tintable: bool,
}

/// The bit pattern of the float `1.0`.
pub const ONE_BITS: u32 = 0x3F80_0000;

/// The appearance of a block, its name and its numbers.
#[verifier::ext_equal]
pub struct BlockLook {
    pub name: Seq<char>,
    pub color: Seq<u32>,
    pub roughness: u32,
    pub metal: u32,
    pub emissive: Seq<u32>,
    pub emits: bool,
    pub tintable: bool,
}

impl View for BlockDef {
    type V = BlockLook;

    open spec fn view(&self) -> BlockLook {
        BlockLook {
            name: self.name@,
            color: self.color@,
            roughness: self.roughness,
            metal: self.metal,
            emissive: self.emissive@,
            emits: self.emits,
            tintable: self.tintable,
        }
    }
}

/// The appearance of air: transparent black, rough, dark.
pub open spec fn air_look() -> BlockLook {
    BlockLook {
        name: "air"@,
        color: seq![0u32, 0, 0, 0],
        roughness: ONE_BITS,
        metal: 0,
        emissive: seq![0u32, 0, 0],
        emits: false,
        tintable: false,
    }
}

/// An opaque, rough, dark block of colour `(r, g, b)`.
pub open spec fn opaque_look(name: Seq<char>, r: u32, g: u32, b: u32) -> BlockLook {
    BlockLook {
        name,
        color: seq![r, g, b, ONE_BITS],
        roughness: ONE_BITS,
        metal: 0,
        emissive: seq![0u32, 0, 0],
        emits: false,
        tintable: false,
    }
}

impl BlockDef {
    /// The AIR block definition.
    pub fn air() -> (d: BlockDef)
        ensures
            d@ == air_look(),
    {
        let d = BlockDef {
            name: String::from_str("air"),
            color: [0, 0, 0, 0],
            roughness: ONE_BITS,
            metal: 0,
            emissive: [0, 0, 0],
            emits: false,
            tintable: false,
        };
        assert(d@ =~= air_look());
        d
    }

    /// An opaque block that does not glow.
    fn opaque(name: &str, r: u32, g: u32, b: u32) -> (d: BlockDef)
        ensures
            d@ == opaque_look(name@, r, g, b),
    {
        let d = BlockDef {
            name: String::from_str(name),
            color: [r, g, b, ONE_BITS],
            roughness: ONE_BITS,
            metal: 0,
            emissive: [0, 0, 0],
            emits: false,
            tintable: false,
        };
        assert(d@ =~= opaque_look(name@, r, g, b));
        d
    }

    /// A copy of the definition.
    fn copied(&self) -> (d: BlockDef)
        ensures
            d@ == self@,
    {
        BlockDef {
            name: self.name.clone(),
            color: self.color,
            roughness: self.roughness,
            metal: self.metal,
            emissive: self.emissive,
            emits: self.emits,
            tintable: self.tintable,
        }
    }
}

/// A worldgen material id: its place in the library's material list.
#[derive(Clone, Copy, Debug, PartialEq, Eq, Structural, Hash)]
pub struct TerrainMatId(pub u16);

/// A worldgen surface material as the palette reads it. The numbers are bit patterns of floats;
/// `emits` says whether the luminance of `emissive_radiance` is above zero.
#[derive(Clone, Debug)]
pub struct TerrainSurfaceMaterial {
    pub name: String,
    pub preview_color: [u32; 4],
    pub roughness: u32,
    pub emissive_radiance: [u32; 3],
    pub emits: bool,
}

/// One layer of a biome's strata: its material and, as the bit pattern of a float, the depth in metres
/// that it reaches down to.
#[derive(Clone, Copy, Debug, PartialEq, Eq, Structural)]
pub struct StrataLayer {
    pub material: TerrainMatId,
    pub bottom: u32,
}

/// One biome's material column: the surface material, its strata from the top down, and the bedrock
/// below them.
#[derive(Clone, Debug)]
pub struct BiomeDef {
    pub surface: TerrainMatId,
    pub strata: Vec<StrataLayer>,
    pub bedrock: TerrainMatId,
}

/// The worldgen material library.
#[derive(Clone, Debug)]
pub struct BiomeLibrary {
    pub materials: Vec<TerrainSurfaceMaterial>,
    pub biomes: Vec<BiomeDef>,
}

/// A material of a baked asset's material table. The numbers are bit patterns of floats; `emits` says
/// whether the luminance of `emissive` is above zero.
#[derive(Clone, Debug)]
pub struct VxoMaterial {
    pub albedo: [u32; 4],
    pub roughness: u32,
    pub metallic: u32,
    pub emissive: [u32; 3],
    pub emits: bool,
    pub tintable: bool,
}

/// The appearance of the block that mirrors a worldgen material.
pub open spec fn material_look(m: TerrainSurfaceMaterial) -> BlockLook {
    BlockLook {
        name: m.name@,
        color: m.preview_color@,
        roughness: m.roughness,
        metal: 0,
        emissive: m.emissive_radiance@,
        emits: m.emits,
        tintable: true,
    }
}

/// The appearance of the block of entry `i` of a raw colour palette.
pub open spec fn vox_look(i: nat, color: Seq<u32>) -> BlockLook {
    BlockLook {
        name: "vox_"@ + decimal(i),
        color,
        roughness: ONE_BITS,
        metal: 0,
        emissive: seq![0u32, 0, 0],
        emits: false,
        tintable: false,
    }
}

/// The appearance of the block of a baked asset's material.
pub open spec fn matl_look(m: VxoMaterial) -> BlockLook {
    BlockLook {
        name: Seq::empty(),
        color: m.albedo@,
        roughness: m.roughness,
        metal: m.metallic,
        emissive: m.emissive@,
        emits: m.emits,
        tintable: m.tintable,
    }
}

/// The palette of the Cornell scene.
pub open spec fn cornell_looks() -> Seq<BlockLook> {
    seq![
        air_look(),
        opaque_look("cornell_white"@, 0x3F3A_E148, 0x3F3A_E148, 0x3F3A_E148),
        opaque_look("cornell_red"@, 0x3F21_47AE, 0x3D85_1EB8, 0x3D4C_CCCD),
        opaque_look("cornell_green"@, 0x3E0F_5C29, 0x3EE6_6666, 0x3DBA_5E35),
        BlockLook {
            name: "cornell_light"@,
            color: seq![0x3F47_AE14, 0x3F47_AE14, 0x3F47_AE14, ONE_BITS],
            roughness: ONE_BITS,
            metal: 0,
            emissive: seq![ONE_BITS, ONE_BITS, ONE_BITS],
            emits: true,
            tintable: false,
        },
    ]
}

/// Whether the float with bit pattern `bits` differs from zero: a bit other than the sign is set.
pub open spec fn float_nonzero(bits: u32) -> bool {
    bits as int % 0x8000_0000 != 0
}

/// Whether a block has a nonzero emissive channel.
pub open spec fn glows(look: BlockLook) -> bool {
    float_nonzero(look.emissive[0]) || float_nonzero(look.emissive[1]) || float_nonzero(
        look.emissive[2],
    )
}

/// The looks with another light for one of them.
pub open spec fn relit(looks: Seq<BlockLook>, id: BlockId, emissive: Seq<u32>, emits: bool) -> Seq<BlockLook> {
    if id == BlockId::air() || id.0 >= looks.len() {
        looks
    } else {
        looks.update(id.0 as int, (BlockLook { emissive, emits, ..looks[id.0 as int] }))
    }
}

/// The block that mirrors a material.
pub open spec fn bridged(bridge: Map<u16, BlockId>, material: u16) -> BlockId {
    if bridge.dom().contains(material) {
        bridge[material]
    } else {
        BlockId::air()
    }
}

/// The block registry: `BlockId(i)` indexes `blocks[i]`, with air first.
#[derive(Clone, Debug)]
pub struct BlockRegistry {
    /// `BlockId(i)`'s definition.
    blocks: Vec<BlockDef>,
    /// The block that mirrors each worldgen material.
    mat_to_block: FxHashMap<u16, BlockId>,
}

impl View for BlockRegistry {
    type V = Seq<BlockLook>;

    closed spec fn view(&self) -> Seq<BlockLook> {
        self.blocks@.map_values(|d: BlockDef| d@)
    }
}

impl BlockRegistry {
    /// A registry has at least one block.
    pub closed spec fn wf(&self) -> bool {
        self.blocks@.len() >= 1
    }

    /// The material bridge: the block that mirrors each worldgen material.
    pub closed spec fn bridge(&self) -> Map<u16, BlockId> {
        self.mat_to_block@
    }

    /// Of a well-formed registry's view: it is not empty.
    pub broadcast proof fn lemma_nonempty(&self)
        requires
            #[trigger] self.wf(),
        ensures
            self@.len() >= 1,
    {
    }

    /// Build the registry from a worldgen library: air, then one block per material. Material `i` is
    /// mirrored by block `i + 1`.
    pub fn from_biome_library(lib: &BiomeLibrary) -> (r: BlockRegistry)
        requires
            lib.materials@.len() <= 65535,
        ensures
            r.wf(),
            r@ == seq![air_look()] + lib.materials@.map_values(
                |m: TerrainSurfaceMaterial| material_look(m),
            ),
            forall|i: u16| #[trigger]
                r.bridge().dom().contains(i) <==> i < lib.materials@.len(),
            forall|i: u16|
                i < lib.materials@.len() ==> #[trigger] r.bridge()[i] == BlockId((i + 1) as u16),
            is_library_registry(r@, r.bridge(), lib.materials@),
    {
        let mut blocks: Vec<BlockDef> = Vec::new();
        let mut mat_to_block: FxHashMap<u16, BlockId> = fx_new();
        blocks.push(BlockDef::air());
        let mut i: usize = 0;
        while i < lib.materials.len()
            invariant
                lib.materials@.len() <= 65535,
                i <= lib.materials@.len(),
                blocks@.len() == i + 1,
                blocks@[0]@ == air_look(),
                forall|k: int|
                    0 <= k < i ==> (#[trigger] blocks@[k + 1])@ == material_look(lib.materials@[k]),
                forall|k: u16| #[trigger] mat_to_block@.dom().contains(k) <==> k < i,
                forall|k: u16| k < i ==> #[trigger] mat_to_block@[k] == BlockId((k + 1) as u16),
            decreases lib.materials@.len() - i,
        {
            let m = &lib.materials[i];
            let id: BlockId = BlockId((i + 1) as u16);
            let d = BlockDef {
                name: m.name.clone(),
                color: m.preview_color,
                roughness: m.roughness,
                metal: 0,
                emissive: m.emissive_radiance,
                emits: m.emits,
                tintable: true,
            };
            blocks.push(d);
            fx_insert(&mut mat_to_block, i as u16, id);
            i = i + 1;
        }
        let r = BlockRegistry { blocks, mat_to_block };
        proof {
            let want = seq![air_look()] + lib.materials@.map_values(
                |m: TerrainSurfaceMaterial| material_look(m),
            );
            assert forall|k: int| 0 <= k < want.len() implies r@[k] == want[k] by {
                if k > 0 {
                    assert(blocks@[(k - 1) + 1]@ == material_look(lib.materials@[k - 1]));
                }
            }
            assert(r@ =~= want);
        }
        r
    }

    /// Build the Cornell-box palette.
    pub fn cornell() -> (r: BlockRegistry)
        ensures
            r.wf(),
            r@ == cornell_looks(),
            r.bridge() == Map::<u16, BlockId>::empty(),
    {
        let mut blocks: Vec<BlockDef> = Vec::new();
        blocks.push(BlockDef::air());
        blocks.push(BlockDef::opaque("cornell_white", 0x3F3A_E148, 0x3F3A_E148, 0x3F3A_E148));
        blocks.push(BlockDef::opaque("cornell_red", 0x3F21_47AE, 0x3D85_1EB8, 0x3D4C_CCCD));
        blocks.push(BlockDef::opaque("cornell_green", 0x3E0F_5C29, 0x3EE6_6666, 0x3DBA_5E35));
        let light = BlockDef {
            name: String::from_str("cornell_light"),
            color: [0x3F47_AE14, 0x3F47_AE14, 0x3F47_AE14, ONE_BITS],
            roughness: ONE_BITS,
            metal: 0,
            emissive: [ONE_BITS, ONE_BITS, ONE_BITS],
            emits: true,
            tintable: false,
        };
        assert(light@ =~= cornell_looks()[4]);
        blocks.push(light);
        let r = BlockRegistry { blocks, mat_to_block: fx_new() };
        assert(r@ =~= cornell_looks());
        r
    }

    /// Build a registry from a raw palette of linear RGBA colours: air, then one opaque block per entry.
    pub fn from_vox_palette(colors: &[[u32; 4]]) -> (r: BlockRegistry)
        ensures
            r.wf(),
            r@.len() == colors@.len() + 1,
            r@[0] == air_look(),
            forall|i: int|
                0 <= i < colors@.len() ==> #[trigger] r@[i + 1] == vox_look(i as nat, colors@[i]@),
            r.bridge() == Map::<u16, BlockId>::empty(),
    {
        let mut blocks: Vec<BlockDef> = Vec::new();
        blocks.push(BlockDef::air());
        let mut i: usize = 0;
        while i < colors.len()
            invariant
                i <= colors@.len(),
                blocks@.len() == i + 1,
                blocks@[0]@ == air_look(),
                forall|k: int|
                    0 <= k < i ==> (#[trigger] blocks@[k + 1])@ == vox_look(k as nat, colors@[k]@),
            decreases colors@.len() - i,
        {
            let mut name: String = String::from_str("vox_");
            append_decimal(&mut name, i as u64);
            let d = BlockDef {
                name,
                color: colors[i],
                roughness: ONE_BITS,
                metal: 0,
                emissive: [0, 0, 0],
                emits: false,
                tintable: false,
            };
            assert(d@ =~= vox_look(i as nat, colors@[i as int]@));
            blocks.push(d);
            i = i + 1;
        }
        BlockRegistry { blocks, mat_to_block: fx_new() }
    }

    /// Build a registry from a baked asset's material table, whose first entry is air. An empty table
    /// gives the registry with air alone.
    pub fn from_vxo_matl(mats: &[VxoMaterial]) -> (r: BlockRegistry)
        ensures
            r.wf(),
            r@ == (if mats@.len() == 0 {
                seq![air_look()]
            } else {
                mats@.map_values(|m: VxoMaterial| matl_look(m))
            }),
            r.bridge() == Map::<u16, BlockId>::empty(),
    {
        if mats.len() == 0 {
            return BlockRegistry::air_only();
        }
        let mut blocks: Vec<BlockDef> = Vec::new();
        let mut i: usize = 0;
        while i < mats.len()
            invariant
                i <= mats@.len(),
                blocks@.len() == i,
                forall|k: int| 0 <= k < i ==> (#[trigger] blocks@[k])@ == matl_look(mats@[k]),
            decreases mats@.len() - i,
        {
            let m = &mats[i];
            let d = BlockDef {
                name: String::new(),
                color: m.albedo,
                roughness: m.roughness,
                metal: m.metallic,
                emissive: m.emissive,
                emits: m.emits,
                tintable: m.tintable,
            };
            assert(d@ =~= matl_look(*m));
            blocks.push(d);
            i = i + 1;
        }
        let r = BlockRegistry { blocks, mat_to_block: fx_new() };
        assert(r@ =~= mats@.map_values(|m: VxoMaterial| matl_look(m)));
        r
    }

    /// The registry with air alone.
    pub fn air_only() -> (r: BlockRegistry)
        ensures
            r.wf(),
            r@ == seq![air_look()],
            r.bridge() == Map::<u16, BlockId>::empty(),
    {
        let mut blocks: Vec<BlockDef> = Vec::new();
        blocks.push(BlockDef::air());
        let r = BlockRegistry { blocks, mat_to_block: fx_new() };
        assert(r@ =~= seq![air_look()]);
        r
    }

    /// Append every block of `other` but its air. With `base` the length before the call, `other`'s
    /// block `b >= 1` becomes block `base - 1 + b`.
    pub fn extend_blocks_from(&mut self, other: &BlockRegistry)
        requires
            old(self).wf(),
            other.wf(),
        ensures
            final(self).wf(),
            final(self)@ == old(self)@ + other@.skip(1),
            final(self).bridge() == old(self).bridge(),
    {
        let mut i: usize = 1;
        assert(self@ =~= old(self)@ + other@.subrange(1, 1));
        while i < other.blocks.len()
            invariant
                1 <= i <= other.blocks@.len(),
                self.blocks@.len() >= 1,
                self@ == old(self)@ + other@.subrange(1, i as int),
                self.mat_to_block == old(self).mat_to_block,
            decreases other.blocks@.len() - i,
        {
            let ghost before = self@;
            self.blocks.push(other.blocks[i].copied());
            assert(self@ =~= before.push(other@[i as int]));
            assert(self@ =~= old(self)@ + other@.subrange(1, i + 1));
            i = i + 1;
        }
        assert(other@.subrange(1, i as int) =~= other@.skip(1));
    }

    /// The block that mirrors a worldgen material. An unknown material maps to air.
    pub fn block_for_material(&self, mat: TerrainMatId) -> (b: BlockId)
        ensures
            b == bridged(self.bridge(), mat.0),
    {
        match fx_get(&self.mat_to_block, mat.0) {
            Some(b) => *b,
            None => BlockId::air(),
        }
    }

    /// The place of `id` in the registry: an id out of range is read as block zero.
    pub open spec fn slot_of(&self, id: BlockId) -> int {
        if id.0 < self@.len() {
            id.0 as int
        } else {
            0
        }
    }

    /// The definition for `id`. An id out of range resolves to block zero.
    pub fn block(&self, id: BlockId) -> (d: &BlockDef)
        requires
            self.wf(),
        ensures
            d@ == self@[self.slot_of(id)],
    {
        if (id.0 as usize) < self.blocks.len() {
            &self.blocks[id.0 as usize]
        } else {
            &self.blocks[0]
        }
    }

    /// The linear-RGBA colour for `id`.
    pub fn color(&self, id: BlockId) -> (c: [u32; 4])
        requires
            self.wf(),
        ensures
            c@ == self@[self.slot_of(id)].color,
    {
        self.block(id).color
    }

    /// The linear-RGB emissive radiance for `id`.
    pub fn emissive(&self, id: BlockId) -> (e: [u32; 3])
        requires
            self.wf(),
        ensures
            e@ == self@[self.slot_of(id)].emissive,
    {
        self.block(id).emissive
    }

    /// Whether `id` is a light source: the luminance of its emissive radiance is above zero.
    pub fn emits(&self, id: BlockId) -> (b: bool)
        requires
            self.wf(),
        ensures
            b == self@[self.slot_of(id)].emits,
    {
        self.block(id).emits
    }

    /// Set the emissive radiance of `id`, and whether its luminance is above zero. Does nothing for air
    /// and for an id out of range.
    pub fn set_emissive(&mut self, id: BlockId, emissive: [u32; 3], emits: bool)
        requires
            old(self).wf(),
        ensures
            final(self).wf(),
            final(self).bridge() == old(self).bridge(),
            final(self)@ == relit(old(self)@, id, emissive@, emits),
    {
        if !id.is_air() && (id.0 as usize) < self.blocks.len() {
            let mut d: BlockDef = self.blocks[id.0 as usize].copied();
            d.emissive = emissive;
            d.emits = emits;
            self.blocks.set(id.0 as usize, d);
            assert(self@ =~= old(self)@.update(
                id.0 as int,
                (BlockLook { emissive: emissive@, emits, ..old(self)@[id.0 as int] }),
            ));
        }
    }

    /// Number of registered blocks, air among them.
    pub fn len(&self) -> (n: usize)
        ensures
            n == self@.len(),
    {
        self.blocks.len()
    }

    /// True iff any block has nonzero emissive radiance.
    pub fn has_emitters(&self) -> (b: bool)
        ensures
            b == exists|i: int| 0 <= i < self@.len() && glows(#[trigger] self@[i]),
    {
        let mut i: usize = 0;
        while i < self.blocks.len()
            invariant
                i <= self.blocks@.len(),
                forall|k: int| 0 <= k < i ==> !glows(#[trigger] self@[k]),
            decreases self.blocks@.len() - i,
        {
            let e: [u32; 3] = self.blocks[i].emissive;
            assert(e@ == self@[i as int].emissive);
            if e[0] % 0x8000_0000 != 0 || e[1] % 0x8000_0000 != 0 || e[2] % 0x8000_0000 != 0 {
                assert(glows(self@[i as int]));
                return true;
            }
            i = i + 1;
        }
        false
    }

    /// True iff no block but air is registered.
    pub fn is_empty(&self) -> (b: bool)
        ensures
            b == (self@.len() <= 1),
    {
        self.blocks.len() <= 1
    }
}

/// Whether blocks and a bridge are those of a worldgen library's materials.
pub open spec fn is_library_registry(
    looks: Seq<BlockLook>,
    bridge: Map<u16, BlockId>,
    materials: Seq<TerrainSurfaceMaterial>,
) -> bool {
    &&& looks == seq![air_look()] + materials.map_values(|m: TerrainSurfaceMaterial| material_look(m))
    &&& forall|i: u16| #[trigger] bridge.dom().contains(i) <==> i < materials.len()
    &&& forall|i: u16| i < materials.len() ==> #[trigger] bridge[i] == BlockId((i + 1) as u16)
}

/// The block that mirrors a worldgen material carries over the name and numbers of the material itself; it is no
/// metal, and it can be tinted. Different materials have different blocks, none of them air, and a material with a
/// nonzero radiance is a light source of the registry.
pub proof fn law_materials_are_mirrored(
    looks: Seq<BlockLook>,
    bridge: Map<u16, BlockId>,
    materials: Seq<TerrainSurfaceMaterial>,
    i: u16,
)
    requires
        is_library_registry(looks, bridge, materials),
        materials.len() <= 65535,
        i < materials.len(),
    ensures
        looks.len() == materials.len() + 1,
        bridge.dom().contains(i),
        0 < bridge[i].0 < looks.len(),
        forall|j: u16| j < materials.len() && j != i ==> #[trigger] bridge[j] != bridge[i],
        ({
            let look = looks[bridge[i].0 as int];
            let m = materials[i as int];
            &&& look.name == m.name@
            &&& look.color == m.preview_color@
            &&& look.roughness == m.roughness
            &&& look.metal == 0
            &&& look.emissive == m.emissive_radiance@
            &&& look.emits == m.emits
            &&& look.tintable
        }),
        (exists|c: int| 0 <= c < 3 && #[trigger] materials[i as int].emissive_radiance@[c] as int % 0x8000_0000 != 0)
            ==> exists|k: int| 0 <= k < looks.len() && glows(#[trigger] looks[k]),
{
    let look = looks[bridge[i].0 as int];
    if exists|c: int| 0 <= c < 3 && #[trigger] materials[i as int].emissive_radiance@[c] as int % 0x8000_0000 != 0 {
        assert(glows(look));
    }
}

/// Air is block zero of every registry that is built from materials: it is named so, transparent, dark and no light.
pub proof fn law_air_comes_first(looks: Seq<BlockLook>, bridge: Map<u16, BlockId>, materials: Seq<TerrainSurfaceMaterial>)
    requires
        is_library_registry(looks, bridge, materials),
    ensures
        looks[0].name == "air"@,
        looks[0].color == seq![0u32, 0, 0, 0],
        looks[0].emissive == seq![0u32, 0, 0],
        !looks[0].emits,
        !looks[0].tintable,
        looks[0].roughness == 0x3F80_0000,
        looks[0].metal == 0,
{
}

/// A block glows just where a bit other than the sign is set in one of its three channels.
pub proof fn law_glowing_blocks(look: BlockLook)
    requires
        look.emissive.len() == 3,
    ensures
        glows(look) <==> exists|c: int|
            0 <= c < 3 && #[trigger] look.emissive[c] != 0 && look.emissive[c] != 0x8000_0000,
{
    if glows(look) {
        assert(look.emissive[0] != 0 && look.emissive[0] != 0x8000_0000 || look.emissive[1] != 0 && look.emissive[1]
            != 0x8000_0000 || look.emissive[2] != 0 && look.emissive[2] != 0x8000_0000);
    }
    assert(look.emissive[0] == 0 || look.emissive[0] == 0x8000_0000 <==> look.emissive[0] as int % 0x8000_0000 == 0);
    assert(look.emissive[1] == 0 || look.emissive[1] == 0x8000_0000 <==> look.emissive[1] as int % 0x8000_0000 == 0);
    assert(look.emissive[2] == 0 || look.emissive[2] == 0x8000_0000 <==> look.emissive[2] as int % 0x8000_0000 == 0);
}

/// The blocks of the Cornell palette are opaque, rough and no metals. White and the light are grey, in red the first
/// channel is the greatest and in green the second, and only the light glows.
pub proof fn law_cornell_palette()
    ensures
        cornell_looks().len() == 5,
        cornell_looks()[0] == air_look(),
        forall|i: int|
            1 <= i < 5 ==> {
                let look = #[trigger] cornell_looks()[i];
                &&& look.color.len() == 4
                &&& look.color[3] == 0x3F80_0000
                &&& look.roughness == 0x3F80_0000
                &&& look.metal == 0
                &&& !look.tintable
                &&& look.emits == (i == 4)
                &&& look.emissive == (if i == 4 {
                    seq![0x3F80_0000u32, 0x3F80_0000, 0x3F80_0000]
                } else {
                    seq![0u32, 0, 0]
                })
            },
        cornell_looks()[1].name == "cornell_white"@,
        cornell_looks()[1].color == seq![0x3F3A_E148u32, 0x3F3A_E148, 0x3F3A_E148, 0x3F80_0000],
        cornell_looks()[2].name == "cornell_red"@,
        cornell_looks()[2].color == seq![0x3F21_47AEu32, 0x3D85_1EB8, 0x3D4C_CCCD, 0x3F80_0000],
        cornell_looks()[3].name == "cornell_green"@,
        cornell_looks()[3].color == seq![0x3E0F_5C29u32, 0x3EE6_6666, 0x3DBA_5E35, 0x3F80_0000],
        cornell_looks()[4].name == "cornell_light"@,
        cornell_looks()[4].color == seq![0x3F47_AE14u32, 0x3F47_AE14, 0x3F47_AE14, 0x3F80_0000],
        CornellBlock::White.place() == 1,
        CornellBlock::Red.place() == 2,
        CornellBlock::Green.place() == 3,
        CornellBlock::Light.place() == 4,
{
}

/// The block of an entry of a raw palette has the entry's colour and is rough, dark and no metal, and is named by the
/// entry's number.
pub proof fn law_raw_palette_blocks(i: nat, color: Seq<u32>)
    ensures
        vox_look(i, color).name == "vox_"@ + decimal(i),
        vox_look(i, color).color == color,
        vox_look(i, color).roughness == 0x3F80_0000,
        vox_look(i, color).metal == 0,
        vox_look(i, color).emissive == seq![0u32, 0, 0],
        !vox_look(i, color).emits,
        !vox_look(i, color).tintable,
{
}

/// The block of a baked material carries over the material's own numbers.
pub proof fn law_baked_materials_are_mirrored(m: VxoMaterial)
    ensures
        matl_look(m).name == Seq::<char>::empty(),
        matl_look(m).color == m.albedo@,
        matl_look(m).roughness == m.roughness,
        matl_look(m).metal == m.metallic,
        matl_look(m).emissive == m.emissive@,
        matl_look(m).emits == m.emits,
        matl_look(m).tintable == m.tintable,
{
}

/// Giving a block another light changes its light alone, and no other block. Air gets none, and an id that is not there
/// changes nothing.
pub proof fn law_light_of_one_block(looks: Seq<BlockLook>, id: BlockId, emissive: Seq<u32>, emits: bool, j: int)
    requires
        0 <= j < looks.len(),
    ensures
        relit(looks, id, emissive, emits).len() == looks.len(),
        j == 0 || j != id.0 ==> relit(looks, id, emissive, emits)[j] == looks[j],
        j > 0 && j == id.0 ==> {
            let look = relit(looks, id, emissive, emits)[j];
            &&& look.emissive == emissive
            &&& look.emits == emits
            &&& look.name == looks[j].name && look.color == looks[j].color
            &&& look.roughness == looks[j].roughness && look.metal == looks[j].metal
            &&& look.tintable == looks[j].tintable
        },
{
}

/// A material has the block that was made for it, and air where none was.
pub proof fn law_blocks_of_materials(
    looks: Seq<BlockLook>,
    bridge: Map<u16, BlockId>,
    materials: Seq<TerrainSurfaceMaterial>,
    m: u16,
)
    requires
        is_library_registry(looks, bridge, materials),
        materials.len() <= 65535,
    ensures
        m < materials.len() ==> bridged(bridge, m).0 == m + 1,
        m >= materials.len() ==> bridged(bridge, m).0 == 0,
        bridged(Map::empty(), m).0 == 0,
{
}

/// An id out of range has the look of air, and any other its own.
pub proof fn law_look_of_an_id(r: BlockRegistry, id: BlockId)
    ensures
        id.0 < r@.len() ==> r.slot_of(id) == id.0,
        id.0 >= r@.len() ==> r.slot_of(id) == 0,
{
}

/// The look of a block is what its definition says, field by field.
pub proof fn law_look_of_a_definition(d: BlockDef)
    ensures
        d@.name == d.name@,
        d@.color == d.color@,
        d@.roughness == d.roughness,
        d@.metal == d.metal,
        d@.emissive == d.emissive@,
        d@.emits == d.emits,
        d@.tintable == d.tintable,
{
}

} // verus!
