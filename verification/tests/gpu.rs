use adventure::alias::{build_alias_table, GpuAliasEntry};
use adventure::brickmap::{voxel_index, Brick, BrickMap, BRICK_EDGE, BRICK_VOXELS};
use adventure::gpu::{
    brick_aabb, degenerate_aabb, halo_cells, halo_edge, halo_index, GpuBrickAabb, GpuBrickMeta, BRICK_UNIFORM_FLAG,
};
use adventure::math::IVec3;
use adventure::pack::ResidentBrick;
use adventure::palette::{
    BiomeDef, BiomeLibrary, BlockId, BlockRegistry, StrataLayer, TerrainMatId, TerrainSurfaceMaterial,
};
use adventure::paletted::{decode_paletted_cell, encode_paletted, pow2_index_bits};
use adventure::patch::{
    build_lights_from_entries, ensure_voxels_nonempty, finalize_lights, finalize_patch_palette_and_lights,
    pack_brickmap, pack_resident_set, EmissiveVoxel, GpuBrickPatch, VoxelInterner, MAX_VOXEL_LIGHTS,
};
use adventure::sort::brightest_first;

const VOXEL_SIZE: f32 = 0.2;
const BRICK_WORLD_SIZE: f32 = 1.6;

fn brick_span(lod: u32) -> f32 {
    BRICK_WORLD_SIZE * (1u32 << lod) as f32
}

fn bits(c: [f32; 4]) -> [u32; 4] {
    [c[0].to_bits(), c[1].to_bits(), c[2].to_bits(), c[3].to_bits()]
}

fn registry() -> BlockRegistry {
    let mat = |name: &str, c: [f32; 4]| TerrainSurfaceMaterial {
        name: name.into(),
        preview_color: bits(c),
        roughness: 0.9f32.to_bits(),
        emissive_radiance: [0, 0, 0],
        emits: false,
    };
    let materials = vec![mat("a", [0.1, 0.2, 0.3, 1.0]), mat("b", [0.4, 0.5, 0.6, 1.0])];
    let biomes = (0..5)
        .map(|_| BiomeDef {
            surface: TerrainMatId(0),
            strata: vec![StrataLayer { material: TerrainMatId(0), bottom: 1.0f32.to_bits() }],
            bedrock: TerrainMatId(1),
        })
        .collect();
    BlockRegistry::from_biome_library(&BiomeLibrary { materials, biomes })
}

fn one_voxel_brick(x: i32, y: i32, z: i32, id: BlockId) -> (Brick, usize) {
    let mut voxels = Box::new([BlockId::air(); BRICK_VOXELS]);
    voxels[voxel_index(x, y, z)] = id;
    (Brick::from_voxels(voxels), halo_index(x + 1, y + 1, z + 1, 0))
}

fn decode_cell(patch: &GpuBrickPatch, m: &GpuBrickMeta, cell: usize) -> u32 {
    patch.cell_block(m, cell).0 as u32
}

fn glow(reg: &mut BlockRegistry, id: BlockId, v: f32) {
    reg.set_emissive(id, [v.to_bits(); 3], v > 0.0);
}

fn light_luma(c: [f32; 3]) -> f32 {
    0.2126 * c[0] + 0.7152 * c[1] + 0.0722 * c[2]
}

fn radiance(reg: &BlockRegistry, l: &EmissiveVoxel) -> [f32; 3] {
    let e = reg.emissive(l.block);
    [f32::from_bits(e[0]), f32::from_bits(e[1]), f32::from_bits(e[2])]
}

fn cell_size(l: &EmissiveVoxel) -> f32 {
    VOXEL_SIZE * (1u32 << l.lod) as f32
}

fn power(reg: &BlockRegistry, l: &EmissiveVoxel) -> f32 {
    light_luma(radiance(reg, l)) * cell_size(l) * cell_size(l)
}

fn power_bits(reg: &BlockRegistry) -> impl Fn(EmissiveVoxel) -> u32 + '_ {
    |l| power(reg, &l).max(0.0).to_bits()
}

/// The extent of a box on x, grown by a thousandth of a voxel on each side.
fn extent_x(b: &GpuBrickAabb) -> (f32, f32) {
    let e = VOXEL_SIZE * 1.0e-3;
    match *b {
        GpuBrickAabb::Brick { coord, lod } => {
            let span = brick_span(lod);
            (coord.x as f32 * span - e, (coord.x + 1) as f32 * span + e)
        }
        GpuBrickAabb::Degenerate => (1.0e30, -1.0e30),
    }
}

/// The alias table over float weights.
fn alias_of(weights: &[f32]) -> Vec<(f32, u32)> {
    let n = weights.len();
    let sum: f64 = weights.iter().map(|&w| w as f64).sum();
    let uniform = !(sum.is_finite() && sum > 0.0);
    let shares: Vec<u64> = weights
        .iter()
        .map(|&w| if uniform { 1.0f64 } else { (w as f64) / sum * n as f64 })
        .map(|x| x.to_bits())
        .collect();
    let below = |x: u64| f64::from_bits(x) < 1.0;
    let rest = |l: u64, s: u64| ((f64::from_bits(l) + f64::from_bits(s)) - 1.0).to_bits();
    let narrow = |x: u64| (f64::from_bits(x) as f32).to_bits();
    build_alias_table(&shares, &below, &rest, &narrow)
        .iter()
        .map(|e: &GpuAliasEntry| (f32::from_bits(e.prob), e.alias))
        .collect()
}

#[test]
fn pack_layout_is_consistent() {
    let reg = registry();
    let mut map = BrickMap::new();
    let (b0, i0) = one_voxel_brick(1, 2, 3, BlockId(1));
    let (b1, i1) = one_voxel_brick(4, 5, 6, BlockId(2));
    map.insert(IVec3::new(0, 0, 0), b0);
    map.insert(IVec3::new(1, 0, 0), b1);

    let patch = pack_brickmap(&map, &reg, &power_bits(&reg));
    assert_eq!(patch.brick_count(), 2);
    assert_eq!(patch.aabbs.len(), patch.metas.len());
    assert_eq!(patch.palette.len(), reg.len());
    assert_eq!(patch.metas[0].index_bits(), 1);
    assert_eq!(patch.voxels.len(), 2 * halo_cells(0).div_ceil(32), "two 1-bit index streams");
    assert_eq!(patch.brick_palettes.len(), 4, "two 2-entry per-brick palettes");

    assert_eq!(patch.metas[0].voxel_origin, IVec3::new(0, 0, 0));
    assert_eq!(patch.metas[1].voxel_origin, IVec3::new(BRICK_EDGE, 0, 0));
    assert_eq!(patch.metas[0].voxel_offset, 0, "brick 0's index stream starts at 0");
    assert_eq!(patch.metas[1].voxel_offset, halo_cells(0).div_ceil(32) as u32, "brick 1 follows brick 0's stream");

    assert_eq!(decode_cell(&patch, &patch.metas[0], i0), 1);
    assert_eq!(decode_cell(&patch, &patch.metas[1], i1), 2);

    assert_eq!(patch.aabbs[0], brick_aabb(IVec3::new(0, 0, 0), 0));
    assert_eq!(patch.aabbs[1], brick_aabb(IVec3::new(1, 0, 0), 0));
    assert!(extent_x(&patch.aabbs[1]).0 < extent_x(&patch.aabbs[0]).1, "the boxes of abutting bricks overlap");
}

#[test]
fn palette_mirrors_registry() {
    let reg = registry();
    let map = BrickMap::new();
    let patch = pack_brickmap(&map, &reg, &power_bits(&reg));
    for i in 0..reg.len() {
        let id = BlockId(i as u16);
        assert_eq!(patch.palette[i].rgba, reg.color(id));
        let e = reg.emissive(id);
        assert_eq!(patch.palette[i].emissive, [e[0], e[1], e[2], 0]);
    }
}

fn solid_brick(id: BlockId) -> Brick {
    Brick::uniform(id)
}

#[test]
fn resident_lod0_matches_full_res() {
    let reg = registry();
    let b0 = solid_brick(BlockId(1));
    let b1 = solid_brick(BlockId(2));
    let entries = vec![
        ResidentBrick { coord: IVec3::new(0, 0, 0), brick: &b0, lod: 0 },
        ResidentBrick { coord: IVec3::new(1, 0, 0), brick: &b1, lod: 0 },
    ];
    let patch = pack_resident_set(&entries, &reg, &power_bits(&reg));
    assert_eq!(patch.brick_count(), 2);
    assert_eq!(patch.metas[0].lod(), 0);
    assert_eq!(patch.metas[0].voxel_offset, 0, "first dense brick's index stream starts at 0");
    for z in 1..=BRICK_EDGE {
        for y in 1..=BRICK_EDGE {
            for x in 1..=BRICK_EDGE {
                assert_eq!(decode_cell(&patch, &patch.metas[0], halo_index(x, y, z, 0)), 1);
            }
        }
    }
}

#[test]
fn resident_coarse_brick_spans_more_world() {
    let reg = registry();
    let b = solid_brick(BlockId(1));
    let lod = 2u32;
    let entries = vec![ResidentBrick { coord: IVec3::new(2, -1, 3), brick: &b, lod }];
    let patch = pack_resident_set(&entries, &reg, &power_bits(&reg));
    assert_eq!(patch.brick_count(), 1);
    assert_eq!(patch.metas[0].lod(), lod);
    assert_eq!(halo_cells(lod), 10 * 10 * 10);
    for z in 1..=BRICK_EDGE {
        for y in 1..=BRICK_EDGE {
            for x in 1..=BRICK_EDGE {
                assert_eq!(decode_cell(&patch, &patch.metas[0], halo_index(x, y, z, lod)), 1, "core cell solid");
            }
        }
    }
    let span = brick_span(lod);
    let w = patch.metas[0].world_min;
    assert_eq!([w.x as f32 * span, w.y as f32 * span, w.z as f32 * span], [2.0 * span, -span, 3.0 * span]);
    assert_eq!(patch.aabbs[0], brick_aabb(IVec3::new(2, -1, 3), lod));
    let (min, max) = extent_x(&patch.aabbs[0]);
    assert!((max - min - (span + 2.0 * VOXEL_SIZE * 1.0e-3)).abs() < 1e-3, "the box spans the brick");
    assert!((span - 4.0 * BRICK_WORLD_SIZE).abs() < 1e-4);
}

#[test]
fn resident_packs_core_verbatim_no_erosion() {
    let reg = registry();
    let mut voxels = Box::new([BlockId::air(); BRICK_VOXELS]);
    voxels[voxel_index(0, 0, 0)] = BlockId(1);
    let thin = Brick::from_voxels(voxels);
    let entries = vec![ResidentBrick { coord: IVec3::new(0, 0, 0), brick: &thin, lod: 5 }];
    let patch = pack_resident_set(&entries, &reg, &power_bits(&reg));
    assert_eq!(patch.brick_count(), 1);
    assert_eq!(patch.metas[0].lod(), 5);
    assert_eq!(decode_cell(&patch, &patch.metas[0], halo_index(1, 1, 1, 5)), 1, "the lone solid voxel survives verbatim");
}

#[test]
fn packing_is_deterministic() {
    let reg = registry();
    let mut map = BrickMap::new();
    for i in 0..5 {
        let (b, _) = one_voxel_brick(i, i, i, BlockId(1));
        map.insert(IVec3::new(i, -i, i * 2), b);
    }
    let a = pack_brickmap(&map, &reg, &power_bits(&reg));
    let b = pack_brickmap(&map, &reg, &power_bits(&reg));
    assert_eq!(a.aabbs, b.aabbs);
    assert_eq!(a.metas, b.metas);
    assert_eq!(a.voxels, b.voxels);
}

fn emissive_registry() -> BlockRegistry {
    let mut reg = registry();
    glow(&mut reg, BlockId(1), 4.0);
    reg
}

#[test]
fn no_emitters_empty_light_list() {
    let reg = registry();
    let b = solid_brick(BlockId(1));
    let entries = vec![ResidentBrick { coord: IVec3::new(0, 0, 0), brick: &b, lod: 0 }];
    let patch = pack_resident_set(&entries, &reg, &power_bits(&reg));
    assert!(patch.lights.is_empty(), "no emissive blocks: no lights");
    assert!(alias_of(&[]).is_empty(), "no lights: no alias table");
}

#[test]
fn emissive_brick_gathers_exposed_shell_lights() {
    let reg = emissive_registry();
    let b = solid_brick(BlockId(1));
    let entries = vec![ResidentBrick { coord: IVec3::new(0, 0, 0), brick: &b, lod: 0 }];
    let patch = pack_resident_set(&entries, &reg, &power_bits(&reg));
    assert_eq!(patch.lights.len(), 296, "an isolated solid emitter exposes only its surface shell as lights");
    let weights: Vec<f32> = patch.lights.iter().map(|l| power(&reg, l)).collect();
    assert_eq!(alias_of(&weights).len(), patch.lights.len(), "the alias table is parallel to the light list");
    let span = BRICK_WORLD_SIZE;
    let sum: f64 = weights.iter().map(|&w| w as f64).sum();
    for l in &patch.lights {
        let inv_pdf = (sum / light_luma(radiance(&reg, l)) as f64) as f32;
        assert!(inv_pdf > 0.0 && inv_pdf.is_finite(), "the inverse density of a light is positive and finite");
        assert_eq!(radiance(&reg, l), [4.0, 4.0, 4.0], "light radiance is the block's palette emissive");
        let cell = cell_size(l);
        assert!((cell * cell - VOXEL_SIZE * VOXEL_SIZE).abs() < 1e-6, "light area is one voxel face");
        for (corner, k) in [(l.brick.x, l.cell.x), (l.brick.y, l.cell.y), (l.brick.z, l.cell.z)] {
            let pos = corner as f32 * span + (k as f32 + 0.5) * cell;
            assert!(pos > -1e-3 && pos < span + 1e-3, "light centre inside the brick");
        }
    }
}

#[test]
fn alias_table_is_a_valid_distribution() {
    let reg = emissive_registry();
    let b = solid_brick(BlockId(1));
    let entries = vec![ResidentBrick { coord: IVec3::new(0, 0, 0), brick: &b, lod: 0 }];
    let patch = pack_resident_set(&entries, &reg, &power_bits(&reg));
    let weights: Vec<f32> = patch.lights.iter().map(|l| power(&reg, l)).collect();
    let alias = alias_of(&weights);
    let n = alias.len() as u32;
    assert!(n > 0);
    for (i, e) in alias.iter().enumerate() {
        assert!((0.0..=1.0).contains(&e.0), "alias[{i}].prob {} must be in [0,1]", e.0);
        assert!(e.1 < n, "alias[{i}].alias {} out of range (n={n})", e.1);
        assert!(e.0 > 0.99, "equal-power lights: alias entry keeps itself (prob {})", e.0);
    }
}

#[test]
fn alias_table_is_power_weighted() {
    let mut reg = registry();
    glow(&mut reg, BlockId(1), 10.0);
    glow(&mut reg, BlockId(2), 1.0);
    let mut bright_v = Box::new([BlockId::air(); BRICK_VOXELS]);
    bright_v[voxel_index(0, 0, 0)] = BlockId(1);
    let bright = Brick::from_voxels(bright_v);
    let mut dim_v = Box::new([BlockId::air(); BRICK_VOXELS]);
    dim_v[voxel_index(0, 0, 0)] = BlockId(2);
    let dim = Brick::from_voxels(dim_v);
    let entries = vec![
        ResidentBrick { coord: IVec3::new(0, 0, 0), brick: &bright, lod: 0 },
        ResidentBrick { coord: IVec3::new(10, 0, 0), brick: &dim, lod: 0 },
    ];
    let patch = pack_resident_set(&entries, &reg, &power_bits(&reg));
    assert_eq!(patch.lights.len(), 2, "two single-voxel emitters: two lights");
    let bright_idx = patch.lights.iter().position(|l| radiance(&reg, l)[0] > 5.0).unwrap();
    let weights: Vec<f32> = patch.lights.iter().map(|l| power(&reg, l)).collect();
    let mut mass = [0.0f64; 2];
    for (i, e) in alias_of(&weights).iter().enumerate() {
        mass[i] += e.0 as f64;
        mass[e.1 as usize] += (1.0 - e.0) as f64;
    }
    let frac_bright = mass[bright_idx] / (mass[0] + mass[1]);
    assert!(frac_bright > 0.8, "the brighter light must be picked far more often (got {frac_bright:.3})");
}

#[test]
fn alias_table_of_quarters() {
    // Shares 0.4, 0.4, 3.2 over a sum of 4 and three entries: 0.3, 0.3 and 2.4.
    let t = alias_of(&[0.4, 0.4, 3.2]);
    assert_eq!(t.len(), 3);
    assert_eq!((t[0].1, t[1].1, t[2].1), (2, 2, 2));
    assert!((t[0].0 - 0.3).abs() < 1e-6 && (t[1].0 - 0.3).abs() < 1e-6 && t[2].0 == 1.0);
    assert_eq!(alias_of(&[0.0, 0.0]), vec![(1.0, 0), (1.0, 1)], "no power at all: every light equally likely");
}

#[test]
fn light_list_caps_and_keeps_brightest() {
    let mut reg = registry();
    glow(&mut reg, BlockId(1), 0.5);
    glow(&mut reg, BlockId(2), 50.0);
    let dim = solid_brick(BlockId(1));
    let bright = solid_brick(BlockId(2));
    let mut entries: Vec<ResidentBrick> = Vec::new();
    for i in 0..16i32 {
        entries.push(ResidentBrick { coord: IVec3::new(i * 2, 0, 0), brick: &dim, lod: 0 });
    }
    entries.push(ResidentBrick { coord: IVec3::new(0, 4, 0), brick: &bright, lod: 0 });
    let patch = pack_resident_set(&entries, &reg, &power_bits(&reg));
    let lights = &patch.lights;
    assert_eq!(lights.len(), MAX_VOXEL_LIGHTS, "the light list is capped");
    let weights: Vec<f32> = lights.iter().map(|l| power(&reg, l)).collect();
    assert_eq!(alias_of(&weights).len(), MAX_VOXEL_LIGHTS, "the alias table stays parallel after the cap");
    let bright_count = lights.iter().filter(|l| radiance(&reg, l)[0] > 25.0).count();
    assert_eq!(bright_count, 296, "the cap must keep every bright light");
}

#[test]
fn brightest_first_is_stable() {
    assert_eq!(brightest_first(&[3, 9, 3, 0, 9]), vec![1, 4, 0, 2, 3]);
    assert!(brightest_first(&[]).is_empty());
}

#[test]
fn coarse_lod_light_area_scales() {
    let reg = emissive_registry();
    let b = solid_brick(BlockId(1));
    let lod = 2u32;
    let entries = vec![ResidentBrick { coord: IVec3::new(0, 0, 0), brick: &b, lod }];
    let patch = pack_resident_set(&entries, &reg, &power_bits(&reg));
    assert!(!patch.lights.is_empty());
    let cell = VOXEL_SIZE * (1u32 << lod) as f32;
    for l in &patch.lights {
        assert!((cell_size(l) * cell_size(l) - cell * cell).abs() < 1e-4, "coarse light area");
    }
}

#[test]
fn lights_from_entries_are_those_of_the_patch() {
    let reg = emissive_registry();
    let b = solid_brick(BlockId(1));
    let c = solid_brick(BlockId(2));
    let entries = vec![
        ResidentBrick { coord: IVec3::new(0, 0, 0), brick: &b, lod: 0 },
        ResidentBrick { coord: IVec3::new(1, 0, 0), brick: &c, lod: 0 },
        ResidentBrick { coord: IVec3::new(0, 3, 0), brick: &b, lod: 1 },
    ];
    let patch = pack_resident_set(&entries, &reg, &power_bits(&reg));
    assert_eq!(build_lights_from_entries(&entries, &reg, &power_bits(&reg)), patch.lights);
    let dark = registry();
    let mut again = pack_resident_set(&entries, &dark, &power_bits(&dark));
    assert!(again.lights.is_empty());
    finalize_patch_palette_and_lights(&mut again, &reg, &power_bits(&reg));
    assert_eq!(again.lights, patch.lights);
    assert_eq!(again.palette, patch.palette);
}

#[test]
fn meta_uniform_flag_roundtrips_without_growing() {
    assert_eq!(std::mem::size_of::<GpuBrickMeta>(), 48, "meta must be 48 bytes");
    assert_eq!(std::mem::align_of::<GpuBrickMeta>(), 4, "meta is 4-byte aligned");
    let u = GpuBrickMeta::uniform(IVec3::new(8, 0, -8), BlockId(1234), IVec3::new(1, 0, -1), 3);
    assert!(u.is_uniform());
    assert_eq!(u.uniform_block(), BlockId(1234));
    assert_eq!(u.voxel_origin, IVec3::new(8, 0, -8));
    assert_eq!(u.lod(), 3);
    assert_eq!(u.voxel_offset, BRICK_UNIFORM_FLAG | 1234);

    let d = GpuBrickMeta::dense(IVec3::new(0, 0, 0), 5000, IVec3::splat(0), 5, 4, 777);
    assert!(!d.is_uniform(), "a dense brick must not be flagged uniform");
    assert_eq!(d.dense_offset(), 5000, "dense offset reads back unchanged");
    assert_eq!(d.lod(), 5, "lod round-trips through the packed field");
    assert_eq!(d.index_bits(), 4, "index_bits round-trips through the packed field");
    assert_eq!(d.palette_base, 777, "palette_base round-trips");
}

#[test]
fn uniform_incl_halo_brick_collapses_no_array() {
    let reg = registry();
    let block = BlockId(1);
    let b = solid_brick(block);
    let mut entries = Vec::new();
    for z in 0..3 {
        for y in 0..3 {
            for x in 0..3 {
                entries.push(ResidentBrick { coord: IVec3::new(x, y, z), brick: &b, lod: 0 });
            }
        }
    }
    let patch = pack_resident_set(&entries, &reg, &power_bits(&reg));
    assert_eq!(patch.brick_count(), 27);
    assert_eq!(patch.uniform_brick_count(), 1, "only the fully-buried center brick collapses");

    let center = patch.metas.iter().find(|m| m.voxel_origin == IVec3::splat(BRICK_EDGE)).unwrap();
    assert!(center.is_uniform());
    assert_eq!(center.uniform_block(), block);

    let dense = patch.metas.iter().filter(|m| !m.is_uniform()).count();
    assert_eq!(dense, 26, "26 dense shell bricks, 1 uniform center");
    assert!(patch.voxels.len() < 26 * halo_cells(0), "the index stream is smaller than the raw layout");
    for m in patch.metas.iter().filter(|m| !m.is_uniform()) {
        assert_eq!(decode_cell(&patch, m, halo_index(4, 4, 4, 0)), block.0 as u32, "dense core decodes solid");
    }
}

#[test]
fn isolated_uniform_brick_stays_dense() {
    let reg = registry();
    let b = solid_brick(BlockId(1));
    let entries = vec![ResidentBrick { coord: IVec3::new(0, 0, 0), brick: &b, lod: 0 }];
    let patch = pack_resident_set(&entries, &reg, &power_bits(&reg));
    assert_eq!(patch.uniform_brick_count(), 0, "an air-haloed uniform brick must stay dense");
    assert!(!patch.metas[0].is_uniform());
    assert_eq!(patch.metas[0].index_bits(), 1);
    assert_eq!(patch.voxels.len(), halo_cells(0).div_ceil(32), "a dense brick's 1-bit index stream is 32 words");
    assert_eq!(patch.brick_palettes.len(), 2, "its per-brick palette is air and the block");
}

#[test]
fn r3_dedups_identical_dense_bricks() {
    let reg = registry();
    let b = solid_brick(BlockId(1));
    let coords = [IVec3::new(0, 0, 0), IVec3::new(50, 0, 0), IVec3::new(0, 50, 0), IVec3::new(0, 0, 50)];
    let entries: Vec<ResidentBrick> =
        coords.iter().map(|&c| ResidentBrick { coord: c, brick: &b, lod: 0 }).collect();
    let patch = pack_resident_set(&entries, &reg, &power_bits(&reg));
    assert_eq!(patch.brick_count(), 4);
    assert_eq!(patch.uniform_brick_count(), 0, "isolated solid bricks have air halos: dense");
    let offsets: std::collections::HashSet<u32> = patch.metas.iter().map(|m| m.dense_offset()).collect();
    let palette_bases: std::collections::HashSet<u32> = patch.metas.iter().map(|m| m.palette_base).collect();
    assert_eq!(offsets.len(), 1, "four identical bricks share one index slice");
    assert_eq!(palette_bases.len(), 1, "and one palette");
    assert_eq!(patch.voxels.len(), halo_cells(0).div_ceil(32), "one 1-bit index slice");
    assert_eq!(patch.brick_palettes.len(), 2, "one 2-entry palette");
}

#[test]
fn r2_paletted_brick_roundtrips_at_every_width() {
    for (k, want_bits) in [(2usize, 1u8), (3, 2), (4, 2), (5, 4), (16, 4), (17, 8), (256, 8), (300, 16)] {
        let cells: Vec<u32> = (0..halo_cells(0)).map(|i| ((i % k) + 1) as u32).collect();
        let pb = encode_paletted(&cells);
        assert_eq!(pb.index_bits, want_bits, "k={k}: {want_bits}-bit");
        assert_eq!(pb.palette.len(), k, "k={k} distinct ids in the palette");
        for (i, &c) in cells.iter().enumerate() {
            assert_eq!(
                decode_paletted_cell(&pb.palette, pb.index_bits, &pb.indices, i) as u32,
                c,
                "cell {i} (k={k}) must decode to its original id"
            );
        }
        let baseline = cells.len() * 4;
        let packed = pb.indices.len() * 4 + pb.palette.len() * 2;
        assert!(packed < baseline, "k={k}: packed {packed} B must beat the {baseline} B baseline");
        assert_eq!(pow2_index_bits(k), want_bits);
    }
}

#[test]
fn core_uniform_but_halo_differs_stays_dense() {
    let reg = registry();
    let block = BlockId(1);
    let solid = solid_brick(block);
    let mut holed = Box::new([block; BRICK_VOXELS]);
    holed[voxel_index(0, 3, 3)] = BlockId::air();
    let holed = Brick::from_voxels(holed);
    let entries = vec![
        ResidentBrick { coord: IVec3::new(0, 0, 0), brick: &solid, lod: 0 },
        ResidentBrick { coord: IVec3::new(1, 0, 0), brick: &holed, lod: 0 },
    ];
    let patch = pack_resident_set(&entries, &reg, &power_bits(&reg));
    let center = patch.metas.iter().find(|m| m.voxel_origin == IVec3::splat(0)).unwrap();
    assert!(!center.is_uniform(), "a core-uniform brick whose halo differs must stay dense");
}

#[test]
fn pack_brickmap_collapses_buried_uniform() {
    let reg = registry();
    let block = BlockId(1);
    let mut map = BrickMap::new();
    for z in 0..3 {
        for y in 0..3 {
            for x in 0..3 {
                map.insert(IVec3::new(x, y, z), Brick::uniform(block));
            }
        }
    }
    let patch = pack_brickmap(&map, &reg, &power_bits(&reg));
    assert_eq!(patch.brick_count(), 27);
    assert_eq!(patch.uniform_brick_count(), 1, "the buried center brick collapses");
    assert!(patch.voxels.len() < 26 * halo_cells(0), "dense shell is bit-packed");
    assert!(!patch.brick_palettes.is_empty(), "dense shell bricks carry per-brick palettes");
}

#[test]
fn storage_report_quantifies_uniform_win() {
    let reg = registry();
    let b = solid_brick(BlockId(1));
    let mut entries = Vec::new();
    for z in 0..3 {
        for y in 0..3 {
            for x in 0..3 {
                entries.push(ResidentBrick { coord: IVec3::new(x, y, z), brick: &b, lod: 0 });
            }
        }
    }
    let patch = pack_resident_set(&entries, &reg, &power_bits(&reg));
    let rep = patch.storage_report();
    assert_eq!(rep.bricks, 27);
    assert_eq!(rep.uniform_bricks, 1);
    assert_eq!(rep.voxel_bytes_before, 27 * halo_cells(0) * 4);
    assert!(rep.voxel_bytes_after < 26 * halo_cells(0) * 4, "index stream ({}) is under the raw layout", rep.voxel_bytes_after);
    assert!(rep.brick_palette_bytes > 0, "dense bricks carry per-brick palette bytes");
    assert!(rep.total_vram_after() < rep.total_vram_before(), "resident memory shrinks");
    let reduction = rep.total_vram_before() as f64 / rep.total_vram_after() as f64;
    assert!(reduction > 1.0, "the reduction factor is above 1");
    assert!((rep.uniform_bricks as f64 / rep.bricks as f64 - 1.0 / 27.0).abs() < 1e-9);
}

#[test]
fn all_uniform_patch_keeps_voxels_nonempty() {
    let mut patch = GpuBrickPatch {
        aabbs: vec![brick_aabb(IVec3::splat(0), 0)],
        metas: vec![GpuBrickMeta::uniform(IVec3::splat(0), BlockId(1), IVec3::splat(0), 0)],
        voxels: Vec::new(),
        brick_palettes: Vec::new(),
        palette: Vec::new(),
        lights: Vec::new(),
    };
    ensure_voxels_nonempty(&mut patch);
    assert_eq!(patch.voxels.len(), 1, "a single unreferenced index word");
    assert_eq!(patch.voxels[0], 0);
    assert_eq!(patch.brick_palettes.len(), 1, "and a single palette word");
    assert_eq!(patch.brick_palettes[0], 0);
}

#[test]
fn halo_of_a_patch_is_the_world_around_the_brick() {
    let reg = registry();
    let mut map = BrickMap::new();
    let (b, _) = one_voxel_brick(7, 3, 3, BlockId(2));
    map.insert(IVec3::splat(0), b);
    map.insert(IVec3::new(1, 0, 0), Brick::uniform(BlockId(1)));
    let patch = pack_brickmap(&map, &reg, &power_bits(&reg));
    for m in &patch.metas {
        for z in 0..10 {
            for y in 0..10 {
                for x in 0..10 {
                    let v = m.voxel_origin.plus(IVec3::new(x - 1, y - 1, z - 1));
                    assert_eq!(patch.cell_block(m, halo_index(x, y, z, 0)), map.voxel_block(v));
                }
            }
        }
    }
}

#[test]
fn interning_the_same_brick_twice_adds_nothing() {
    let cells: Vec<u32> = (0..1000).map(|i| i % 5).collect();
    let mut interner = VoxelInterner::new();
    let (mut voxels, mut palettes) = (Vec::new(), Vec::new());
    let a = interner.intern_paletted(&mut voxels, &mut palettes, &cells);
    let sizes = (voxels.len(), palettes.len());
    let b = interner.intern_paletted(&mut voxels, &mut palettes, &cells);
    assert_eq!(a, b);
    assert_eq!(sizes, (voxels.len(), palettes.len()));
    let other: Vec<u32> = (0..1000).map(|i| 7 + i % 5).collect();
    let c = interner.intern_paletted(&mut voxels, &mut palettes, &other);
    assert_ne!(a, c);
    assert!(voxels.len() > sizes.0);
}

#[test]
fn the_box_of_an_unused_slot_is_no_brick() {
    assert_eq!(degenerate_aabb(), GpuBrickAabb::Degenerate);
    assert_ne!(degenerate_aabb(), brick_aabb(IVec3::splat(0), 0));
    assert_eq!(halo_edge(0), 10);
}

#[test]
fn exact_shares_are_drawn_exactly() {
    let one = 1.0f32.to_bits() as u64;
    let shares: Vec<u64> = vec![one / 2, 3 * one, 1, one - 1, one / 2, one, 0, one];
    assert_eq!(shares.iter().sum::<u64>(), one * shares.len() as u64 - one);
    let mut shares = shares;
    shares[6] = one;
    let table = build_alias_table(&shares, &|x| x < one, &|l, s| l + s - one, &|x| x as u32);
    for i in 0..shares.len() {
        let own = table[i].prob as u64;
        let given: u64 = (0..shares.len())
            .filter(|&j| j != i && table[j].alias as usize == i)
            .map(|j| one - table[j].prob as u64)
            .sum();
        assert_eq!(own + given, shares[i], "light {i}");
    }
}

#[test]
fn finished_light_list_keeps_the_brightest() {
    let light = |k: usize| EmissiveVoxel {
        brick: IVec3 { x: k as i32, y: 0, z: 0 },
        lod: 0,
        cell: IVec3 { x: 0, y: 0, z: 0 },
        block: BlockId(1),
    };
    let power = |v: EmissiveVoxel| v.brick.x as u32;
    let short = finalize_lights(vec![light(2), light(1)], &power);
    assert_eq!(short.iter().map(|v| v.brick.x).collect::<Vec<i32>>(), vec![2, 1]);
    let long = finalize_lights((0..MAX_VOXEL_LIGHTS + 2).map(light).collect(), &power);
    assert_eq!(long.len(), MAX_VOXEL_LIGHTS);
    assert_eq!(long[0].brick.x, MAX_VOXEL_LIGHTS as i32 + 1);
    assert_eq!(long[MAX_VOXEL_LIGHTS - 1].brick.x, 2);
}
