use adventure::gpu_voxelize::{
    halo_cell_count, lib_source, voxelize_shader_src, world_seed_u32, ClimateGpuParams, WvParams, WvPlacement,
    WV_STRATA_MAX,
};
use adventure::palette::{
    BiomeDef, BiomeLibrary, BlockRegistry, StrataLayer, TerrainMatId, TerrainSurfaceMaterial,
};

const BRICK_EDGE: i32 = 8;
const MAX_MATERIALS: u16 = 16;

fn lib_with_distinct_biomes() -> BiomeLibrary {
    let materials = (0..6)
        .map(|i| TerrainSurfaceMaterial {
            name: format!("m{i}"),
            preview_color: [(i as f32 / 6.0).to_bits(); 4],
            roughness: 0.9f32.to_bits(),
            emissive_radiance: [0, 0, 0],
            emits: false,
        })
        .collect();
    let col = |surface: u16, sub: u16| BiomeDef {
        surface: TerrainMatId(surface),
        strata: vec![
            StrataLayer { material: TerrainMatId(surface), bottom: 1.0f32.to_bits() },
            StrataLayer { material: TerrainMatId(sub), bottom: (1.0f32 + 4.0).to_bits() },
        ],
        bedrock: TerrainMatId(5),
    };
    let biomes = vec![col(0, 1), col(1, 2), col(2, 3), col(3, 4), col(0, 2)];
    BiomeLibrary { materials, biomes }
}

fn climate() -> ClimateGpuParams {
    ClimateGpuParams { temp_seed: 1, humid_seed: 2, octaves: 3, base_freq: 4, lacunarity: 5, gain: 6, norm_bound: 7 }
}

fn placement(x: f32) -> WvPlacement {
    WvPlacement { world_min: [x.to_bits(), 0, 0, 0], cell_size: 0.2f32.to_bits(), surface_skin_depth: 0.5f32.to_bits() }
}

#[test]
fn wvparams_flattens_library_columns() {
    let lib = lib_with_distinct_biomes();
    let reg = BlockRegistry::from_biome_library(&lib);
    let span = 1.6f32;
    let p = WvParams::build(placement(1.0 * span), 0, &lib, &reg, 0xABCD, climate(), MAX_MATERIALS);
    let c0 = &p.columns[0];
    assert_eq!(c0.surface_mat, 0);
    assert_eq!(c0.layer_count, 2);
    assert_eq!(f32::from_bits(c0.layer_bottom[0]), 1.0);
    assert_eq!(f32::from_bits(c0.layer_bottom[1]), 5.0);
    assert_eq!(c0.layer_mat[0], 0);
    assert_eq!(c0.layer_mat[1], 1);
    assert_eq!(c0.bedrock_mat, 5);
    assert_eq!(p.mat_count, 6);
    for i in 0..6u32 {
        assert_eq!(p.mat_to_block[i as usize], i + 1);
    }
    assert_eq!(p.mat_to_block.len(), MAX_MATERIALS as usize);
    assert_eq!(p.mat_to_block[6], 0);
    assert_eq!(f32::from_bits(p.world_min[0]), 1.0 * span);
    assert_eq!(p.halo_edge, (BRICK_EDGE + 2) as u32);
    assert_eq!((p.temp_seed, p.humid_seed, p.climate_octaves), (1, 2, 3));
    assert_eq!(p.world_seed, 0xABCD);
}

#[test]
fn a_library_without_all_biomes_leaves_the_columns_blank() {
    let mut lib = lib_with_distinct_biomes();
    lib.biomes.pop();
    let reg = BlockRegistry::from_biome_library(&lib);
    let p = WvParams::build(placement(0.0), 3, &lib, &reg, 1, climate(), 4);
    assert!(p.columns.iter().all(|c| *c == Default::default()));
    assert_eq!((p.mat_count, p.mat_to_block.clone()), (4, vec![1, 2, 3, 4]));
}

#[test]
fn strata_past_the_room_are_cut() {
    let mut lib = lib_with_distinct_biomes();
    lib.biomes[1].strata =
        (0..11).map(|i| StrataLayer { material: TerrainMatId(i), bottom: (i as f32).to_bits() }).collect();
    let reg = BlockRegistry::from_biome_library(&lib);
    let p = WvParams::build(placement(0.0), 0, &lib, &reg, 1, climate(), MAX_MATERIALS);
    assert_eq!(p.columns[1].layer_count as usize, WV_STRATA_MAX);
    assert_eq!(p.columns[1].layer_mat, [0, 1, 2, 3, 4, 5, 6, 7]);
}

#[test]
fn shader_src_assembles_all_three_parts() {
    let height = "#define_import_path worldgen::gpu\nfn wg_fbm_height_grad() {}\n";
    let generated = "fn wg_eval_graph(x: f32) {}";
    let voxelize = "  #define_import_path worldgen::voxelize\r\nfn wv_block_at() {}\r\nfn voxelize_main() {}\n";
    let src = voxelize_shader_src(height, generated, voxelize);
    assert!(src.contains("fn wg_eval_graph("), "codegen'd graph fn present");
    assert!(src.contains("fn wg_fbm_height_grad("), "height library present");
    assert!(src.contains("fn voxelize_main("), "voxelize entry present");
    assert!(src.contains("fn wv_block_at("), "voxelize library present");
    assert!(!src.contains("#define_import_path"), "import-path lines stripped");
    assert_eq!(
        src,
        "fn wg_fbm_height_grad() {}\n\nfn wg_eval_graph(x: f32) {}\n\nfn wv_block_at() {}\nfn voxelize_main() {}\n"
    );
}

#[test]
fn stripping_follows_the_lines_of_the_text() {
    for text in [
        "",
        "\n",
        "\n\n",
        "a",
        "a\n",
        "a\r\nb\rc\n\r\nd\r",
        "\t #define_import_path x\nb",
        "\u{2003}#define_import_path\n\u{85}#define_import_path\nx #define_import_path\n#define_import_pat",
        "é漢\n#define_import_path 漢\n😀",
    ] {
        let want = text
            .lines()
            .filter(|l| !l.trim_start().starts_with("#define_import_path"))
            .collect::<Vec<_>>()
            .join("\n");
        assert_eq!(lib_source(text), want, "{text:?}");
    }
}

#[test]
fn seeds_fold_both_halves() {
    assert_eq!(world_seed_u32(0), 0);
    assert_eq!(world_seed_u32(0x1234_5678_0000_0000), 0x1234_5678);
    assert_eq!(world_seed_u32(0xFFFF_0000_0000_FFFF), 0xFFFF_FFFF);
    assert_eq!(world_seed_u32(0xDEAD_BEEF_DEAD_BEEF), 0);
}

#[test]
fn a_haloed_brick_has_a_thousand_cells() {
    assert_eq!(halo_cell_count(0), 1000);
    assert_eq!(halo_cell_count(7), 1000);
}
