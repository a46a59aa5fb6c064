use adventure::palette::{
    BiomeDef, BiomeLibrary, BlockId, BlockRegistry, CornellBlock, StrataLayer, TerrainMatId, TerrainSurfaceMaterial,
    VxoMaterial, CORNELL_COUNT,
};

fn bits(c: [f32; 4]) -> [u32; 4] {
    [c[0].to_bits(), c[1].to_bits(), c[2].to_bits(), c[3].to_bits()]
}

fn floats<const N: usize>(b: [u32; N]) -> Vec<f32> {
    b.iter().map(|x| f32::from_bits(*x)).collect()
}

fn test_library() -> BiomeLibrary {
    let mat = |name: &str, color: [f32; 4]| TerrainSurfaceMaterial {
        name: name.into(),
        preview_color: bits(color),
        roughness: 0.9f32.to_bits(),
        emissive_radiance: [0, 0, 0],
        emits: false,
    };
    let materials = vec![
        mat("grass", [0.05, 0.22, 0.04, 1.0]),
        mat("dirt", [0.12, 0.07, 0.03, 1.0]),
        mat("stone", [0.18, 0.18, 0.19, 1.0]),
    ];
    let biome = |surface: u16| BiomeDef {
        surface: TerrainMatId(surface),
        strata: vec![StrataLayer { material: TerrainMatId(surface), bottom: 1.0f32.to_bits() }],
        bedrock: TerrainMatId(2),
    };
    let biomes = (0..5).map(|_| biome(0)).collect();
    BiomeLibrary { materials, biomes }
}

#[test]
fn air_is_block_zero() {
    let reg = BlockRegistry::from_biome_library(&test_library());
    assert!(BlockId::air().is_air());
    assert_eq!(BlockId::air().0, 0);
    assert!(f32::from_bits(reg.block(BlockId::air()).color[3]) == 0.0, "air is transparent");
    assert_eq!(reg.block_for_material(TerrainMatId(0)), BlockId(1));
}

#[test]
fn blockid_color_round_trip() {
    let lib = test_library();
    let reg = BlockRegistry::from_biome_library(&lib);
    for (i, m) in lib.materials.iter().enumerate() {
        let id = reg.block_for_material(TerrainMatId(i as u16));
        assert!(!id.is_air(), "material {i} must map to a solid block");
        assert_eq!(reg.color(id), m.preview_color, "block colour must equal the material's");
    }
}

#[test]
fn unknown_material_maps_to_air() {
    let reg = BlockRegistry::from_biome_library(&test_library());
    assert!(reg.block_for_material(TerrainMatId(9999)).is_air());
}

#[test]
fn empty_library_only_air() {
    let lib = BiomeLibrary { materials: vec![], biomes: vec![] };
    let reg = BlockRegistry::from_biome_library(&lib);
    assert!(reg.is_empty());
    assert_eq!(reg.len(), 1);
}

#[test]
fn cornell_palette_blocks_and_emissive() {
    let reg = BlockRegistry::cornell();
    assert_eq!(reg.len(), CORNELL_COUNT + 1, "air and 4 Cornell blocks");
    let red = floats(reg.color(CornellBlock::Red.id()));
    assert!(red[0] > red[1] && red[0] > red[2], "red wall is red-dominant: {red:?}");
    let green = floats(reg.color(CornellBlock::Green.id()));
    assert!(green[1] > green[0] && green[1] > green[2], "green wall is green-dominant: {green:?}");
    let white = floats(reg.color(CornellBlock::White.id()));
    assert!(
        white[0] > 0.5 && (white[0] - white[1]).abs() < 0.01 && (white[1] - white[2]).abs() < 0.01,
        "white is bright neutral: {white:?}"
    );
    assert_eq!(floats(reg.emissive(CornellBlock::White.id())), vec![0.0, 0.0, 0.0]);
    assert_eq!(floats(reg.emissive(CornellBlock::Red.id())), vec![0.0, 0.0, 0.0]);
    assert_eq!(floats(reg.emissive(CornellBlock::Green.id())), vec![0.0, 0.0, 0.0]);
    let e = floats(reg.emissive(CornellBlock::Light.id()));
    assert!(e[0] > 0.0 && e[1] > 0.0 && e[2] > 0.0, "light panel is emissive: {e:?}");
}

#[test]
fn registries_join_without_the_second_air() {
    let mut a = BlockRegistry::cornell();
    let base = a.len();
    let b = BlockRegistry::from_vox_palette(&[bits([1.0, 0.0, 0.0, 1.0]), bits([0.0, 1.0, 0.0, 1.0])]);
    a.extend_blocks_from(&b);
    assert_eq!(a.len(), base + b.len() - 1);
    for i in 1..b.len() {
        assert_eq!(a.color(BlockId((base - 1 + i) as u16)), b.color(BlockId(i as u16)));
    }
}

#[test]
fn an_id_out_of_range_reads_as_air() {
    let reg = BlockRegistry::cornell();
    assert_eq!(reg.color(BlockId(500)), reg.color(BlockId::air()));
    assert!(!reg.emits(BlockId(500)));
}

#[test]
fn emissive_can_be_set_but_not_on_air() {
    let mut reg = BlockRegistry::cornell();
    let glow = [1.0f32.to_bits(); 3];
    reg.set_emissive(CornellBlock::White.id(), glow, true);
    assert_eq!(reg.emissive(CornellBlock::White.id()), glow);
    assert!(reg.emits(CornellBlock::White.id()));
    reg.set_emissive(BlockId::air(), glow, true);
    assert!(!reg.emits(BlockId::air()));
    reg.set_emissive(BlockId(999), glow, true);
    assert_eq!(reg.len(), CORNELL_COUNT + 1);
}

#[test]
fn has_emitters_ignores_negative_zero() {
    let mut reg = BlockRegistry::from_vox_palette(&[bits([1.0, 1.0, 1.0, 1.0])]);
    assert!(!reg.has_emitters());
    reg.set_emissive(BlockId(1), [(-0.0f32).to_bits(), 0, 0], false);
    assert!(!reg.has_emitters());
    reg.set_emissive(BlockId(1), [0, 0, 0.5f32.to_bits()], true);
    assert!(reg.has_emitters());
    assert!(BlockRegistry::cornell().has_emitters());
}

#[test]
fn baked_materials_keep_their_numbers() {
    let m = VxoMaterial {
        albedo: bits([0.1, 0.2, 0.3, 1.0]),
        roughness: 0.4f32.to_bits(),
        metallic: 0.5f32.to_bits(),
        emissive: [0, 7, 0],
        emits: true,
        tintable: true,
    };
    let reg = BlockRegistry::from_vxo_matl(&[m.clone(), m.clone()]);
    assert_eq!(reg.len(), 2);
    let d = reg.block(BlockId(1));
    assert_eq!((d.color, d.roughness, d.metal, d.emissive, d.emits, d.tintable),
        (m.albedo, m.roughness, m.metallic, m.emissive, true, true));
}
