use adventure::brickmap::{brick_coord_of_voxel, voxel_index, Brick, BrickMap, BRICK_EDGE, BRICK_VOXELS};
use adventure::gallery::{
    bistro_bench_placements, brickmap_brick_bounds, gallery_scenes, load_gallery, merge_brickmap_into, merge_scenes,
    vxo_gallery_placements, GalleryEntry, LoadedScene, GALLERY_GAP_BRICKS,
};
use adventure::math::IVec3;
use adventure::palette::{BlockId, BlockRegistry};
use rustc_hash::FxHashMap;

fn times(v: IVec3, k: i32) -> IVec3 {
    IVec3::new(v.x * k, v.y * k, v.z * k)
}

fn solid_box(lo: IVec3, hi: IVec3, block: BlockId) -> BrickMap {
    let mut dense: FxHashMap<IVec3, Box<[BlockId; BRICK_VOXELS]>> = FxHashMap::default();
    for z in lo.z..hi.z {
        for y in lo.y..hi.y {
            for x in lo.x..hi.x {
                let wv = IVec3::new(x, y, z);
                let bc = brick_coord_of_voxel(wv);
                let local = wv.minus(times(bc, BRICK_EDGE));
                let arr = dense.entry(bc).or_insert_with(|| Box::new([BlockId::air(); BRICK_VOXELS]));
                arr[voxel_index(local.x, local.y, local.z)] = block;
            }
        }
    }
    let mut map = BrickMap::new();
    for (c, arr) in dense {
        map.insert(c, Brick::from_voxels(arr));
    }
    map
}

fn solids(map: &BrickMap) -> Vec<(IVec3, BlockId)> {
    let mut out = Vec::new();
    for (bc, brick) in map.iter() {
        for z in 0..BRICK_EDGE {
            for y in 0..BRICK_EDGE {
                for x in 0..BRICK_EDGE {
                    if brick.is_solid(x, y, z) {
                        let wv = times(bc, BRICK_EDGE).plus(IVec3::new(x, y, z));
                        out.push((wv, brick.get(x, y, z)));
                    }
                }
            }
        }
    }
    out
}

fn palette(colors: &[u32]) -> BlockRegistry {
    let list: Vec<[u32; 4]> = colors.iter().map(|&c| [c, c, c, c]).collect();
    BlockRegistry::from_vox_palette(&list)
}

fn scene(map: BrickMap, registry: BlockRegistry, offset: Option<IVec3>) -> LoadedScene {
    LoadedScene { map, registry, offset, label: "scene".into() }
}

#[test]
fn merge_shifts_coords_and_remaps_blocks() {
    let scene = solid_box(IVec3::splat(0), IVec3::new(8, 8, 8), BlockId(3));
    let mut merged = BrickMap::new();
    let offset = IVec3::new(5, 0, 0);
    merge_brickmap_into(&mut merged, &scene, offset, 10);

    for (wv, b) in solids(&scene) {
        let moved = wv.plus(times(offset, BRICK_EDGE));
        assert_eq!(merged.voxel_block(moved), BlockId(b.0 + 10), "voxel {wv:?} at {moved:?}");
    }
    assert!(!merged.voxel_is_solid(IVec3::new(0, 0, 0)), "the scene's original origin is empty after the shift");
    assert_eq!(merged.len(), scene.len(), "brick count is preserved");
}

#[test]
fn two_scenes_merge_side_by_side_no_overlap() {
    let a = solid_box(IVec3::splat(0), IVec3::splat(16), BlockId(1));
    let b = solid_box(IVec3::splat(0), IVec3::splat(16), BlockId(1));

    let (a_lo, a_hi) = brickmap_brick_bounds(&a).unwrap();
    assert_eq!(a_lo, IVec3::splat(0));
    assert_eq!(a_hi, IVec3::splat(1));

    let mut merged = BrickMap::new();
    merge_brickmap_into(&mut merged, &a, IVec3::splat(0), 0);
    let a_blocks = 4u16;
    let b_offset_x = a_hi.x + 1 + GALLERY_GAP_BRICKS;
    merge_brickmap_into(&mut merged, &b, IVec3::new(b_offset_x, 0, 0), a_blocks);

    assert_eq!(merged.voxel_block(IVec3::new(0, 0, 0)), BlockId(1), "scene A present at its origin");
    let b_origin = IVec3::new(b_offset_x * BRICK_EDGE, 0, 0);
    assert_eq!(merged.voxel_block(b_origin), BlockId(1 + a_blocks), "scene B present at its offset, id remapped");

    assert!(b_offset_x > a_hi.x + 1, "B starts strictly past A with a gap");
    assert_eq!(merged.len(), a.len() + b.len(), "no bricks lost");
    assert_eq!(merged.len(), 16);
}

#[test]
fn load_gallery_skips_missing_assets() {
    let scenes = [
        GalleryEntry { vox_path: "assets/models/__does_not_exist_a.vox", vxo_path: "assets/models/__does_not_exist_a.vxo", offset: None, label: "MissingA" },
        GalleryEntry { vox_path: "assets/models/__does_not_exist_b.vox", vxo_path: "assets/models/__does_not_exist_b.vxo", offset: None, label: "MissingB" },
    ];
    let (map, reg) = load_gallery(&scenes, vec![None, None]);
    assert!(map.is_empty(), "all rows missing: empty merged map");
    assert_eq!(reg.len(), 1, "only air in the merged registry when nothing loaded");
}

#[test]
fn vxo_placements_skip_absent_and_signal_fallback() {
    let missing = [
        GalleryEntry { vox_path: "x.vox", vxo_path: "assets/models/__nope_a.vxo", offset: None, label: "A" },
        GalleryEntry { vox_path: "y.vox", vxo_path: "assets/models/__nope_b.vxo", offset: None, label: "B" },
    ];
    assert!(vxo_gallery_placements(&missing, &vec![None, None]).is_empty(), "all absent: empty placement list");

    let table = gallery_scenes();
    let bounds = vec![
        Some((IVec3::new(-600, 0, -300), IVec3::new(600, 200, 300))),
        None,
        Some((IVec3::new(-80, 0, -80), IVec3::new(81, 40, 80))),
        Some((IVec3::new(-8, 0, 0), IVec3::new(8, 8, 8))),
    ];
    let placed = vxo_gallery_placements(&table, &bounds);
    assert_eq!(placed.len(), 3);
    let mut last_x = i32::MIN;
    for (_path, off) in &placed {
        assert!(off.x >= last_x, "auto-spaced placements march along +X");
        last_x = off.x;
    }
    // The first spans columns -75..=74 and goes to 0..=149; the next begins at 158 and spans -10..=10.
    assert_eq!(placed[0], ("assets/models/sponza.vxo", IVec3::new(75, 0, 0)));
    assert_eq!(placed[1], ("assets/models/conference.vxo", IVec3::new(168, 0, 0)));
    assert_eq!(placed[2], ("assets/models/bistro.vxo", IVec3::new(188, 0, 0)));
}

#[test]
fn merged_scenes_keep_their_own_colours_and_places() {
    let a = scene(solid_box(IVec3::splat(0), IVec3::splat(16), BlockId(2)), palette(&[10, 11]), None);
    let b = scene(solid_box(IVec3::new(-16, 0, 0), IVec3::new(8, 8, 8), BlockId(1)), palette(&[20]), None);
    let (map, reg) = merge_scenes(vec![a, b]);
    assert_eq!(reg.len(), 4);
    assert_eq!(map.len(), 8 + 3);
    assert_eq!(map.voxel_block(IVec3::splat(0)), BlockId(2));
    assert_eq!(reg.color(BlockId(2)), [11, 11, 11, 11]);
    // A spans columns 0..=1, so B begins at column 10, which is voxel 80.
    assert_eq!(map.voxel_block(IVec3::new(79, 0, 0)), BlockId::air());
    assert_eq!(map.voxel_block(IVec3::new(80, 0, 0)), BlockId(3));
    assert_eq!(map.voxel_block(IVec3::new(103, 7, 7)), BlockId(3));
    assert_eq!(map.voxel_block(IVec3::new(104, 0, 0)), BlockId::air());
    assert_eq!(reg.color(BlockId(3)), [20, 20, 20, 20]);
}

#[test]
fn an_explicit_offset_is_used_and_moves_the_cursor() {
    let a = scene(solid_box(IVec3::splat(0), IVec3::splat(8), BlockId(1)), palette(&[1]), Some(IVec3::new(3, 4, 5)));
    let b = scene(solid_box(IVec3::splat(0), IVec3::splat(8), BlockId(1)), palette(&[2]), None);
    let (map, _) = merge_scenes(vec![a, b]);
    assert_eq!(map.voxel_block(IVec3::new(24, 32, 40)), BlockId(1));
    // Column 3 is taken, so the next begins at column 12.
    assert_eq!(map.voxel_block(IVec3::new(96, 0, 0)), BlockId(2));
    assert_eq!(map.len(), 2);
}

#[test]
fn empty_scenes_and_scenes_without_ids_are_left_out() {
    let empty = scene(BrickMap::new(), palette(&[7, 8]), None);
    let colors: Vec<u32> = vec![0; 65530];
    let big = scene(solid_box(IVec3::splat(0), IVec3::splat(8), BlockId(1)), palette(&colors), None);
    let over = scene(solid_box(IVec3::splat(0), IVec3::splat(8), BlockId(1)), palette(&[1, 2, 3, 4, 5, 6]), None);
    let after = scene(solid_box(IVec3::splat(0), IVec3::splat(8), BlockId(1)), palette(&[1]), None);
    let (map, reg) = merge_scenes(vec![empty, big, over, after]);
    assert_eq!(map.len(), 1, "the gallery ends with the scene that finds no ids");
    assert_eq!(reg.len(), 65531);
}

#[test]
fn a_registry_that_just_fits_is_merged() {
    let colors: Vec<u32> = vec![0; 65530];
    let big = scene(solid_box(IVec3::splat(0), IVec3::splat(8), BlockId(1)), palette(&colors), None);
    let fits = scene(solid_box(IVec3::splat(0), IVec3::splat(8), BlockId(5)), palette(&[1, 2, 3, 4, 5]), None);
    let (map, reg) = merge_scenes(vec![big, fits]);
    assert_eq!(map.len(), 2);
    assert_eq!(reg.len(), 65536);
    assert_eq!(map.voxel_block(IVec3::new(72, 0, 0)), BlockId(65535));
}

#[test]
fn loaded_entries_are_merged_in_row_order() {
    let row = [
        GalleryEntry { vox_path: "a", vxo_path: "a", offset: Some(IVec3::new(1, 0, 0)), label: "A" },
        GalleryEntry { vox_path: "b", vxo_path: "b", offset: None, label: "B" },
    ];
    let load = |b: u16| Some((solid_box(IVec3::splat(0), IVec3::splat(8), BlockId(b)), palette(&[b as u32])));
    let (map, reg) = load_gallery(&row, vec![load(1), load(1)]);
    assert_eq!(map.voxel_block(IVec3::new(8, 0, 0)), BlockId(1));
    assert_eq!(map.voxel_block(IVec3::new(80, 0, 0)), BlockId(2));
    assert_eq!(reg.len(), 3);
}

#[test]
fn the_bench_places_bistro_alone_at_the_origin() {
    let table = gallery_scenes();
    assert_eq!(table.len(), 4);
    assert_eq!(bistro_bench_placements(&table), vec![("assets/models/bistro.vxo", IVec3::splat(0))]);
    assert!(bistro_bench_placements(&table[..3]).is_empty());
}

#[test]
fn shipped_gallery_table_loads_or_skips() {
    let table = gallery_scenes();
    let (map, reg) = load_gallery(&table, table.iter().map(|_| None).collect());
    assert!(map.is_empty(), "with no assets baked, the gallery is empty");
    assert_eq!(reg.len(), 1, "only air when nothing loaded");
    let baked = |k: usize| {
        if k == 0 {
            let m = solid_box(IVec3::new(0, 0, 0), IVec3::new(9, 9, 9), BlockId(1));
            Some((m, palette(&[1, 2])))
        } else {
            None
        }
    };
    let (map, reg) = load_gallery(&table, (0..table.len()).map(baked).collect());
    assert!(!map.is_empty(), "with an asset baked, the gallery merges a non-empty map");
    assert!(reg.len() > 1, "the merged registry carries the asset's palette");
}
