use adventure::brickmap::{
    brick_coord_of_voxel, lod_edge, voxel_index, Brick, BrickKey, BrickMap, BRICK_EDGE, BRICK_VOXELS, MAX_LOD,
};
use adventure::math::IVec3;
use adventure::palette::BlockId;

fn solid(n: u16) -> BlockId {
    BlockId(n)
}

fn origin() -> IVec3 {
    IVec3::splat(0)
}

#[test]
fn uniform_solid_fast_path() {
    let b = Brick::uniform(solid(3));
    assert!(!b.is_empty());
    assert!(b.is_uniform_solid());
    for z in 0..BRICK_EDGE {
        for y in 0..BRICK_EDGE {
            for x in 0..BRICK_EDGE {
                assert_eq!(b.get(x, y, z), solid(3));
                assert!(b.is_solid(x, y, z));
            }
        }
    }
}

#[test]
fn uniform_air_is_empty_and_unstored() {
    let b = Brick::uniform(BlockId::air());
    assert!(b.is_empty());
    assert!(!b.is_uniform_solid());
    let mut map = BrickMap::new();
    assert!(!map.insert(origin(), b));
    assert!(map.get(origin()).is_none());
    assert!(map.is_empty());
}

#[test]
fn from_voxels_collapses_uniform() {
    let all_same = Box::new([solid(5); BRICK_VOXELS]);
    let b = Brick::from_voxels(all_same);
    assert_eq!(b, Brick::uniform(solid(5)));
    assert!(b.is_uniform_solid());

    let mut voxels = Box::new([solid(2); BRICK_VOXELS]);
    voxels[voxel_index(1, 2, 3)] = BlockId::air();
    let b = Brick::from_voxels(voxels);
    assert!(!b.is_uniform_solid());
    assert!(!b.is_empty());
    assert_eq!(b.get(1, 2, 3), BlockId::air());
    assert!(!b.is_solid(1, 2, 3));
    assert!(b.is_solid(0, 0, 0));
}

#[test]
fn lod_edge_is_the_same_at_every_level() {
    for lod in 0..=MAX_LOD {
        assert_eq!(lod_edge(lod), BRICK_EDGE);
    }
    assert_eq!(lod_edge(MAX_LOD + 5), 8);
}

#[test]
fn world_voxel_addressing() {
    let mut map = BrickMap::new();
    map.insert(IVec3::new(0, 0, 0), Brick::uniform(solid(1)));
    map.insert(IVec3::new(-1, 0, 0), Brick::uniform(solid(2)));

    assert_eq!(map.voxel_block(IVec3::new(3, 4, 5)), solid(1));
    assert_eq!(map.voxel_block(IVec3::new(-1, 0, 0)), solid(2));
    assert_eq!(brick_coord_of_voxel(IVec3::new(-1, 0, 0)), IVec3::new(-1, 0, 0));
    assert_eq!(brick_coord_of_voxel(IVec3::new(-8, 0, 0)), IVec3::new(-1, 0, 0));
    assert_eq!(brick_coord_of_voxel(IVec3::new(-9, 0, 0)), IVec3::new(-2, 0, 0));
    assert_eq!(map.voxel_block(IVec3::new(100, 100, 100)), BlockId::air());
    assert!(!map.voxel_is_solid(IVec3::new(100, 100, 100)));
}

#[test]
fn brick_coord_of_extreme_voxels() {
    assert_eq!(brick_coord_of_voxel(IVec3::splat(i32::MIN)), IVec3::splat(-0x1000_0000));
    assert_eq!(brick_coord_of_voxel(IVec3::splat(i32::MAX)), IVec3::splat(0x0FFF_FFFF));
}

#[test]
fn inserting_replaces_and_inserting_air_removes() {
    let mut map = BrickMap::new();
    assert!(map.insert(origin(), Brick::uniform(solid(1))));
    assert!(map.insert(origin(), Brick::uniform(solid(2))));
    assert_eq!(map.len(), 1);
    assert_eq!(map.voxel_block(origin()), solid(2));
    assert!(!map.insert(origin(), Brick::uniform(BlockId::air())));
    assert_eq!(map.len(), 0);
    assert!(map.get(origin()).is_none());
}

#[test]
fn iteration_visits_each_brick_once() {
    let mut map = BrickMap::new();
    for i in 0..5 {
        map.insert(IVec3::new(i, -i, 2 * i), Brick::uniform(solid(1 + i as u16)));
    }
    let mut seen: Vec<(IVec3, BlockId)> = map.iter().iter().map(|(c, b)| (*c, b.get(0, 0, 0))).collect();
    seen.sort_by_key(|(c, _)| c.x);
    assert_eq!(seen.len(), 5);
    for i in 0..5 {
        assert_eq!(seen[i as usize], (IVec3::new(i, -i, 2 * i), solid(1 + i as u16)));
    }
    let mut cells = map.coords();
    cells.sort();
    assert_eq!(cells, vec![(0, 0, 0), (1, -1, 2), (2, -2, 4), (3, -3, 6), (4, -4, 8)]);
}

#[test]
fn brick_keys_turn_into_tuples_and_back() {
    let k = BrickKey { coord: IVec3::new(-4, 5, 6), lod: 3 };
    assert_eq!(k.key(), (-4, 5, 6, 3));
    assert_eq!(BrickKey::of_key(k.key()), k);
}

#[test]
fn uniform_block_of_a_mixed_brick_is_none() {
    assert_eq!(Brick::uniform(solid(9)).uniform_block(), Some(solid(9)));
    assert_eq!(Brick::uniform(BlockId::air()).uniform_block(), Some(BlockId::air()));
    let mut voxels = Box::new([solid(2); BRICK_VOXELS]);
    voxels[511] = solid(3);
    assert_eq!(Brick::from_voxels(voxels).uniform_block(), None);
}
