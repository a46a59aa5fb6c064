use adventure::brickmap::{voxel_index, Brick, BrickMap, BRICK_VOXELS};
use adventure::cornell::cornell_voxel;
use adventure::edits::VoxelEdits;
use adventure::math::IVec3;
use adventure::palette::BlockId;
use adventure::physics::{
    collider_boxes, greedy_boxes, rebuild_walk_colliders, toggle_walk_mode, vertical_step, walk_axes, VerticalStep,
    VoxelBox, WalkToggle,
};
use adventure::scene::VoxelScene;

fn brick_of(f: impl Fn(i32, i32, i32) -> bool) -> Brick {
    let mut v = Box::new([BlockId::air(); BRICK_VOXELS]);
    for z in 0..8 {
        for y in 0..8 {
            for x in 0..8 {
                if f(x, y, z) {
                    v[voxel_index(x, y, z)] = BlockId(1);
                }
            }
        }
    }
    Brick::from_voxels(v)
}

fn holds(b: &VoxelBox, x: i32, y: i32, z: i32) -> bool {
    b.min.x <= x && x <= b.max.x && b.min.y <= y && y <= b.max.y && b.min.z <= z && z <= b.max.z
}

fn covers_exactly_once(b: &Brick) {
    let boxes = greedy_boxes(b);
    for z in 0..8 {
        for y in 0..8 {
            for x in 0..8 {
                let n = boxes.iter().filter(|k| holds(k, x, y, z)).count();
                assert_eq!(n, if b.is_solid(x, y, z) { 1 } else { 0 }, "({x},{y},{z})");
            }
        }
    }
}

#[test]
fn a_solid_brick_is_one_box() {
    let boxes = greedy_boxes(&Brick::uniform(BlockId(3)));
    assert_eq!(boxes, vec![VoxelBox { min: IVec3::splat(0), max: IVec3::splat(7) }]);
    assert!(greedy_boxes(&Brick::uniform(BlockId::air())).is_empty());
}

#[test]
fn boxes_cover_the_solid_voxels_exactly_once() {
    covers_exactly_once(&brick_of(|x, y, z| (x + y + z) % 2 == 0));
    covers_exactly_once(&brick_of(|x, y, z| x * x + y * y + z * z < 50));
    covers_exactly_once(&brick_of(|x, y, z| x != 3 || y != 4 || z != 5));
    covers_exactly_once(&brick_of(|x, y, z| (x * 7 + y * 3 + z * 5) % 4 != 1));
}

#[test]
fn growth_goes_along_x_then_y_then_z() {
    // An L of a row of four on the floor and one voxel above its start.
    let b = brick_of(|x, y, z| z == 0 && ((y == 0 && x < 4) || (y == 1 && x == 0)));
    assert_eq!(
        greedy_boxes(&b),
        vec![
            VoxelBox { min: IVec3::new(0, 0, 0), max: IVec3::new(3, 0, 0) },
            VoxelBox { min: IVec3::new(0, 1, 0), max: IVec3::new(0, 1, 0) },
        ]
    );
    let slab = brick_of(|x, y, z| x < 2 && y < 3 && z < 4);
    assert_eq!(greedy_boxes(&slab), vec![VoxelBox { min: IVec3::splat(0), max: IVec3::new(1, 2, 3) }]);
}

#[test]
fn world_boxes_lie_where_the_bricks_lie() {
    let mut map = BrickMap::new();
    map.insert(IVec3::new(-1, 0, 2), Brick::uniform(BlockId(1)));
    map.insert(IVec3::new(0, 0, 0), brick_of(|x, _, _| x == 7));
    let mut boxes = collider_boxes(&map);
    boxes.sort_by_key(|b| b.min.x);
    assert_eq!(
        boxes,
        vec![
            VoxelBox { min: IVec3::new(-8, 0, 16), max: IVec3::new(-1, 7, 23) },
            VoxelBox { min: IVec3::new(7, 0, 0), max: IVec3::new(7, 7, 7) },
        ]
    );
}

#[test]
fn walk_colliders_follow_the_edits() {
    let mut edits = VoxelEdits::new();
    assert!(rebuild_walk_colliders(false, VoxelScene::Cornell, &edits, None).is_none());
    assert!(rebuild_walk_colliders(true, VoxelScene::Sponza, &edits, None).is_none());
    let (boxes, stamp) = rebuild_walk_colliders(true, VoxelScene::Cornell, &edits, None).unwrap();
    assert_eq!(stamp, (VoxelScene::Cornell, edits.generation()));
    assert!(rebuild_walk_colliders(true, VoxelScene::Cornell, &edits, Some(stamp)).is_none(), "up to date");
    for (x, y, z) in [(-1, 10, 10), (0, -1, 0), (24, 24, 2), (24, 24, -1)] {
        let solid = !cornell_voxel(IVec3::new(x, y, z)).is_air();
        assert_eq!(boxes.iter().any(|b| holds(b, x, y, z)), solid);
    }
    edits.remove(IVec3::new(-1, 10, 10));
    let (after, _) = rebuild_walk_colliders(true, VoxelScene::Cornell, &edits, Some(stamp)).unwrap();
    assert!(!after.iter().any(|b| holds(b, -1, 10, 10)), "the hole is no longer solid");
}

#[test]
fn the_walk_key_enters_only_in_the_box() {
    assert_eq!(toggle_walk_mode(false, true, VoxelScene::Cornell), WalkToggle::Idle);
    assert_eq!(toggle_walk_mode(true, true, VoxelScene::Sponza), WalkToggle::Leave);
    assert_eq!(toggle_walk_mode(true, false, VoxelScene::Sponza), WalkToggle::Refuse);
    assert_eq!(toggle_walk_mode(true, false, VoxelScene::Cornell), WalkToggle::Enter);
}

#[test]
fn jumping_needs_ground() {
    assert_eq!(vertical_step(true, true, true), VerticalStep::Jump);
    assert_eq!(vertical_step(true, false, true), VerticalStep::Keep);
    assert_eq!(vertical_step(false, true, true), VerticalStep::Rest);
    assert_eq!(vertical_step(false, true, false), VerticalStep::Keep);
}

#[test]
fn opposite_keys_cancel() {
    assert_eq!(walk_axes(true, false, false, true), (1, -1));
    assert_eq!(walk_axes(true, true, true, true), (0, 0));
    assert_eq!(walk_axes(false, true, true, false), (-1, 1));
}
