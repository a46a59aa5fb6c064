use adventure::brickmap::Brick;
use adventure::math::IVec3;
use adventure::palette::BlockId;
use adventure::scene::{
    patch_bricks, patch_y_voxel_range, reframe_camera, switch_voxel_scene, voxelize_patch, CameraRig, SceneReframed, VoxelScene,
};

#[test]
fn the_scene_key_cycles_and_skips_the_terrain() {
    let mut scene = VoxelScene::default();
    assert_eq!(scene, VoxelScene::Sponza);
    let mut reframed = SceneReframed(true);
    switch_voxel_scene(false, &mut scene, &mut reframed);
    assert_eq!((scene, reframed), (VoxelScene::Sponza, SceneReframed(true)));
    let mut seen = Vec::new();
    for _ in 0..3 {
        switch_voxel_scene(true, &mut scene, &mut reframed);
        assert_eq!(reframed, SceneReframed(false));
        seen.push(scene);
    }
    assert_eq!(seen, vec![VoxelScene::Cornell, VoxelScene::Gallery, VoxelScene::Sponza]);
    assert_eq!(VoxelScene::Worldgen.next(), VoxelScene::Gallery);
    assert!(VoxelScene::Worldgen.is_worldgen() && !VoxelScene::Sponza.is_worldgen());
    assert!(VoxelScene::Cornell.is_cornell() && !VoxelScene::Gallery.is_cornell());
}

#[test]
fn the_camera_is_framed_once_per_scene() {
    let mut latch = SceneReframed::default();
    assert_eq!(reframe_camera(false, VoxelScene::Cornell, &mut latch), None);
    assert_eq!(latch, SceneReframed(false));
    assert_eq!(reframe_camera(true, VoxelScene::Cornell, &mut latch), Some(CameraRig::Orbit));
    assert_eq!(latch, SceneReframed(true));
    assert_eq!(reframe_camera(true, VoxelScene::Cornell, &mut latch), None);
    latch = SceneReframed(false);
    assert_eq!(reframe_camera(true, VoxelScene::Gallery, &mut latch), Some(CameraRig::Fly));
}

#[test]
fn the_patch_is_walked_by_z_then_y_then_x() {
    let got = patch_bricks(8, -1, 7);
    // Columns -1..=1 on x and z, rows -1..=0 on y.
    assert_eq!(got.len(), 3 * 2 * 3);
    assert_eq!(got[0], IVec3::new(-1, -1, -1));
    assert_eq!(got[1], IVec3::new(0, -1, -1));
    assert_eq!(got[3], IVec3::new(-1, 0, -1));
    assert_eq!(got[17], IVec3::new(1, 0, 1));
    assert!(patch_bricks(8, 8, 7).is_empty());
}

#[test]
fn patch_voxelizes_to_bounded_bricks() {
    // Ground up to voxel 3, in a patch of 32 m of 0.2 m voxels.
    let half = 80;
    let ground = |c: IVec3| {
        let mut v = Box::new([BlockId::air(); 512]);
        for i in 0..512usize {
            if c.y * 8 + ((i / 8) % 8) as i32 <= 3 {
                v[i] = BlockId(1);
            }
        }
        Brick::from_voxels(v)
    };
    let map = voxelize_patch(half, -20, 9, ground);
    assert!(!map.is_empty(), "the patch must contain terrain bricks");
    assert!(map.len() < 200_000, "brick count {} should stay bounded", map.len());
    assert_eq!(map.len(), 21 * 21 * 4, "air above the ground is not stored");
    assert_eq!(map.voxel_block(IVec3::new(0, 3, 0)), BlockId(1));
    assert_eq!(map.voxel_block(IVec3::new(0, 4, 0)), BlockId::air());
}

#[test]
fn patch_y_range_brackets_surface() {
    let height = |x: f64, z: f64| 6.0 * (x * 0.2).sin() + 3.0 * (z * 0.3).cos();
    let at = |k: u32| -16.0 + k as f64 / 8.0 * 32.0;
    let band = |i: u32, j: u32| {
        let h = height(at(i), at(j));
        (((h - 4.0) / 0.2).floor() as i32, ((h + 1.0) / 0.2).ceil() as i32)
    };
    let (min_vy, max_vy) = patch_y_voxel_range(&band);
    assert!(min_vy < max_vy, "patch Y band must be non-empty");
    let surf_vy = (height(0.0, 0.0) / 0.2).floor() as i32;
    assert!(min_vy <= surf_vy && surf_vy <= max_vy, "patch Y band must contain the origin surface");
    assert_eq!(patch_y_voxel_range(&|i, j| (i as i32 - j as i32, 2 * j as i32)), (-8, 16));
}
