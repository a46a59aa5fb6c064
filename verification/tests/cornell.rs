use adventure::cornell::{build_cornell, build_cornell_with_edits, cornell_voxel, is_light_panel, INTERIOR, WALL};
use adventure::edits::VoxelEdits;
use adventure::math::IVec3;
use adventure::palette::{BlockId, BlockRegistry, CornellBlock};

#[test]
fn cornell_builds_bounded_brick_set() {
    let reg = BlockRegistry::cornell();
    let map = build_cornell(&reg);
    assert!(!map.is_empty(), "the Cornell box must contain bricks");
    assert!(map.len() < 500, "Cornell brick count {} must stay small", map.len());
}

#[test]
fn cornell_faces_and_light() {
    let mid = INTERIOR / 2;
    assert_eq!(cornell_voxel(IVec3::new(-1, mid, mid)), CornellBlock::Red.id(), "left wall red");
    assert_eq!(cornell_voxel(IVec3::new(INTERIOR, mid, mid)), CornellBlock::Green.id(), "right wall green");
    assert_eq!(cornell_voxel(IVec3::new(mid, -1, mid)), CornellBlock::White.id(), "floor white");
    assert_eq!(cornell_voxel(IVec3::new(mid, INTERIOR, 2)), CornellBlock::White.id(), "ceiling edge white");
    assert_eq!(cornell_voxel(IVec3::new(mid, mid, INTERIOR)), CornellBlock::White.id(), "back wall white");
    assert!(cornell_voxel(IVec3::new(mid, mid, -1)).is_air(), "front must be open");
    assert_eq!(cornell_voxel(IVec3::new(mid, INTERIOR, mid)), CornellBlock::Light.id(), "ceiling centre is the light");
    assert_eq!(cornell_voxel(IVec3::new(1, INTERIOR, 1)), CornellBlock::White.id(), "ceiling corner is white");
    assert!(cornell_voxel(IVec3::new(mid, mid, 1)).is_air(), "open interior near front is air");
    assert_eq!(cornell_voxel(IVec3::new(12, 1, 26)), CornellBlock::White.id(), "tall box solid");
    assert_eq!(cornell_voxel(IVec3::new(34, 1, 14)), CornellBlock::White.id(), "short box solid");
}

#[test]
fn light_panel_is_central() {
    assert!(is_light_panel(INTERIOR / 2, INTERIOR / 2), "centre is lit");
    assert!(!is_light_panel(0, 0), "corner is not lit");
    assert!(!is_light_panel(INTERIOR - 1, INTERIOR - 1), "far corner is not lit");
}

#[test]
fn built_box_is_the_voxel_function() {
    let map = build_cornell(&BlockRegistry::cornell());
    for z in -4..INTERIOR + 4 {
        for y in -4..INTERIOR + 4 {
            for x in -4..INTERIOR + 4 {
                let v = IVec3::new(x, y, z);
                assert_eq!(map.voxel_block(v), cornell_voxel(v), "at {v:?}");
            }
        }
    }
}

#[test]
fn edits_show_in_the_built_box() {
    let mut edits = VoxelEdits::new();
    let hole = IVec3::new(-1, 10, 10);
    let far = IVec3::new(200, 3, -50);
    edits.remove(hole);
    edits.place(far, BlockId(2));
    let map = build_cornell_with_edits(&BlockRegistry::cornell(), &edits);
    assert!(map.voxel_block(hole).is_air());
    assert_eq!(map.voxel_block(far), BlockId(2));
    let wall = IVec3::new(-WALL, 10, 10);
    assert_eq!(map.voxel_block(wall), CornellBlock::Red.id());
}
