use adventure::brickmap::{brick_coord_of_voxel, voxel_index, Brick, BrickMap, BRICK_EDGE, BRICK_VOXELS};
use adventure::cornell::{build_cornell, build_cornell_with_edits};
use adventure::edits::{
    apply_edit_overlay, apply_edits_to_map, dirty_bricks_for_edit, pick_voxel, Axis, VoxelEdits, VoxelHit, VoxelRay,
};
use adventure::math::IVec3;
use adventure::palette::{BlockId, BlockRegistry};

const VOXEL_SIZE: f32 = 0.2;

fn solid(n: u16) -> BlockId {
    BlockId(n)
}

fn solid_brick_map(coord: IVec3, block: BlockId) -> BrickMap {
    let mut m = BrickMap::new();
    m.insert(coord, Brick::uniform(block));
    m
}

/// A number that is ordered as the float is.
fn key(t: f32) -> u32 {
    let b = t.to_bits();
    if b >> 31 == 1 {
        !b
    } else {
        b | 0x8000_0000
    }
}

fn unkey(k: u32) -> f32 {
    f32::from_bits(if k >> 31 == 1 { k & 0x7FFF_FFFF } else { !k })
}

fn sign(x: f32) -> i32 {
    (x > 0.0) as i32 - (x < 0.0) as i32
}

/// The grid ray of a ray in the world.
fn ray(origin: [f32; 3], dir: [f32; 3], max: f32) -> VoxelRay {
    let len = (dir[0] * dir[0] + dir[1] * dir[1] + dir[2] * dir[2]).sqrt();
    let d = if len > 0.0 { [dir[0] / len, dir[1] / len, dir[2] / len] } else { [0.0; 3] };
    let v = [0, 1, 2].map(|k| (origin[k] / VOXEL_SIZE).floor() as i32);
    let faces = |k: usize| -> Vec<u32> {
        let mut t = if d[k] != 0.0 {
            ((v[k] + sign(d[k]).max(0)) as f32 * VOXEL_SIZE - origin[k]) * (1.0 / d[k])
        } else {
            f32::INFINITY
        };
        let delta = if d[k] != 0.0 { (VOXEL_SIZE * (1.0 / d[k])).abs() } else { f32::INFINITY };
        let mut out = Vec::new();
        while t <= max {
            out.push(key(t));
            t += delta;
        }
        out.push(key(t));
        out
    };
    let a = d.map(f32::abs);
    let dominant = if a[0] >= a[1] && a[0] >= a[2] {
        Axis::X
    } else if a[1] >= a[2] {
        Axis::Y
    } else {
        Axis::Z
    };
    VoxelRay {
        start: IVec3::new(v[0], v[1], v[2]),
        step: IVec3::new(sign(d[0]), sign(d[1]), sign(d[2])),
        dominant,
        tx: faces(0),
        ty: faces(1),
        tz: faces(2),
        t0: key(0.0),
        max_t: key(max),
    }
}

fn pick(base: &BrickMap, e: &VoxelEdits, origin: [f32; 3], dir: [f32; 3], max: f32) -> Option<VoxelHit> {
    pick_voxel(base, e, &ray(origin, dir, max))
}

#[test]
fn delta_resolve_and_generation() {
    let mut e = VoxelEdits::new();
    assert!(e.is_empty());
    let g0 = e.generation();

    e.place(IVec3::new(1, 2, 3), solid(7));
    assert!(!e.is_empty());
    assert_eq!(e.len(), 1);
    assert!(e.generation() > g0, "place bumps the generation");
    assert_eq!(e.resolve(IVec3::new(1, 2, 3), solid(99)), solid(7));
    assert_eq!(e.resolve(IVec3::new(4, 4, 4), solid(99)), solid(99));

    let g1 = e.generation();
    e.remove(IVec3::new(5, 5, 5));
    assert!(e.generation() > g1, "remove bumps the generation");
    assert_eq!(e.resolve(IVec3::new(5, 5, 5), solid(3)), BlockId::air());

    let g2 = e.generation();
    e.clear(IVec3::new(1, 2, 3));
    assert!(e.generation() > g2, "clear of a present override bumps");
    assert_eq!(e.resolve(IVec3::new(1, 2, 3), solid(99)), solid(99), "cleared: base shows through");
    let g3 = e.generation();
    e.clear(IVec3::new(123, 45, 6));
    assert_eq!(e.generation(), g3, "clear of an absent override is a no-op");
}

#[test]
fn overlay_carves_and_paints_a_brick() {
    let coord = IVec3::new(0, 0, 0);
    let base = Brick::uniform(solid(1));
    let mut e = VoxelEdits::new();
    e.remove(IVec3::new(2, 3, 4));
    e.place(IVec3::new(5, 6, 7), solid(9));

    let out = apply_edit_overlay(coord, &base, &e);
    assert_eq!(out.get(2, 3, 4), BlockId::air(), "removed voxel is now air");
    assert!(!out.is_solid(2, 3, 4));
    assert_eq!(out.get(5, 6, 7), solid(9), "placed voxel repainted");
    assert_eq!(out.get(0, 0, 0), solid(1), "untouched voxel keeps the base block");
}

#[test]
fn map_overlay_seeds_empty_space_and_carves() {
    let base_coord = IVec3::new(0, 0, 0);
    let base = solid_brick_map(base_coord, solid(1));
    let mut e = VoxelEdits::new();

    let far = IVec3::new(100, 50, 7);
    e.place(far, solid(5));
    e.remove(IVec3::new(3, 3, 3));

    let out = apply_edits_to_map(&base, &e);
    let far_bc = brick_coord_of_voxel(far);
    let far_brick = out.get(far_bc).expect("placed-into-empty-space brick must be created");
    let (lx, ly, lz) = (far.x - far_bc.x * BRICK_EDGE, far.y - far_bc.y * BRICK_EDGE, far.z - far_bc.z * BRICK_EDGE);
    assert_eq!(far_brick.get(lx, ly, lz), solid(5));
    assert!(far_brick.get(0, 0, 0).is_air(), "the rest of the seeded brick is air");
    assert_eq!(out.voxel_block(IVec3::new(3, 3, 3)), BlockId::air(), "removed voxel dug out of the base brick");
    assert_eq!(out.voxel_block(IVec3::new(0, 0, 0)), solid(1), "neighbouring base voxel intact");
}

#[test]
fn remove_into_empty_space_is_noop() {
    let base = BrickMap::new();
    let mut e = VoxelEdits::new();
    e.remove(IVec3::new(9, 9, 9));
    let out = apply_edits_to_map(&base, &e);
    assert!(out.is_empty(), "removing air creates no brick");
}

#[test]
fn dirty_interior_is_single_brick() {
    let v = IVec3::new(3, 4, 5);
    let dirty = dirty_bricks_for_edit(v);
    assert_eq!(dirty, vec![IVec3::new(0, 0, 0)], "interior voxel: owner only");
}

#[test]
fn dirty_face_includes_neighbour() {
    let v = IVec3::new(0, 4, 4);
    let mut dirty = dirty_bricks_for_edit(v);
    dirty.sort_by_key(|c| (c.x, c.y, c.z));
    assert_eq!(dirty, vec![IVec3::new(-1, 0, 0), IVec3::new(0, 0, 0)]);

    let v2 = IVec3::new(BRICK_EDGE - 1, 4, 4);
    let mut dirty2 = dirty_bricks_for_edit(v2);
    dirty2.sort_by_key(|c| (c.x, c.y, c.z));
    assert_eq!(dirty2, vec![IVec3::new(0, 0, 0), IVec3::new(1, 0, 0)]);
}

#[test]
fn dirty_corner_is_eight_bricks() {
    let v = IVec3::new(0, 0, 0);
    let dirty = dirty_bricks_for_edit(v);
    assert_eq!(dirty.len(), 8, "a corner voxel touches 8 bricks, got {dirty:?}");
    for dz in [-1, 0] {
        for dy in [-1, 0] {
            for dx in [-1, 0] {
                assert!(dirty.contains(&IVec3::new(dx, dy, dz)), "missing brick ({dx},{dy},{dz})");
            }
        }
    }
}

#[test]
fn pick_hits_first_solid_with_face() {
    let base = solid_brick_map(IVec3::new(0, 0, 0), solid(1));
    let e = VoxelEdits::new();

    let mid = (BRICK_EDGE / 2) as f32 * VOXEL_SIZE;
    let hit = pick(&base, &e, [-2.0, mid, mid], [1.0, 0.0, 0.0], 100.0).expect("ray must hit the wall");
    assert_eq!(hit.voxel.x, 0, "first solid voxel is the column at voxel x=0");
    assert_eq!(hit.normal, IVec3::new(-1, 0, 0), "entry face is the face toward the camera");
    assert_eq!(hit.block, solid(1));
    assert_eq!(hit.place_target(), IVec3::new(-1, hit.voxel.y, hit.voxel.z));
    let t = unkey(hit.t).max(0.0);
    assert!((t - 2.0).abs() < 0.05, "hit at about 2 m, got {t}");
}

#[test]
fn pick_misses_empty_space() {
    let base = BrickMap::new();
    let e = VoxelEdits::new();
    assert!(pick(&base, &e, [0.0, 0.0, 0.0], [1.0, 0.0, 0.0], 50.0).is_none());
}

#[test]
fn pick_respects_removed_surface_voxel() {
    let base = solid_brick_map(IVec3::new(0, 0, 0), solid(1));
    let mut e = VoxelEdits::new();
    let mid = (BRICK_EDGE / 2) as f32 * VOXEL_SIZE;
    let vy = (mid / VOXEL_SIZE).floor() as i32;
    let vz = vy;
    e.remove(IVec3::new(0, vy, vz));

    let hit = pick(&base, &e, [-2.0, mid, mid], [1.0, 0.0, 0.0], 100.0).expect("ray still hits the next voxel behind");
    assert_eq!(hit.voxel.x, 1, "the removed voxel 0 is skipped; voxel 1 is the new surface");
    assert_eq!(hit.normal, IVec3::new(-1, 0, 0), "entry face still the face of voxel 1");
}

#[test]
fn pick_hits_placed_voxel_in_empty_space() {
    let base = BrickMap::new();
    let mut e = VoxelEdits::new();
    e.place(IVec3::new(10, 0, 0), solid(4));

    let hit = pick(&base, &e, [-1.0, 0.1, 0.1], [1.0, 0.0, 0.0], 100.0).expect("must hit the placed voxel");
    assert_eq!(hit.voxel, IVec3::new(10, 0, 0));
    assert_eq!(hit.block, solid(4));
    assert_eq!(hit.normal, IVec3::new(-1, 0, 0));
}

#[test]
fn pick_top_face_from_above() {
    let base = solid_brick_map(IVec3::new(0, 0, 0), solid(1));
    let e = VoxelEdits::new();
    let mid = (BRICK_EDGE / 2) as f32 * VOXEL_SIZE;
    let hit = pick(&base, &e, [mid, 5.0, mid], [0.0, -1.0, 0.0], 100.0).expect("downward ray hits the slab top");
    assert_eq!(hit.voxel.y, BRICK_EDGE - 1, "hits the topmost voxel row");
    assert_eq!(hit.normal, IVec3::new(0, 1, 0), "entry face is the top face");
}

#[test]
fn pick_inside_a_solid_reports_the_dominant_face() {
    let base = solid_brick_map(IVec3::new(0, 0, 0), solid(1));
    let hit = pick(&base, &VoxelEdits::new(), [0.7, 0.7, 0.7], [0.5, -1.0, 0.0], 10.0).unwrap();
    assert_eq!((hit.crossings, unkey(hit.t)), (0, 0.0));
    assert_eq!(hit.normal, IVec3::new(0, 1, 0));
    assert!(pick(&base, &VoxelEdits::new(), [0.7, 0.7, 0.7], [0.0, 0.0, 0.0], 10.0).is_none());
    assert!(pick(&base, &VoxelEdits::new(), [0.7, 0.7, 0.7], [1.0, 0.0, 0.0], -1.0).is_none());
}

#[test]
fn a_ray_stops_at_its_reach() {
    let base = solid_brick_map(IVec3::new(0, 0, 0), solid(1));
    assert!(pick(&base, &VoxelEdits::new(), [-2.0, 0.7, 0.7], [1.0, 0.0, 0.0], 1.9).is_none());
    assert!(pick(&base, &VoxelEdits::new(), [-2.0, 0.7, 0.7], [1.0, 0.0, 0.0], 2.1).is_some());
}

#[test]
fn a_slanted_ray_places_where_it_came_from() {
    let base = solid_brick_map(IVec3::new(0, 0, 0), solid(1));
    for dir in [[1.0, 0.3, 0.2], [1.0, -0.4, 0.1], [0.9, 0.5, -0.3]] {
        let hit = pick(&base, &VoxelEdits::new(), [-1.1, 0.8, 0.7], dir, 50.0).expect("the brick is ahead");
        let target = hit.place_target();
        assert!(!base.voxel_is_solid(target), "a block is placed into air");
        assert!(hit.crossings > 0 && base.voxel_is_solid(hit.voxel));
        let mut e = VoxelEdits::new();
        e.place(target, solid(9));
        let again = pick(&base, &e, [-1.1, 0.8, 0.7], dir, 50.0).unwrap();
        assert_eq!((again.voxel, again.block), (target, solid(9)));
    }
}

#[test]
fn a_ray_near_a_corner_reaches_its_full_distance() {
    let base = BrickMap::new();
    let mut e = VoxelEdits::new();
    e.place(IVec3::new(1, 1, 1), BlockId(4));
    let hit = pick(&base, &e, [0.19; 3], [1.0; 3], 0.1).expect("the corner is nearer than the distance");
    assert_eq!((hit.voxel, hit.block, hit.crossings), (IVec3::new(1, 1, 1), BlockId(4), 3));
    assert!(unkey(hit.t) < 0.1);
    assert!(pick(&base, &e, [0.19; 3], [1.0; 3], 0.01).is_none(), "the corner is farther than the distance");
    assert!(pick(&base, &e, [0.1; 3], [0.0; 3], 1.0).is_none(), "a ray without a direction");
}

#[test]
fn of_equally_near_faces_the_last_axis_is_crossed() {
    let mut base = BrickMap::new();
    base.insert(IVec3::new(0, 0, 0), Brick::uniform(solid(1)));
    let grid = |tx: u32, ty: u32, tz: u32| VoxelRay {
        start: IVec3::new(-1, -1, -1),
        step: IVec3::new(1, 1, 1),
        dominant: Axis::X,
        tx: vec![tx, 10, 20, 30],
        ty: vec![ty, 10, 20, 30],
        tz: vec![tz, 10, 20, 30],
        t0: 0,
        max_t: 25,
    };
    let normal = |tx, ty, tz| pick_voxel(&base, &VoxelEdits::new(), &grid(tx, ty, tz)).unwrap().normal;
    assert_eq!(normal(1, 2, 3), IVec3::new(0, 0, -1));
    assert_eq!(normal(3, 2, 1), IVec3::new(-1, 0, 0));
    assert_eq!(normal(2, 2, 2), IVec3::new(-1, 0, 0), "z, then y, then x");
    assert_eq!(normal(2, 2, 1), IVec3::new(-1, 0, 0));
    assert_eq!(normal(1, 2, 1), IVec3::new(0, -1, 0));
}

#[test]
fn overlay_matches_resolve_per_voxel() {
    let coord = IVec3::new(2, -1, 3);
    let mut base_voxels = Box::new([BlockId::air(); BRICK_VOXELS]);
    for z in 0..BRICK_EDGE {
        for y in 0..BRICK_EDGE {
            for x in 0..BRICK_EDGE {
                if (x + y + z) % 2 == 0 {
                    base_voxels[voxel_index(x, y, z)] = solid(2);
                }
            }
        }
    }
    let base = Brick::from_voxels(base_voxels);
    let origin = IVec3::new(16, -8, 24);
    let mut e = VoxelEdits::new();
    e.place(origin.plus(IVec3::new(0, 0, 0)), solid(5));
    e.remove(origin.plus(IVec3::new(2, 2, 2)));

    let out = apply_edit_overlay(coord, &base, &e);
    for z in 0..BRICK_EDGE {
        for y in 0..BRICK_EDGE {
            for x in 0..BRICK_EDGE {
                let wv = origin.plus(IVec3::new(x, y, z));
                assert_eq!(out.get(x, y, z), e.resolve(wv, base.get(x, y, z)), "at {wv:?}");
            }
        }
    }
}

#[test]
fn edits_list_every_override_once() {
    let mut e = VoxelEdits::new();
    e.place(IVec3::new(1, 0, 0), solid(1));
    e.place(IVec3::new(1, 0, 0), solid(2));
    e.remove(IVec3::new(0, 0, 9));
    let mut all = e.iter();
    all.sort_by_key(|(v, _)| (v.x, v.z));
    assert_eq!(all, vec![(IVec3::new(0, 0, 9), BlockId::air()), (IVec3::new(1, 0, 0), solid(2))]);
    assert_eq!(e.get(IVec3::new(1, 0, 0)), Some(solid(2)));
    assert_eq!(e.get(IVec3::new(7, 7, 7)), None);
}

#[test]
fn equal_worlds_are_stored_alike() {
    let registry = BlockRegistry::cornell();
    let mut edits = VoxelEdits::new();
    edits.place(IVec3::new(70, 3, -9), BlockId(2));
    edits.remove(IVec3::new(10, -1, 10));
    let at_once = build_cornell_with_edits(&registry, &edits);
    let laid_over = apply_edits_to_map(&build_cornell(&registry), &edits);
    let mut a = at_once.coords();
    let mut b = laid_over.coords();
    a.sort();
    b.sort();
    assert_eq!(a, b);
    for (x, y, z) in a {
        let c = IVec3::new(x, y, z);
        let (p, q) = (at_once.get(c).unwrap(), laid_over.get(c).unwrap());
        for i in 0..512 {
            let (lx, ly, lz) = (i % 8, (i / 8) % 8, i / 64);
            assert_eq!(p.get(lx, ly, lz), q.get(lx, ly, lz));
        }
    }
}
