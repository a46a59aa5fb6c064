//! Which voxel scene is shown, the latch that frames the camera onto it, and the bounded patch of bricks
//! that is voxelized around the origin.

use crate::brickmap::{Brick, BrickMap};
use crate::edits::holds_brick;
use crate::math::{floor_div8, Cell, IVec3};
use vstd::prelude::*;

verus! {

/// The voxel scene the engine renders.
#[derive(Clone, Copy, Debug, PartialEq, Eq, Structural)]
pub enum VoxelScene {
    /// The static Cornell box, fully resident.
    Cornell,
    /// The streamed procedural terrain.
    Worldgen,
    /// A baked building, streamed.
    Sponza,
    /// Several baked scenes side by side, streamed.
    Gallery,
}

impl Default for VoxelScene {
    /// The scene shown at start.
    fn default() -> (s: VoxelScene)
        ensures
            s == VoxelScene::Sponza,
    {
        VoxelScene::Sponza
    }
}

/// The scene that follows `s` in the cycle. The terrain is not on the cycle, but leads onto it.
pub open spec fn next_scene(s: VoxelScene) -> VoxelScene {
    match s {
        VoxelScene::Sponza => VoxelScene::Cornell,
        VoxelScene::Cornell => VoxelScene::Gallery,
        VoxelScene::Worldgen => VoxelScene::Gallery,
        VoxelScene::Gallery => VoxelScene::Sponza,
    }
}

impl VoxelScene {
    /// True iff this is the static Cornell scene.
    pub fn is_cornell(self) -> (b: bool)
        ensures
            b == (self == VoxelScene::Cornell),
    {
        matches!(self, VoxelScene::Cornell)
    }

    /// True iff this is the procedural terrain.
    pub fn is_worldgen(self) -> (b: bool)
        ensures
            b == (self == VoxelScene::Worldgen),
    {
        matches!(self, VoxelScene::Worldgen)
    }

    /// The next scene in the cycle: Sponza, Cornell, Gallery, and Sponza again.
    pub fn next(self) -> (s: VoxelScene)
        ensures
            s == next_scene(self),
    {
        match self {
            VoxelScene::Sponza => VoxelScene::Cornell,
            VoxelScene::Cornell => VoxelScene::Gallery,
            VoxelScene::Worldgen => VoxelScene::Gallery,
            VoxelScene::Gallery => VoxelScene::Sponza,
        }
    }
}

/// The cycle of scenes never shows the terrain, and three steps from any scene on it lead back to it.
pub proof fn law_scene_cycle(s: VoxelScene)
    ensures
        next_scene(s) != VoxelScene::Worldgen,
        s != VoxelScene::Worldgen ==> next_scene(next_scene(next_scene(s))) == s,
{
}

/// The latch of the camera framing: whether the camera has been framed onto the current scene.
#[derive(Clone, Copy, Debug, PartialEq, Eq, Structural)]
pub struct SceneReframed(pub bool);

impl Default for SceneReframed {
    /// The camera has not been framed yet.
    fn default() -> (r: SceneReframed)
        ensures
            r == SceneReframed(false),
    {
        SceneReframed(false)
    }
}

/// The scene and the latch after the scene key.
pub open spec fn switched(pressed: bool, scene: VoxelScene, latched: bool) -> (VoxelScene, bool) {
    if pressed {
        (next_scene(scene), false)
    } else {
        (scene, latched)
    }
}

/// The scene key: where it was pressed, go to the next scene and have the camera framed anew.
pub fn switch_voxel_scene(pressed: bool, scene: &mut VoxelScene, reframed: &mut SceneReframed)
    ensures
        (*final(scene), final(reframed).0) == switched(pressed, *old(scene), old(reframed).0),
{
    if pressed {
        *scene = scene.next();
        *reframed = SceneReframed(false);
    }
}

/// How the camera moves in a scene.
#[derive(Clone, Copy, Debug, PartialEq, Eq, Structural)]
pub enum CameraRig {
    /// Orbit a point.
    Orbit,
    /// Fly freely.
    Fly,
}

/// The camera a scene is looked at with: the small static box is orbited, the others are flown through.
pub open spec fn rig_of(s: VoxelScene) -> CameraRig {
    if s == VoxelScene::Cornell {
        CameraRig::Orbit
    } else {
        CameraRig::Fly
    }
}

/// How the camera is framed, if it is, and the latch after it.
pub open spec fn framing(camera_present: bool, scene: VoxelScene, latched: bool) -> (Option<CameraRig>, bool) {
    if latched || !camera_present {
        (None, latched)
    } else {
        (Some(rig_of(scene)), true)
    }
}

/// Whether to frame the camera now, and with which rig: once per scene, as soon as there is a camera.
/// The latch is set where the camera is framed.
pub fn reframe_camera(camera_present: bool, scene: VoxelScene, reframed: &mut SceneReframed) -> (rig: Option<
    CameraRig,
>)
    ensures
        (rig, final(reframed).0) == framing(camera_present, scene, old(reframed).0),
{
    if reframed.0 || !camera_present {
        return None;
    }
    *reframed = SceneReframed(true);
    if scene.is_cornell() {
        Some(CameraRig::Orbit)
    } else {
        Some(CameraRig::Fly)
    }
}

/// The bricks of the patch whose voxels span `-half..=half` on x and z and `min_y..=max_y` on y.
pub open spec fn in_patch(half: int, min_y: int, max_y: int, c: Cell) -> bool {
    &&& (-half) / 8 <= c.0 <= half / 8
    &&& min_y / 8 <= c.1 <= max_y / 8
    &&& (-half) / 8 <= c.2 <= half / 8
}

/// The order in which a patch is walked: by z, then by y, then by x.
pub open spec fn scanned_before(a: Cell, b: Cell) -> bool {
    a.2 < b.2 || (a.2 == b.2 && (a.1 < b.1 || (a.1 == b.1 && a.0 < b.0)))
}

/// The bricks of the patch, each once, by z, then by y, then by x.
pub fn patch_bricks(half: i32, min_y: i32, max_y: i32) -> (out: Vec<IVec3>)
    requires
        half > i32::MIN,
    ensures
        forall|c: Cell| #[trigger]
            in_patch(half as int, min_y as int, max_y as int, c) <==> (exists|i: int|
                0 <= i < out@.len() && (#[trigger] out@[i])@ == c),
        forall|i: int, j: int|
            0 <= i < j < out@.len() ==> scanned_before((#[trigger] out@[i])@, (#[trigger] out@[j])@),
{
    let lo: IVec3 = IVec3 { x: floor_div8(-half), y: floor_div8(min_y), z: floor_div8(-half) };
    let hi: IVec3 = IVec3 { x: floor_div8(half), y: floor_div8(max_y), z: floor_div8(half) };
    let mut out: Vec<IVec3> = Vec::new();
    let mut z: i32 = lo.z;
    while z <= hi.z
        invariant
            lo.z <= z,
            z <= hi.z + 1 || z == lo.z,
            hi.x < 0x1000_0000,
            hi.y < 0x1000_0000,
            hi.z < 0x1000_0000,
            scanned(lo, hi, lo@.0, lo@.1, z, out@),
        decreases hi.z + 1 - z,
    {
        let mut y: i32 = lo.y;
        while y <= hi.y
            invariant
                lo.z <= z <= hi.z,
                lo.y <= y,
                y <= hi.y + 1 || y == lo.y,
                hi.x < 0x1000_0000,
                hi.y < 0x1000_0000,
                hi.z < 0x1000_0000,
                scanned(lo, hi, lo@.0, y, z, out@),
            decreases hi.y + 1 - y,
        {
            let mut x: i32 = lo.x;
            while x <= hi.x
                invariant
                    lo.z <= z <= hi.z,
                    lo.y <= y <= hi.y,
                    lo.x <= x,
                    x <= hi.x + 1 || x == lo.x,
                    hi.x < 0x1000_0000,
                    hi.y < 0x1000_0000,
                    hi.z < 0x1000_0000,
                    scanned(lo, hi, x, y, z, out@),
                decreases hi.x + 1 - x,
            {
                let ghost before = out@;
                let c: IVec3 = IVec3 { x, y, z };
                out.push(c);
                proof {
                    assert(spans(lo, hi, c@));
                    assert forall|d: Cell| #[trigger]
                        listed(out@, d) <==> spans(lo, hi, d) && scanned_before(
                            d,
                            ((x + 1) as i32, y, z),
                        ) by {
                        if listed(out@, d) {
                            let i = choose|i: int| 0 <= i < out@.len() && (#[trigger] out@[i])@ == d;
                            if i < before.len() {
                                assert(before[i]@ == d);
                                assert(listed(before, d));
                            }
                        }
                        if spans(lo, hi, d) && scanned_before(d, ((x + 1) as i32, y, z)) {
                            if d == c@ {
                                assert(out@[before.len() as int]@ == d);
                            } else {
                                assert(listed(before, d));
                                let i = choose|i: int| 0 <= i < before.len() && (#[trigger] before[i])@ == d;
                                assert(out@[i]@ == d);
                            }
                        }
                    }
                    assert forall|i: int, j: int| 0 <= i < j < out@.len() implies scanned_before(
                        (#[trigger] out@[i])@,
                        (#[trigger] out@[j])@,
                    ) by {
                        assert(before[i]@ == out@[i]@);
                        assert(listed(before, before[i]@));
                        if j < before.len() {
                            assert(before[j]@ == out@[j]@);
                        }
                    }
                }
                x = x + 1;
            }
            assert forall|d: Cell| #[trigger]
                listed(out@, d) <==> spans(lo, hi, d) && scanned_before(d, (lo.x, (y + 1) as i32, z)) by {}
            y = y + 1;
        }
        assert forall|d: Cell| #[trigger]
            listed(out@, d) <==> spans(lo, hi, d) && scanned_before(d, (lo.x, lo.y, (z + 1) as i32)) by {}
        z = z + 1;
    }
    assert forall|c: Cell| #[trigger]
        in_patch(half as int, min_y as int, max_y as int, c) <==> (exists|i: int|
            0 <= i < out@.len() && (#[trigger] out@[i])@ == c) by {
        assert(listed(out@, c) <==> spans(lo, hi, c));
    }
    out
}

/// Whether `c` is in the box of bricks from `lo` to `hi`.
spec fn spans(lo: IVec3, hi: IVec3, c: Cell) -> bool {
    lo.x <= c.0 <= hi.x && lo.y <= c.1 <= hi.y && lo.z <= c.2 <= hi.z
}

/// Whether `c` is in the list.
spec fn listed(list: Seq<IVec3>, c: Cell) -> bool {
    exists|i: int| 0 <= i < list.len() && (#[trigger] list[i])@ == c
}

/// The list holds, in order, the bricks of the box that come before `(x, y, z)`.
spec fn scanned(lo: IVec3, hi: IVec3, x: i32, y: i32, z: i32, list: Seq<IVec3>) -> bool {
    &&& forall|c: Cell| #[trigger] listed(list, c) <==> spans(lo, hi, c) && scanned_before(c, (x, y, z))
    &&& forall|i: int, j: int|
        0 <= i < j < list.len() ==> scanned_before((#[trigger] list[i])@, (#[trigger] list[j])@)
}

/// Probes per axis with which the surface of the patch is bounded.
pub const PATCH_PROBES: u32 = 9;

/// Whether the list has, row by row, what `band` gives at the probes.
pub open spec fn is_probed<F: Fn(u32, u32) -> (i32, i32)>(band: F, list: Seq<(i32, i32)>) -> bool {
    forall|k: int|
        0 <= k < list.len() ==> call_ensures(band, ((k % 9) as u32, (k / 9) as u32), #[trigger] list[k])
}

/// Whether `lo` is the least bottom and `hi` the greatest top of the list.
pub open spec fn brackets(list: Seq<(i32, i32)>, lo: i32, hi: i32) -> bool {
    &&& forall|k: int| 0 <= k < list.len() ==> lo <= (#[trigger] list[k]).0 && list[k].1 <= hi
    &&& exists|k: int| 0 <= k < list.len() && (#[trigger] list[k]).0 == lo
    &&& exists|k: int| 0 <= k < list.len() && (#[trigger] list[k]).1 == hi
}

/// The voxel band of the patch: `band` gives the lowest and the highest voxel of the padded surface at each
/// of nine probes by nine, and the patch reaches from the lowest of all to the highest.
pub fn patch_y_voxel_range<F: Fn(u32, u32) -> (i32, i32)>(band: &F) -> (r: (i32, i32))
    requires
        forall|i: u32, j: u32| i < PATCH_PROBES && j < PATCH_PROBES ==> #[trigger] call_requires(*band, (i, j)),
    ensures
        exists|list: Seq<(i32, i32)>|
            list.len() == 81 && #[trigger] is_probed(*band, list) && brackets(list, r.0, r.1),
{
    let first: (i32, i32) = band(0, 0);
    let mut lo: i32 = first.0;
    let mut hi: i32 = first.1;
    let ghost mut list: Seq<(i32, i32)> = seq![first];
    let mut k: u32 = 1;
    assert(list[0] == first);
    while k < 81
        invariant
            1 <= k <= 81,
            forall|i: u32, j: u32| i < PATCH_PROBES && j < PATCH_PROBES ==> #[trigger] call_requires(*band, (i, j)),
            list.len() == k,
            is_probed(*band, list),
            brackets(list, lo, hi),
        decreases 81 - k,
    {
        let b: (i32, i32) = band(k % PATCH_PROBES, k / PATCH_PROBES);
        let ghost before = list;
        let ghost at_lo = choose|k: int| 0 <= k < list.len() && (#[trigger] list[k]).0 == lo;
        let ghost at_hi = choose|k: int| 0 <= k < list.len() && (#[trigger] list[k]).1 == hi;
        proof {
            list = list.push(b);
            assert(list[k as int] == b);
            assert(list[at_lo] == before[at_lo] && list[at_hi] == before[at_hi]);
        }
        if b.0 < lo {
            lo = b.0;
        }
        if b.1 > hi {
            hi = b.1;
        }
        proof {
            assert forall|n: int| 0 <= n < list.len() implies call_ensures(
                *band,
                ((n % 9) as u32, (n / 9) as u32),
                #[trigger] list[n],
            ) by {
                if n < k {
                    assert(list[n] == before[n]);
                }
            }
            assert forall|n: int| 0 <= n < list.len() implies lo <= (#[trigger] list[n]).0 && list[n].1 <= hi by {
                if n < k {
                    assert(list[n] == before[n]);
                }
            }
        }
        k = k + 1;
    }
    (lo, hi)
}

/// Voxelize the patch: `voxelize` gives the brick at each coordinate of the patch. What it gives that is
/// all air is not stored, and nothing is stored outside the patch.
pub fn voxelize_patch<F: Fn(IVec3) -> Brick>(half: i32, min_y: i32, max_y: i32, voxelize: F) -> (map: BrickMap)
    requires
        half > i32::MIN,
        forall|c: IVec3| #[trigger]
            in_patch(half as int, min_y as int, max_y as int, c@) ==> call_requires(voxelize, (c,)),
        forall|c: IVec3, b: Brick| #[trigger] call_ensures(voxelize, (c,), b) ==> b.wf(),
    ensures
        map.wf(),
        forall|c: IVec3| #[trigger]
            in_patch(half as int, min_y as int, max_y as int, c@) ==> (exists|b: Brick| #[trigger]
                call_ensures(voxelize, (c,), b) && holds_brick(map@, c@, b@)),
        forall|c: Cell| #[trigger]
            map@.dom().contains(c) ==> in_patch(half as int, min_y as int, max_y as int, c),
{
    let list: Vec<IVec3> = patch_bricks(half, min_y, max_y);
    let mut map: BrickMap = BrickMap::new();
    let mut i: usize = 0;
    while i < list.len()
        invariant
            i <= list@.len(),
            map.wf(),
            forall|c: IVec3| #[trigger]
                in_patch(half as int, min_y as int, max_y as int, c@) ==> call_requires(voxelize, (c,)),
            forall|c: IVec3, b: Brick| #[trigger] call_ensures(voxelize, (c,), b) ==> b.wf(),
            forall|c: Cell| #[trigger]
                in_patch(half as int, min_y as int, max_y as int, c) <==> (exists|k: int|
                    0 <= k < list@.len() && (#[trigger] list@[k])@ == c),
            forall|a: int, b: int|
                0 <= a < b < list@.len() ==> scanned_before((#[trigger] list@[a])@, (#[trigger] list@[b])@),
            forall|k: int| 0 <= k < i ==> filled(voxelize, map@, #[trigger] list@[k]),
            forall|c: Cell| #[trigger]
                map@.dom().contains(c) ==> in_patch(half as int, min_y as int, max_y as int, c),
        decreases list@.len() - i,
    {
        let c: IVec3 = list[i];
        assert(in_patch(half as int, min_y as int, max_y as int, c@));
        let b: Brick = voxelize(c);
        let ghost before = map@;
        let ghost blocks = b@;
        let ghost made = b;
        let _stored: bool = map.insert(c, b);
        proof {
            assert(call_ensures(voxelize, (c,), made) && holds_brick(map@, c@, made@));
            assert forall|k: int| 0 <= k <= i implies filled(voxelize, map@, #[trigger] list@[k]) by {
                if k < i {
                    assert(filled(voxelize, before, list@[k]));
                    let d = list@[k];
                    assert(scanned_before(d@, c@));
                    let old_b = choose|b: Brick| #[trigger]
                        call_ensures(voxelize, (d,), b) && holds_brick(before, d@, b@);
                    assert(holds_brick(map@, d@, old_b@));
                }
            }
        }
        i = i + 1;
    }
    assert forall|c: IVec3| #[trigger]
        in_patch(half as int, min_y as int, max_y as int, c@) implies exists|b: Brick| #[trigger]
        call_ensures(voxelize, (c,), b) && holds_brick(map@, c@, b@) by {
        let k = choose|k: int| 0 <= k < list@.len() && (#[trigger] list@[k])@ == c@;
        assert(list@[k] == c);
        assert(filled(voxelize, map@, list@[k]));
    }
    map
}

/// Whether the store holds what the voxelizer gives at `c`.
spec fn filled<F: Fn(IVec3) -> Brick>(voxelize: F, bricks: Map<Cell, Seq<crate::palette::BlockId>>, c: IVec3) -> bool {
    exists|b: Brick| #[trigger] call_ensures(voxelize, (c,), b) && holds_brick(bricks, c@, b@)
}

/// The next scene: the box after the building, the gallery after the box, the building after the gallery; from the
/// terrain it goes on to the gallery.
pub proof fn law_next_scenes()
    ensures
        next_scene(VoxelScene::Sponza) == VoxelScene::Cornell,
        next_scene(VoxelScene::Cornell) == VoxelScene::Gallery,
        next_scene(VoxelScene::Gallery) == VoxelScene::Sponza,
        next_scene(VoxelScene::Worldgen) == VoxelScene::Gallery,
{
}

/// The box is orbited, and every other scene flown through.
pub proof fn law_camera_rigs(s: VoxelScene)
    ensures
        rig_of(s) is Orbit <==> s is Cornell,
        rig_of(s) is Fly <==> s !is Cornell,
{
}

/// A brick is in a patch just where it has a voxel that is at most `half` from the middle on x and on z, and between the
/// heights on y.
pub proof fn law_patch_has_the_bricks_of_its_voxels(half: int, min_y: int, max_y: int, c: Cell)
    requires
        0 <= half,
        min_y <= max_y,
    ensures
        in_patch(half, min_y, max_y, c) <==> {
            &&& exists|x: int| #![trigger 8 * c.0 + x] 0 <= x < 8 && -half <= 8 * c.0 + x <= half
            &&& exists|y: int| #![trigger 8 * c.1 + y] 0 <= y < 8 && min_y <= 8 * c.1 + y <= max_y
            &&& exists|z: int| #![trigger 8 * c.2 + z] 0 <= z < 8 && -half <= 8 * c.2 + z <= half
        },
{
    lemma_overlap(-half, half, c.0 as int);
    lemma_overlap(min_y, max_y, c.1 as int);
    lemma_overlap(-half, half, c.2 as int);
}

proof fn lemma_overlap(lo: int, hi: int, c: int)
    requires
        lo <= hi,
    ensures
        lo / 8 <= c <= hi / 8 <==> exists|x: int| #![trigger 8 * c + x] 0 <= x < 8 && lo <= 8 * c + x <= hi,
{
    if lo / 8 <= c <= hi / 8 {
        let x: int = if lo <= 8 * c {
            0
        } else {
            lo - 8 * c
        };
        assert(0 <= x < 8 && lo <= 8 * c + x <= hi);
    }
    if exists|x: int| #![trigger 8 * c + x] 0 <= x < 8 && lo <= 8 * c + x <= hi {
        let x = choose|x: int| #![trigger 8 * c + x] 0 <= x < 8 && lo <= 8 * c + x <= hi;
        assert(lo <= 8 * c + x <= hi);
    }
}

/// The bricks of a patch come z slowest, then y, then x.
pub proof fn law_scan_order(a: Cell, b: Cell)
    ensures
        a.2 < b.2 ==> scanned_before(a, b),
        a.2 == b.2 && a.1 < b.1 ==> scanned_before(a, b),
        a.2 == b.2 && a.1 == b.1 && a.0 < b.0 ==> scanned_before(a, b),
        a == b || scanned_before(a, b) != scanned_before(b, a),
        !scanned_before(a, a),
{
}

/// The heights of a patch hold what each of the nine by nine probes says, and one of them says the least, one the
/// greatest.
pub proof fn law_heights_hold_every_probe<F: Fn(u32, u32) -> (i32, i32)>(
    band: F,
    says: spec_fn(u32, u32) -> (i32, i32),
    list: Seq<(i32, i32)>,
    lo: i32,
    hi: i32,
    i: u32,
    j: u32,
)
    requires
        list.len() == 81,
        is_probed(band, list),
        brackets(list, lo, hi),
        forall|a: u32, b: u32, r: (i32, i32)| #[trigger] call_ensures(band, (a, b), r) ==> r == says(a, b),
        i < 9,
        j < 9,
    ensures
        lo <= says(i, j).0 && says(i, j).1 <= hi,
        exists|a: u32, b: u32| a < 9 && b < 9 && (#[trigger] says(a, b)).0 == lo,
        exists|a: u32, b: u32| a < 9 && b < 9 && (#[trigger] says(a, b)).1 == hi,
{
    let k = i as int + 9 * j as int;
    assert(k % 9 == i && k / 9 == j);
    assert(list[k] == says(i, j));
    let p = choose|p: int| 0 <= p < list.len() && (#[trigger] list[p]).0 == lo;
    assert(list[p] == says((p % 9) as u32, (p / 9) as u32));
    let q = choose|q: int| 0 <= q < list.len() && (#[trigger] list[q]).1 == hi;
    assert(list[q] == says((q % 9) as u32, (q / 9) as u32));
}

/// The scene key goes on to the next scene and has the camera framed anew; without it neither changes.
pub proof fn law_switching_scenes(scene: VoxelScene, latched: bool)
    ensures
        switched(false, scene, latched) == (scene, latched),
        switched(true, scene, latched).0 == next_scene(scene),
        !switched(true, scene, latched).1,
{
}

/// The camera is framed once for a scene, as soon as there is one: once it is framed, it is not again before the scene is
/// switched; and after that it is, with the rig of the new scene.
pub proof fn law_camera_is_framed_once(camera: bool, scene: VoxelScene, latched: bool)
    ensures
        framing(camera, scene, true) == (None::<CameraRig>, true),
        framing(false, scene, latched) == (None::<CameraRig>, latched),
        framing(true, scene, false) == (Some(rig_of(scene)), true),
        framing(camera, scene, framing(true, scene, latched).1).0 is None,
        framing(true, switched(true, scene, latched).0, switched(true, scene, latched).1).0 == Some(
            rig_of(next_scene(scene)),
        ),
{
}

} // verus!
