//! The Cornell box: a closed, static room of voxels with an open front, a red wall, a green wall, a light
//! in the ceiling and two boxes on the floor.
//!
//! The interior spans the voxels from 0 to [`INTERIOR`] on each axis; the walls are [`WALL`] voxels thick
//! and lie just outside it. There is no wall on the side of negative z.

use crate::brickmap::{
    brick_coord_of_voxel, local_of, owner_of, world_block, Brick, BrickMap, BRICK_VOXELS,
};
use crate::edits::{
    brick_in_range, holds_brick, law_world_voxel_round_trip, resolved, voxel_in_brick, voxel_of, VoxelEdits,
};
use crate::math::{floor_div8, Cell, IVec3};
use crate::palette::{BlockId, BlockRegistry, CornellBlock};
use vstd::prelude::*;

verus! {

/// Interior edge of the box, in voxels.
pub const INTERIOR: i32 = 48;

/// Wall thickness, in voxels.
pub const WALL: i32 = 2;

/// Whether `n` is in the interior on its axis.
pub open spec fn inside(n: i32) -> bool {
    0 <= n < 48
}

/// Whether `n` is in the wall below the interior on its axis.
pub open spec fn below(n: i32) -> bool {
    -2 <= n < 0
}

/// Whether `n` is in the wall above the interior on its axis.
pub open spec fn above(n: i32) -> bool {
    48 <= n < 50
}

/// Whether the ceiling column `(x, z)` is in the light panel: the middle third on both axes.
pub open spec fn in_light_panel(x: i32, z: i32) -> bool {
    16 <= x < 32 && 16 <= z < 32
}

/// Whether a voxel is in one of the two boxes on the floor, a tall one and a short one.
pub open spec fn in_box(v: Cell) -> bool {
    ||| 8 <= v.0 < 22 && 0 <= v.1 < 28 && 20 <= v.2 < 34
    ||| 26 <= v.0 < 42 && 0 <= v.1 < 16 && 6 <= v.2 < 22
}

/// The block of the Cornell box at a world voxel.
pub open spec fn cornell_at(v: Cell) -> BlockId {
    if above(v.1) && inside(v.0) && inside(v.2) {
        if in_light_panel(v.0, v.2) {
            BlockId(CornellBlock::Light.place())
        } else {
            BlockId(CornellBlock::White.place())
        }
    } else if below(v.1) && inside(v.0) && inside(v.2) {
        BlockId(CornellBlock::White.place())
    } else if above(v.2) && inside(v.0) && inside(v.1) {
        BlockId(CornellBlock::White.place())
    } else if below(v.0) && inside(v.1) && inside(v.2) {
        BlockId(CornellBlock::Red.place())
    } else if above(v.0) && inside(v.1) && inside(v.2) {
        BlockId(CornellBlock::Green.place())
    } else if in_box(v) {
        BlockId(CornellBlock::White.place())
    } else {
        BlockId::air()
    }
}

/// The voxel bounds of the box, the walls among it: from the first, up to but not including the second.
fn box_voxel_bounds() -> (r: (IVec3, IVec3))
    ensures
        r.0@ == (-2i32, -2i32, 0i32),
        r.1@ == (50i32, 50i32, 50i32),
{
    (
        IVec3 { x: -WALL, y: -WALL, z: 0 },
        IVec3 { x: INTERIOR + WALL, y: INTERIOR + WALL, z: INTERIOR + WALL },
    )
}

/// Classify a world voxel of the scene.
pub fn cornell_voxel(v: IVec3) -> (b: BlockId)
    ensures
        b == cornell_at(v@),
{
    let (lo, hi) = box_voxel_bounds();
    if v.x < lo.x || v.x >= hi.x || v.y < lo.y || v.y >= hi.y || v.z < lo.z || v.z >= hi.z {
        return BlockId::air();
    }
    let in_x: bool = 0 <= v.x && v.x < INTERIOR;
    let in_y: bool = 0 <= v.y && v.y < INTERIOR;
    let in_z: bool = 0 <= v.z && v.z < INTERIOR;
    if v.y >= INTERIOR && in_x && in_z {
        if is_light_panel(v.x, v.z) {
            return CornellBlock::Light.id();
        }
        return CornellBlock::White.id();
    }
    if v.y < 0 && in_x && in_z {
        return CornellBlock::White.id();
    }
    if v.z >= INTERIOR && in_x && in_y {
        return CornellBlock::White.id();
    }
    if v.x < 0 && in_y && in_z {
        return CornellBlock::Red.id();
    }
    if v.x >= INTERIOR && in_y && in_z {
        return CornellBlock::Green.id();
    }
    if in_x && in_y && in_z && in_floor_box(v) {
        return CornellBlock::White.id();
    }
    BlockId::air()
}

/// Whether the ceiling column `(x, z)` is in the light panel.
pub fn is_light_panel(x: i32, z: i32) -> (b: bool)
    ensures
        b == in_light_panel(x, z),
{
    let lo: i32 = INTERIOR / 3;
    let hi: i32 = INTERIOR - INTERIOR / 3;
    lo <= x && x < hi && lo <= z && z < hi
}

/// Whether an interior voxel is in one of the two boxes on the floor.
pub fn in_floor_box(v: IVec3) -> (b: bool)
    ensures
        b == in_box(v@),
{
    let tall: bool = 8 <= v.x && v.x < 22 && 0 <= v.y && v.y < 28 && 20 <= v.z && v.z < 34;
    let short: bool = 26 <= v.x && v.x < 42 && 0 <= v.y && v.y < 16 && 6 <= v.z && v.z < 22;
    tall || short
}

/// Build the Cornell box.
pub fn build_cornell(registry: &BlockRegistry) -> (map: BrickMap)
    ensures
        map.wf(),
        forall|v: Cell| #[trigger] world_block(map@, v) == cornell_at(v),
        forall|c: Cell| #[trigger] map@.dom().contains(c) ==> brick_in_range(c),
{
    let edits: VoxelEdits = VoxelEdits::new();
    let map: BrickMap = build_cornell_with_edits(registry, &edits);
    assert forall|v: Cell| #[trigger] world_block(map@, v) == cornell_at(v) by {
        assert(world_block(map@, v) == resolved(edits@, v, cornell_at(v)));
    }
    map
}

/// The blocks of the brick at `c` of the Cornell box with overrides.
pub open spec fn cornell_brick(c: Cell, edits: Map<Cell, BlockId>) -> Seq<BlockId> {
    Seq::new(512, |i: int| resolved(edits, voxel_of(c, i), cornell_at(voxel_of(c, i))))
}

/// Whether brick `c` is in the box of bricks from `lo` to `hi`.
spec fn in_bricks(lo: IVec3, hi: IVec3, c: Cell) -> bool {
    lo.x <= c.0 <= hi.x && lo.y <= c.1 <= hi.y && lo.z <= c.2 <= hi.z
}

fn voxelize_cornell(coord: IVec3, edits: &VoxelEdits) -> (brick: Brick)
    requires
        brick_in_range(coord@),
    ensures
        brick.wf(),
        brick@ == cornell_brick(coord@, edits@),
{
    let mut voxels: [BlockId; BRICK_VOXELS] = [BlockId::air();BRICK_VOXELS];
    let mut i: usize = 0;
    while i < BRICK_VOXELS
        invariant
            i <= 512,
            brick_in_range(coord@),
            voxels@.len() == 512,
            forall|j: int| 0 <= j < i ==> voxels@[j] == cornell_brick(coord@, edits@)[j],
        decreases 512 - i,
    {
        let v: IVec3 = voxel_in_brick(coord, i);
        voxels[i] = edits.resolve(v, cornell_voxel(v));
        i = i + 1;
    }
    assert(voxels@ =~= cornell_brick(coord@, edits@));
    Brick::from_voxels(Box::new(voxels))
}

/// Whether the bricks of the solid overrides, and those next to them, have voxels with coordinates of 32
/// bits.
pub open spec fn edits_in_range(edits: Map<Cell, BlockId>) -> bool {
    forall|v: Cell| #[trigger]
        edits.dom().contains(v) && edits[v] != BlockId::air() ==> brick_in_range(
            ((owner_of(v).0 - 1) as i32, (owner_of(v).1 - 1) as i32, (owner_of(v).2 - 1) as i32),
        ) && brick_in_range(
            ((owner_of(v).0 + 1) as i32, (owner_of(v).1 + 1) as i32, (owner_of(v).2 + 1) as i32),
        )
}

/// Build the Cornell box with overrides laid over it: every voxel is the override, or that of the box.
pub fn build_cornell_with_edits(_registry: &BlockRegistry, edits: &VoxelEdits) -> (map: BrickMap)
    requires
        edits_in_range(edits@),
    ensures
        map.wf(),
        forall|v: Cell| #[trigger] world_block(map@, v) == resolved(edits@, v, cornell_at(v)),
        forall|c: Cell| #[trigger] map@.dom().contains(c) ==> brick_in_range(c),
{
    let (lo, hi) = box_voxel_bounds();
    let ghost m = edits@;
    let mut bc_lo: IVec3 = IVec3 { x: floor_div8(lo.x), y: floor_div8(lo.y), z: floor_div8(lo.z) };
    let mut bc_hi: IVec3 = IVec3 {
        x: floor_div8(hi.x - 1),
        y: floor_div8(hi.y - 1),
        z: floor_div8(hi.z - 1),
    };
    let list: Vec<(IVec3, BlockId)> = edits.iter();
    let mut i: usize = 0;
    while i < list.len()
        invariant
            i <= list@.len(),
            m == edits@,
            forall|v: Cell| #[trigger]
                m.dom().contains(v) && m[v] != BlockId::air() ==> brick_in_range(
                    ((owner_of(v).0 - 1) as i32, (owner_of(v).1 - 1) as i32, (owner_of(v).2 - 1) as i32),
                ) && brick_in_range(
                    ((owner_of(v).0 + 1) as i32, (owner_of(v).1 + 1) as i32, (owner_of(v).2 + 1) as i32),
                ),
            forall|j: int|
                0 <= j < list@.len() ==> m.dom().contains((#[trigger] list@[j]).0@) && list@[j].1
                    == m[list@[j].0@],
            brick_in_range(bc_lo@),
            brick_in_range(bc_hi@),
            in_bricks(bc_lo, bc_hi, (-1i32, -1i32, 0i32)),
            in_bricks(bc_lo, bc_hi, (6, 6, 6)),
            forall|j: int|
                0 <= j < i && (#[trigger] list@[j]).1 != BlockId::air() ==> in_bricks(
                    bc_lo,
                    bc_hi,
                    owner_of(list@[j].0@),
                ),
        decreases list@.len() - i,
    {
        let wv: IVec3 = list[i].0;
        let block: BlockId = list[i].1;
        if !block.is_air() {
            let bc: IVec3 = brick_coord_of_voxel(wv);
            proof {
                assert(m.dom().contains(list@[i as int].0@));
                law_world_voxel_round_trip(wv@);
            }
            bc_lo = bc_lo.lower(IVec3 { x: bc.x - 1, y: bc.y - 1, z: bc.z - 1 });
            bc_hi = bc_hi.upper(IVec3 { x: bc.x + 1, y: bc.y + 1, z: bc.z + 1 });
        }
        i = i + 1;
    }
    let mut map: BrickMap = BrickMap::new();
    let mut bz: i32 = bc_lo.z;
    while bz <= bc_hi.z
        invariant
            m == edits@,
            brick_in_range(bc_lo@),
            brick_in_range(bc_hi@),
            bc_lo.z <= bz <= bc_hi.z + 1,
            bc_lo.y <= bc_hi.y,
            bc_lo.x <= bc_hi.x,
            map.wf(),
            forall|c: Cell| #[trigger]
                map@.dom().contains(c) ==> in_bricks(bc_lo, bc_hi, c) && c.2 < bz,
            forall|c: Cell| #[trigger]
                in_bricks(bc_lo, bc_hi, c) && c.2 < bz ==> holds_brick(map@, c, cornell_brick(c, m)),
        decreases bc_hi.z + 1 - bz,
    {
        let mut by: i32 = bc_lo.y;
        while by <= bc_hi.y
            invariant
                m == edits@,
                brick_in_range(bc_lo@),
                brick_in_range(bc_hi@),
                bc_lo.z <= bz <= bc_hi.z,
                bc_lo.y <= by <= bc_hi.y + 1,
                bc_lo.x <= bc_hi.x,
                map.wf(),
                forall|c: Cell| #[trigger]
                    map@.dom().contains(c) ==> in_bricks(bc_lo, bc_hi, c) && (c.2 < bz || c.2 == bz && c.1
                        < by),
                forall|c: Cell| #[trigger]
                    in_bricks(bc_lo, bc_hi, c) && (c.2 < bz || c.2 == bz && c.1 < by) ==> holds_brick(
                        map@,
                        c,
                        cornell_brick(c, m),
                    ),
            decreases bc_hi.y + 1 - by,
        {
            let mut bx: i32 = bc_lo.x;
            while bx <= bc_hi.x
                invariant
                    m == edits@,
                    brick_in_range(bc_lo@),
                    brick_in_range(bc_hi@),
                    bc_lo.z <= bz <= bc_hi.z,
                    bc_lo.y <= by <= bc_hi.y,
                    bc_lo.x <= bx <= bc_hi.x + 1,
                    map.wf(),
                    forall|c: Cell| #[trigger]
                        map@.dom().contains(c) ==> in_bricks(bc_lo, bc_hi, c) && (c.2 < bz || c.2 == bz
                            && (c.1 < by || c.1 == by && c.0 < bx)),
                    forall|c: Cell| #[trigger]
                        in_bricks(bc_lo, bc_hi, c) && (c.2 < bz || c.2 == bz && (c.1 < by || c.1 == by
                            && c.0 < bx)) ==> holds_brick(map@, c, cornell_brick(c, m)),
                decreases bc_hi.x + 1 - bx,
            {
                let coord: IVec3 = IVec3 { x: bx, y: by, z: bz };
                let ghost before = map@;
                let brick: Brick = voxelize_cornell(coord, edits);
                let _stored: bool = map.insert(coord, brick);
                proof {
                    assert forall|c: Cell| #[trigger] in_bricks(bc_lo, bc_hi, c) && (c.2 < bz || c.2 == bz
                        && (c.1 < by || c.1 == by && c.0 < bx + 1)) implies holds_brick(
                        map@,
                        c,
                        cornell_brick(c, m),
                    ) by {
                        if c != coord@ {
                            assert(holds_brick(before, c, cornell_brick(c, m)));
                        }
                    }
                }
                bx = bx + 1;
            }
            by = by + 1;
        }
        bz = bz + 1;
    }
    proof {
        assert forall|v: Cell| #[trigger] world_block(map@, v) == resolved(m, v, cornell_at(v)) by {
            let c = owner_of(v);
            law_world_voxel_round_trip(v);
            if in_bricks(bc_lo, bc_hi, c) {
                assert(holds_brick(map@, c, cornell_brick(c, m)));
                assert(cornell_brick(c, m)[local_of(v)] == resolved(m, v, cornell_at(v)));
            } else {
                assert(!map@.dom().contains(c));
                if m.dom().contains(v) && m[v] != BlockId::air() {
                    let j = choose|j: int| 0 <= j < list@.len() && (#[trigger] list@[j]).0@ == v;
                    assert(list@[j].1 != BlockId::air());
                }
                assert(cornell_at(v) == BlockId::air());
            }
        }
    }
    map
}

/// The room of the Cornell box, for any store that holds it: a white floor, back wall and ceiling of two voxels around
/// an interior of 48 on each axis, a red wall on the left and a green one on the right, and a light in the middle third
/// of the ceiling. Nothing lies outside, and there is no front wall.
pub proof fn law_room_of_the_box(map: Map<Cell, Seq<BlockId>>)
    requires
        forall|v: Cell| #[trigger] world_block(map, v) == cornell_at(v),
    ensures
        forall|x: i32, y: i32, z: i32|
            0 <= x < 48 && -2 <= y < 0 && 0 <= z < 48 ==> #[trigger] world_block(map, (x, y, z)) == BlockId(1),
        forall|x: i32, y: i32, z: i32|
            0 <= x < 48 && 0 <= y < 48 && 48 <= z < 50 ==> #[trigger] world_block(map, (x, y, z)) == BlockId(1),
        forall|x: i32, y: i32, z: i32|
            0 <= x < 48 && 48 <= y < 50 && 0 <= z < 48 ==> #[trigger] world_block(map, (x, y, z)) == (if 16 <= x < 32
                && 16 <= z < 32 {
                BlockId(4)
            } else {
                BlockId(1)
            }),
        forall|x: i32, y: i32, z: i32|
            -2 <= x < 0 && 0 <= y < 48 && 0 <= z < 48 ==> #[trigger] world_block(map, (x, y, z)) == BlockId(2),
        forall|x: i32, y: i32, z: i32|
            48 <= x < 50 && 0 <= y < 48 && 0 <= z < 48 ==> #[trigger] world_block(map, (x, y, z)) == BlockId(3),
        forall|x: i32, y: i32, z: i32|
            (x < -2 || 50 <= x || y < -2 || 50 <= y || z < 0 || 50 <= z) ==> #[trigger] world_block(map, (x, y, z))
                == BlockId(0),
{
}

/// The two boxes on the floor of the Cornell box, for any store that holds it: a tall one of 14 by 28 by 14 voxels and a
/// short one of 16 by 16 by 16, both white, and air in the rest of the interior. The tall one rises above the short one.
pub proof fn law_boxes_on_the_floor(map: Map<Cell, Seq<BlockId>>)
    requires
        forall|v: Cell| #[trigger] world_block(map, v) == cornell_at(v),
    ensures
        forall|x: i32, y: i32, z: i32|
            8 <= x < 22 && 0 <= y < 28 && 20 <= z < 34 ==> #[trigger] world_block(map, (x, y, z)) == BlockId(1),
        forall|x: i32, y: i32, z: i32|
            26 <= x < 42 && 0 <= y < 16 && 6 <= z < 22 ==> #[trigger] world_block(map, (x, y, z)) == BlockId(1),
        forall|x: i32, y: i32, z: i32|
            0 <= x < 48 && 0 <= y < 48 && 0 <= z < 48 && #[trigger] world_block(map, (x, y, z)) != BlockId(0) ==> (8
                <= x < 22 && y < 28 && 20 <= z < 34) || (26 <= x < 42 && y < 16 && 6 <= z < 22),
        forall|x: i32, y: i32, z: i32|
            0 <= x < 48 && 16 <= y < 48 && 0 <= z < 48 && #[trigger] world_block(map, (x, y, z)) != BlockId(0) ==> x
                < 22 && y < 28,
{
}

} // verus!
