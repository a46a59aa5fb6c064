//! Voxel physics: the solid voxels of a brick as a small set of boxes, the boxes of a whole world, and
//! the decisions of the first-person walk.

use crate::brickmap::{
    in_brick, local_of, owner_of, voxel_at, voxel_index, world_block, Brick, BrickMap, BRICK_VOXELS,
};
use crate::cornell::{build_cornell_with_edits, cornell_at, edits_in_range};
use crate::edits::{brick_in_range, lemma_iter_finds, law_world_voxel_round_trip, resolved, VoxelEdits};
use crate::math::{Cell, IVec3};
use crate::palette::{BlockId, BlockRegistry};
use crate::scene::VoxelScene;
use vstd::prelude::*;

verus! {

/// A box of voxels, both corners included.
#[derive(Clone, Copy, Debug, PartialEq, Eq, Structural)]
pub struct VoxelBox {
    pub min: IVec3,
    pub max: IVec3,
}

impl VoxelBox {
    /// Whether the box holds the voxel `(x, y, z)`.
    pub open spec fn has(self, x: int, y: int, z: int) -> bool {
        &&& self.min.x <= x <= self.max.x
        &&& self.min.y <= y <= self.max.y
        &&& self.min.z <= z <= self.max.z
    }
}

/// Whether one of the boxes holds the voxel `(x, y, z)`.
pub open spec fn covered(boxes: Seq<VoxelBox>, x: int, y: int, z: int) -> bool {
    exists|i: int| 0 <= i < boxes.len() && (#[trigger] boxes[i]).has(x, y, z)
}

/// Whether `(x, y, z)` is a solid voxel of the brick that none of the boxes holds.
pub open spec fn free(blocks: Seq<BlockId>, boxes: Seq<VoxelBox>, x: int, y: int, z: int) -> bool {
    &&& in_brick(x, y, z)
    &&& blocks[voxel_at(x, y, z)] != BlockId::air()
    &&& !covered(boxes, x, y, z)
}

/// Whether the row of voxels from `x0` to `x1` at `(y, z)` is free.
pub open spec fn row_free(blocks: Seq<BlockId>, boxes: Seq<VoxelBox>, x0: int, x1: int, y: int, z: int) -> bool {
    forall|x: int| x0 <= x <= x1 ==> #[trigger] free(blocks, boxes, x, y, z)
}

/// Whether the slab of voxels from `(x0, y0)` to `(x1, y1)` at `z` is free.
pub open spec fn slab_free(
    blocks: Seq<BlockId>,
    boxes: Seq<VoxelBox>,
    x0: int,
    x1: int,
    y0: int,
    y1: int,
    z: int,
) -> bool {
    forall|x: int, y: int| x0 <= x <= x1 && y0 <= y <= y1 ==> #[trigger] free(blocks, boxes, x, y, z)
}

/// Whether `b` is the box that is grown next, after the boxes `taken`: it starts at the first free voxel,
/// in the voxel order of a brick; it reaches as far along x as the voxels are free, then as far along y as
/// its whole row is, then as far along z as its whole slab is.
pub open spec fn grown(blocks: Seq<BlockId>, taken: Seq<VoxelBox>, b: VoxelBox) -> bool {
    let (x0, y0, z0) = (b.min.x as int, b.min.y as int, b.min.z as int);
    let (x1, y1, z1) = (b.max.x as int, b.max.y as int, b.max.z as int);
    &&& x0 <= x1 && y0 <= y1 && z0 <= z1
    &&& forall|x: int, y: int, z: int| #[trigger]
        free(blocks, taken, x, y, z) ==> voxel_at(x0, y0, z0) <= voxel_at(x, y, z)
    &&& forall|x: int, y: int, z: int| b.has(x, y, z) ==> #[trigger] free(blocks, taken, x, y, z)
    &&& !free(blocks, taken, x1 + 1, y0, z0)
    &&& !row_free(blocks, taken, x0, x1, y1 + 1, z0)
    &&& !slab_free(blocks, taken, x0, x1, y0, y1, z1 + 1)
}

/// Whether the boxes are those that greedy growing gives: each is grown after those before it, and the
/// last leaves no voxel free.
pub open spec fn greedy(blocks: Seq<BlockId>, boxes: Seq<VoxelBox>) -> bool {
    &&& forall|i: int| 0 <= i < boxes.len() ==> grown(blocks, boxes.take(i), #[trigger] boxes[i])
    &&& forall|x: int, y: int, z: int| !#[trigger] free(blocks, boxes, x, y, z)
}

/// The boxes of greedy growing are pairwise disjoint, and together they hold exactly the solid voxels.
pub proof fn law_greedy_boxes_partition(blocks: Seq<BlockId>, boxes: Seq<VoxelBox>)
    requires
        greedy(blocks, boxes),
    ensures
        forall|x: int, y: int, z: int| #[trigger]
            covered(boxes, x, y, z) <==> in_brick(x, y, z) && blocks[voxel_at(x, y, z)] != BlockId::air(),
        forall|i: int, j: int, x: int, y: int, z: int|
            0 <= i < j < boxes.len() && #[trigger] boxes[i].has(x, y, z) ==> !#[trigger] boxes[j].has(
                x,
                y,
                z,
            ),
{
    assert forall|x: int, y: int, z: int| #[trigger] covered(boxes, x, y, z) implies in_brick(x, y, z)
        && blocks[voxel_at(x, y, z)] != BlockId::air() by {
        let i = choose|i: int| 0 <= i < boxes.len() && (#[trigger] boxes[i]).has(x, y, z);
        assert(grown(blocks, boxes.take(i), boxes[i]));
        assert(free(blocks, boxes.take(i), x, y, z));
    }
    assert forall|x: int, y: int, z: int|
        in_brick(x, y, z) && blocks[voxel_at(x, y, z)] != BlockId::air() implies #[trigger] covered(
        boxes,
        x,
        y,
        z,
    ) by {
        assert(!free(blocks, boxes, x, y, z));
    }
    assert forall|i: int, j: int, x: int, y: int, z: int|
        0 <= i < j < boxes.len() && #[trigger] boxes[i].has(x, y, z) implies !#[trigger] boxes[j].has(
        x,
        y,
        z,
    ) by {
        if boxes[j].has(x, y, z) {
            assert(grown(blocks, boxes.take(j), boxes[j]));
            assert(free(blocks, boxes.take(j), x, y, z));
            assert(boxes.take(j)[i].has(x, y, z));
        }
    }
}

/// Greedy growing gives one list of boxes.
pub proof fn law_greedy_boxes_unique(blocks: Seq<BlockId>, a: Seq<VoxelBox>, b: Seq<VoxelBox>)
    requires
        greedy(blocks, a),
        greedy(blocks, b),
    ensures
        a == b,
{
    lemma_greedy_agree(blocks, a, b, a.len());
    lemma_greedy_agree(blocks, b, a, b.len());
    assert(a.take(a.len() as int) =~= a);
    assert(b.take(b.len() as int) =~= b);
}

proof fn lemma_greedy_agree(blocks: Seq<BlockId>, a: Seq<VoxelBox>, b: Seq<VoxelBox>, n: nat)
    requires
        greedy(blocks, a),
        greedy(blocks, b),
        n <= a.len(),
    ensures
        n <= b.len(),
        a.take(n as int) == b.take(n as int),
    decreases n,
{
    if n == 0 {
        assert(a.take(0) =~= b.take(0));
    } else {
        let k: int = n - 1;
        lemma_greedy_agree(blocks, a, b, k as nat);
        let t = a.take(k);
        assert(grown(blocks, t, a[k]));
        assert(a[k].has(a[k].min.x as int, a[k].min.y as int, a[k].min.z as int));
        assert(free(blocks, t, a[k].min.x as int, a[k].min.y as int, a[k].min.z as int));
        if k >= b.len() {
            assert(b.take(k) =~= b);
            assert(false);
        }
        assert(grown(blocks, b.take(k), b[k]));
        lemma_grown_start(blocks, t, a[k], b[k]);
        lemma_grown_reach(blocks, t, a[k], b[k]);
        lemma_grown_reach(blocks, t, b[k], a[k]);
        assert(a.take(n as int) =~= t.push(a[k]));
        assert(b.take(n as int) =~= t.push(b[k]));
    }
}

/// Two boxes grown after the same boxes start at the same voxel.
proof fn lemma_grown_start(blocks: Seq<BlockId>, taken: Seq<VoxelBox>, a: VoxelBox, b: VoxelBox)
    requires
        grown(blocks, taken, a),
        grown(blocks, taken, b),
    ensures
        a.min == b.min,
{
    let (x0, y0, z0) = (a.min.x as int, a.min.y as int, a.min.z as int);
    let (x, y, z) = (b.min.x as int, b.min.y as int, b.min.z as int);
    assert(a.has(x0, y0, z0));
    assert(b.has(x, y, z));
    assert(free(blocks, taken, x0, y0, z0));
    assert(free(blocks, taken, x, y, z));
    lemma_one_place(x, y, z, x0, y0, z0);
}

/// Voxels of a brick with the same place are the same.
proof fn lemma_one_place(x: int, y: int, z: int, i: int, j: int, k: int)
    requires
        in_brick(x, y, z),
        in_brick(i, j, k),
        voxel_at(x, y, z) == voxel_at(i, j, k),
    ensures
        x == i,
        y == j,
        z == k,
{
}

/// Of two boxes grown from the same voxel after the same boxes, the second reaches no further.
proof fn lemma_grown_reach(blocks: Seq<BlockId>, taken: Seq<VoxelBox>, a: VoxelBox, b: VoxelBox)
    requires
        grown(blocks, taken, a),
        grown(blocks, taken, b),
        a.min == b.min,
    ensures
        b.max.x <= a.max.x,
        a.max.x == b.max.x ==> b.max.y <= a.max.y,
        a.max.x == b.max.x && a.max.y == b.max.y ==> b.max.z <= a.max.z,
{
    let (x0, y0, z0) = (a.min.x as int, a.min.y as int, a.min.z as int);
    let (x1, y1, z1) = (a.max.x as int, a.max.y as int, a.max.z as int);
    if x1 < b.max.x {
        assert(b.has(x1 + 1, y0, z0));
        assert(free(blocks, taken, x1 + 1, y0, z0));
    }
    if x1 == b.max.x && y1 < b.max.y {
        assert forall|x: int| x0 <= x <= x1 implies #[trigger] free(blocks, taken, x, y1 + 1, z0) by {
            assert(b.has(x, y1 + 1, z0));
        }
        assert(row_free(blocks, taken, x0, x1, y1 + 1, z0));
    }
    if x1 == b.max.x && y1 == b.max.y && z1 < b.max.z {
        assert forall|x: int, y: int| x0 <= x <= x1 && y0 <= y <= y1 implies #[trigger] free(
            blocks,
            taken,
            x,
            y,
            z1 + 1,
        ) by {
            assert(b.has(x, y, z1 + 1));
        }
        assert(slab_free(blocks, taken, x0, x1, y0, y1, z1 + 1));
    }
}

/// The boxes of a brick without air are one box, the whole brick.
pub proof fn law_full_brick_is_one_box(blocks: Seq<BlockId>, boxes: Seq<VoxelBox>)
    requires
        greedy(blocks, boxes),
        forall|i: int| 0 <= i < 512 ==> #[trigger] blocks[i] != BlockId::air(),
    ensures
        boxes == seq![
            VoxelBox { min: IVec3 { x: 0, y: 0, z: 0 }, max: IVec3 { x: 7, y: 7, z: 7 } },
        ],
{
    let whole = VoxelBox { min: IVec3 { x: 0, y: 0, z: 0 }, max: IVec3 { x: 7, y: 7, z: 7 } };
    let none = Seq::<VoxelBox>::empty();
    let one = seq![whole];
    assert(one.take(0) =~= none);
    assert forall|x: int, y: int, z: int| in_brick(x, y, z) implies #[trigger] free(blocks, none, x, y, z) by {
        assert(blocks[voxel_at(x, y, z)] != BlockId::air());
    }
    assert(!free(blocks, none, 0, 8, 0));
    assert(!free(blocks, none, 0, 0, 8));
    assert(grown(blocks, none, whole));
    assert forall|x: int, y: int, z: int| !#[trigger] free(blocks, one, x, y, z) by {
        if in_brick(x, y, z) {
            assert(one[0].has(x, y, z));
        }
    }
    law_greedy_boxes_unique(blocks, boxes, one);
}

/// The marks of the consumed voxels say which voxels the boxes hold.
spec fn marks(consumed: Seq<bool>, boxes: Seq<VoxelBox>) -> bool {
    &&& consumed.len() == 512
    &&& forall|x: int, y: int, z: int|
        in_brick(x, y, z) ==> consumed[voxel_at(x, y, z)] == #[trigger] covered(boxes, x, y, z)
}

fn is_free(brick: &Brick, consumed: &[bool; BRICK_VOXELS], boxes: &Vec<VoxelBox>, x: i32, y: i32, z: i32) -> (b: bool)
    requires
        brick.wf(),
        marks(consumed@, boxes@),
        0 <= x <= 8,
        0 <= y <= 8,
        0 <= z <= 8,
    ensures
        b == free(brick@, boxes@, x as int, y as int, z as int),
{
    if x == 8 || y == 8 || z == 8 {
        return false;
    }
    assert(consumed@[voxel_at(x as int, y as int, z as int)] == covered(boxes@, x as int, y as int, z as int));
    !consumed[voxel_index(x, y, z)] && brick.is_solid(x, y, z)
}

fn is_row_free(
    brick: &Brick,
    consumed: &[bool; BRICK_VOXELS],
    boxes: &Vec<VoxelBox>,
    x0: i32,
    x1: i32,
    y: i32,
    z: i32,
) -> (b: bool)
    requires
        brick.wf(),
        marks(consumed@, boxes@),
        0 <= x0 <= x1 < 8,
        0 <= y <= 8,
        0 <= z <= 8,
    ensures
        b == row_free(brick@, boxes@, x0 as int, x1 as int, y as int, z as int),
{
    let mut x: i32 = x0;
    while x <= x1
        invariant
            brick.wf(),
            marks(consumed@, boxes@),
            0 <= x0 <= x <= x1 + 1,
            x1 < 8,
            0 <= y <= 8,
            0 <= z <= 8,
            forall|k: int| x0 <= k < x ==> #[trigger] free(brick@, boxes@, k, y as int, z as int),
        decreases x1 + 1 - x,
    {
        if !is_free(brick, consumed, boxes, x, y, z) {
            return false;
        }
        x = x + 1;
    }
    true
}

fn is_slab_free(
    brick: &Brick,
    consumed: &[bool; BRICK_VOXELS],
    boxes: &Vec<VoxelBox>,
    lo: IVec3,
    x1: i32,
    y1: i32,
    z: i32,
) -> (b: bool)
    requires
        brick.wf(),
        marks(consumed@, boxes@),
        0 <= lo.x <= x1 < 8,
        0 <= lo.y <= y1 < 8,
        0 <= z <= 8,
    ensures
        b == slab_free(brick@, boxes@, lo.x as int, x1 as int, lo.y as int, y1 as int, z as int),
{
    let mut y: i32 = lo.y;
    while y <= y1
        invariant
            brick.wf(),
            marks(consumed@, boxes@),
            0 <= lo.x <= x1 < 8,
            0 <= lo.y <= y <= y1 + 1,
            y1 < 8,
            0 <= z <= 8,
            forall|i: int, k: int|
                lo.x <= i <= x1 && lo.y <= k < y ==> #[trigger] free(brick@, boxes@, i, k, z as int),
        decreases y1 + 1 - y,
    {
        if !is_row_free(brick, consumed, boxes, lo.x, x1, y, z) {
            proof {
                let x = choose|x: int| lo.x <= x <= x1 && !#[trigger] free(brick@, boxes@, x, y as int, z as int);
                assert(!slab_free(brick@, boxes@, lo.x as int, x1 as int, lo.y as int, y1 as int, z as int));
            }
            return false;
        }
        proof {
            assert forall|i: int, k: int| lo.x <= i <= x1 && lo.y <= k <= y implies #[trigger] free(
                brick@,
                boxes@,
                i,
                k,
                z as int,
            ) by {}
        }
        y = y + 1;
    }
    true
}

/// The box grown from the free voxel `lo`.
fn grow(brick: &Brick, consumed: &[bool; BRICK_VOXELS], boxes: &Vec<VoxelBox>, lo: IVec3) -> (b: VoxelBox)
    requires
        brick.wf(),
        marks(consumed@, boxes@),
        free(brick@, boxes@, lo.x as int, lo.y as int, lo.z as int),
        forall|x: int, y: int, z: int| #[trigger]
            free(brick@, boxes@, x, y, z) ==> voxel_at(lo.x as int, lo.y as int, lo.z as int) <= voxel_at(x, y, z),
    ensures
        b.min == lo,
        grown(brick@, boxes@, b),
{
    let mut x1: i32 = lo.x;
    while is_free(brick, consumed, boxes, x1 + 1, lo.y, lo.z)
        invariant
            brick.wf(),
            marks(consumed@, boxes@),
            in_brick(lo.x as int, lo.y as int, lo.z as int),
            lo.x <= x1 < 8,
            forall|x: int| lo.x <= x <= x1 ==> #[trigger] free(brick@, boxes@, x, lo.y as int, lo.z as int),
        ensures
            !free(brick@, boxes@, x1 + 1, lo.y as int, lo.z as int),
        decreases 8 - x1,
    {
        x1 = x1 + 1;
    }
    let mut y1: i32 = lo.y;
    while is_row_free(brick, consumed, boxes, lo.x, x1, y1 + 1, lo.z)
        invariant
            brick.wf(),
            marks(consumed@, boxes@),
            in_brick(lo.x as int, lo.y as int, lo.z as int),
            lo.x <= x1 < 8,
            lo.y <= y1 < 8,
            forall|x: int, y: int|
                lo.x <= x <= x1 && lo.y <= y <= y1 ==> #[trigger] free(brick@, boxes@, x, y, lo.z as int),
        ensures
            !row_free(brick@, boxes@, lo.x as int, x1 as int, y1 + 1, lo.z as int),
        decreases 8 - y1,
    {
        assert(free(brick@, boxes@, lo.x as int, y1 + 1, lo.z as int));
        y1 = y1 + 1;
        assert(row_free(brick@, boxes@, lo.x as int, x1 as int, y1 as int, lo.z as int));
    }
    let mut z1: i32 = lo.z;
    while is_slab_free(brick, consumed, boxes, lo, x1, y1, z1 + 1)
        invariant
            brick.wf(),
            marks(consumed@, boxes@),
            in_brick(lo.x as int, lo.y as int, lo.z as int),
            lo.x <= x1 < 8,
            lo.y <= y1 < 8,
            lo.z <= z1 < 8,
            forall|x: int, y: int, z: int|
                lo.x <= x <= x1 && lo.y <= y <= y1 && lo.z <= z <= z1 ==> #[trigger] free(
                    brick@,
                    boxes@,
                    x,
                    y,
                    z,
                ),
        ensures
            !slab_free(brick@, boxes@, lo.x as int, x1 as int, lo.y as int, y1 as int, z1 + 1),
        decreases 8 - z1,
    {
        assert(free(brick@, boxes@, lo.x as int, lo.y as int, z1 + 1));
        z1 = z1 + 1;
        assert(slab_free(brick@, boxes@, lo.x as int, x1 as int, lo.y as int, y1 as int, z1 as int));
    }
    VoxelBox { min: lo, max: IVec3 { x: x1, y: y1, z: z1 } }
}

/// Mark the voxels of a box.
fn consume(consumed: &mut [bool; BRICK_VOXELS], b: VoxelBox)
    requires
        in_brick(b.min.x as int, b.min.y as int, b.min.z as int),
        in_brick(b.max.x as int, b.max.y as int, b.max.z as int),
        b.min.x <= b.max.x,
        b.min.y <= b.max.y,
        b.min.z <= b.max.z,
    ensures
        forall|x: int, y: int, z: int|
            in_brick(x, y, z) ==> #[trigger] final(consumed)@[voxel_at(x, y, z)] == (
            old(consumed)@[voxel_at(x, y, z)] || b.has(x, y, z)),
{
    let mut z: i32 = b.min.z;
    while z <= b.max.z
        invariant
            in_brick(b.min.x as int, b.min.y as int, b.min.z as int),
            in_brick(b.max.x as int, b.max.y as int, b.max.z as int),
            b.min.x <= b.max.x,
            b.min.y <= b.max.y,
            b.min.z <= z <= b.max.z + 1,
            forall|i: int, j: int, k: int|
                in_brick(i, j, k) ==> #[trigger] consumed@[voxel_at(i, j, k)] == (old(consumed)@[voxel_at(
                    i,
                    j,
                    k,
                )] || (b.has(i, j, k) && k < z)),
        decreases b.max.z + 1 - z,
    {
        let mut y: i32 = b.min.y;
        while y <= b.max.y
            invariant
                in_brick(b.min.x as int, b.min.y as int, b.min.z as int),
                in_brick(b.max.x as int, b.max.y as int, b.max.z as int),
                b.min.x <= b.max.x,
                b.min.z <= z <= b.max.z,
                b.min.y <= y <= b.max.y + 1,
                forall|i: int, j: int, k: int|
                    in_brick(i, j, k) ==> #[trigger] consumed@[voxel_at(i, j, k)] == (
                    old(consumed)@[voxel_at(i, j, k)] || (b.has(i, j, k) && (k < z || (k == z && j < y)))),
            decreases b.max.y + 1 - y,
        {
            let mut x: i32 = b.min.x;
            while x <= b.max.x
                invariant
                    in_brick(b.min.x as int, b.min.y as int, b.min.z as int),
                    in_brick(b.max.x as int, b.max.y as int, b.max.z as int),
                    b.min.z <= z <= b.max.z,
                    b.min.y <= y <= b.max.y,
                    b.min.x <= x <= b.max.x + 1,
                    forall|i: int, j: int, k: int|
                        in_brick(i, j, k) ==> #[trigger] consumed@[voxel_at(i, j, k)] == (
                        old(consumed)@[voxel_at(i, j, k)] || (b.has(i, j, k) && (k < z || (k == z && (j < y
                            || (j == y && i < x)))))),
                decreases b.max.x + 1 - x,
            {
                consumed[voxel_index(x, y, z)] = true;
                x = x + 1;
            }
            y = y + 1;
        }
        z = z + 1;
    }
}

/// The boxes of the solid voxels of a brick, grown greedily: along x, then along y, then along z.
pub fn greedy_boxes(brick: &Brick) -> (boxes: Vec<VoxelBox>)
    requires
        brick.wf(),
    ensures
        greedy(brick@, boxes@),
{
    let mut consumed: [bool; BRICK_VOXELS] = [false;BRICK_VOXELS];
    let mut boxes: Vec<VoxelBox> = Vec::new();
    let mut i: usize = 0;
    while i < BRICK_VOXELS
        invariant
            i <= 512,
            brick.wf(),
            marks(consumed@, boxes@),
            forall|k: int| 0 <= k < boxes@.len() ==> grown(brick@, boxes@.take(k), #[trigger] boxes@[k]),
            forall|x: int, y: int, z: int| #[trigger] free(brick@, boxes@, x, y, z) ==> i <= voxel_at(x, y, z),
        decreases 512 - i,
    {
        let lo: IVec3 = IVec3 { x: (i % 8) as i32, y: ((i / 8) % 8) as i32, z: (i / 64) as i32 };
        assert(voxel_at(lo.x as int, lo.y as int, lo.z as int) == i);
        if is_free(brick, &consumed, &boxes, lo.x, lo.y, lo.z) {
            let b: VoxelBox = grow(brick, &consumed, &boxes, lo);
            let ghost before = boxes@;
            let ghost marked = consumed@;
            proof {
                assert(b.has(b.min.x as int, b.min.y as int, b.min.z as int));
                assert(b.has(b.max.x as int, b.max.y as int, b.max.z as int));
                assert(free(brick@, before, b.max.x as int, b.max.y as int, b.max.z as int));
            }
            consume(&mut consumed, b);
            boxes.push(b);
            proof {
                assert forall|x: int, y: int, z: int| #[trigger] covered(boxes@, x, y, z) == (covered(
                    before,
                    x,
                    y,
                    z,
                ) || b.has(x, y, z)) by {
                    lemma_covered_push(before, b, x, y, z);
                }
                assert forall|x: int, y: int, z: int| in_brick(x, y, z) implies consumed@[voxel_at(x, y, z)]
                    == #[trigger] covered(boxes@, x, y, z) by {
                    assert(marked[voxel_at(x, y, z)] == covered(before, x, y, z));
                }
                assert forall|k: int| 0 <= k < boxes@.len() implies grown(
                    brick@,
                    boxes@.take(k),
                    #[trigger] boxes@[k],
                ) by {
                    assert(boxes@.take(k) =~= before.take(k));
                    if k == before.len() {
                        assert(before.take(k) =~= before);
                    } else {
                        assert(grown(brick@, before.take(k), before[k]));
                    }
                }
            }
            proof {
                assert forall|x: int, y: int, z: int| #[trigger] free(brick@, boxes@, x, y, z) implies i + 1
                    <= voxel_at(x, y, z) by {
                    assert(covered(boxes@, x, y, z) == (covered(before, x, y, z) || b.has(x, y, z)));
                    assert(free(brick@, before, x, y, z));
                    if voxel_at(x, y, z) == i {
                        assert(x == lo.x && y == lo.y && z == lo.z);
                    }
                }
            }
        } else {
            proof {
                assert forall|x: int, y: int, z: int| #[trigger] free(brick@, boxes@, x, y, z) implies i + 1
                    <= voxel_at(x, y, z) by {
                    if voxel_at(x, y, z) == i {
                        assert(x == lo.x && y == lo.y && z == lo.z);
                    }
                }
            }
        }
        i = i + 1;
    }
    boxes
}

proof fn lemma_covered_push(boxes: Seq<VoxelBox>, b: VoxelBox, x: int, y: int, z: int)
    ensures
        covered(boxes.push(b), x, y, z) == (covered(boxes, x, y, z) || b.has(x, y, z)),
{
    let all = boxes.push(b);
    if covered(boxes, x, y, z) {
        let i = choose|i: int| 0 <= i < boxes.len() && (#[trigger] boxes[i]).has(x, y, z);
        assert(all[i].has(x, y, z));
    }
    if b.has(x, y, z) {
        assert(all[boxes.len() as int].has(x, y, z));
    }
    if covered(all, x, y, z) {
        let i = choose|i: int| 0 <= i < all.len() && (#[trigger] all[i]).has(x, y, z);
        if i < boxes.len() {
            assert(boxes[i].has(x, y, z));
        }
    }
}

/// A box of the brick at `c` as a box of world voxels.
pub open spec fn moved(b: VoxelBox, c: Cell) -> VoxelBox {
    VoxelBox {
        min: IVec3 {
            x: (8 * c.0 + b.min.x) as i32,
            y: (8 * c.1 + b.min.y) as i32,
            z: (8 * c.2 + b.min.z) as i32,
        },
        max: IVec3 {
            x: (8 * c.0 + b.max.x) as i32,
            y: (8 * c.1 + b.max.y) as i32,
            z: (8 * c.2 + b.max.z) as i32,
        },
    }
}

/// Those of the boxes that start in the brick at `c`, in order.
pub open spec fn boxes_in(boxes: Seq<VoxelBox>, c: Cell) -> Seq<VoxelBox> {
    boxes.filter(|b: VoxelBox| owner_of(b.min@) == c)
}

/// Whether the boxes are those of a whole store: in each stored brick they are the brick's boxes, grown
/// greedily and moved to its place, and none lies elsewhere.
pub open spec fn is_colliders(bricks: Map<Cell, Seq<BlockId>>, boxes: Seq<VoxelBox>) -> bool {
    &&& forall|c: Cell| #[trigger]
        bricks.dom().contains(c) ==> exists|list: Seq<VoxelBox>| #[trigger]
            greedy(bricks[c], list) && boxes_in(boxes, c) == list.map_values(|b: VoxelBox| moved(b, c))
    &&& forall|i: int| 0 <= i < boxes.len() ==> bricks.dom().contains(owner_of((#[trigger] boxes[i]).min@))
}

/// Whether the boxes are pairwise disjoint.
pub open spec fn disjoint(boxes: Seq<VoxelBox>) -> bool {
    forall|i: int, j: int, x: int, y: int, z: int|
        0 <= i < j < boxes.len() && #[trigger] boxes[i].has(x, y, z) ==> !#[trigger] boxes[j].has(x, y, z)
}

/// Whether a box lies in the brick at `c`.
spec fn lies_in(b: VoxelBox, c: Cell) -> bool {
    &&& 8 * c.0 <= b.min.x <= b.max.x < 8 * c.0 + 8
    &&& 8 * c.1 <= b.min.y <= b.max.y < 8 * c.1 + 8
    &&& 8 * c.2 <= b.min.z <= b.max.z < 8 * c.2 + 8
}

proof fn lemma_moved(blocks: Seq<BlockId>, list: Seq<VoxelBox>, c: Cell, k: int)
    requires
        greedy(blocks, list),
        brick_in_range(c),
        0 <= k < list.len(),
    ensures
        lies_in(moved(list[k], c), c),
        in_brick(list[k].min.x as int, list[k].min.y as int, list[k].min.z as int),
        in_brick(list[k].max.x as int, list[k].max.y as int, list[k].max.z as int),
        owner_of(moved(list[k], c).min@) == c,
        forall|x: int, y: int, z: int| #[trigger]
            moved(list[k], c).has(x, y, z) == list[k].has(x - 8 * c.0, y - 8 * c.1, z - 8 * c.2),
{
    let b = list[k];
    assert(grown(blocks, list.take(k), b));
    assert(b.has(b.min.x as int, b.min.y as int, b.min.z as int));
    assert(b.has(b.max.x as int, b.max.y as int, b.max.z as int));
    assert(free(blocks, list.take(k), b.min.x as int, b.min.y as int, b.min.z as int));
    assert(free(blocks, list.take(k), b.max.x as int, b.max.y as int, b.max.z as int));
}

proof fn lemma_filter_all(s: Seq<VoxelBox>, p: spec_fn(VoxelBox) -> bool)
    requires
        forall|i: int| 0 <= i < s.len() ==> p(#[trigger] s[i]),
    ensures
        s.filter(p) == s,
    decreases s.len(),
{
    reveal(Seq::filter);
    if s.len() > 0 {
        lemma_filter_all(s.drop_last(), p);
        assert(s.drop_last().push(s.last()) =~= s);
    }
}

proof fn lemma_filter_none(s: Seq<VoxelBox>, p: spec_fn(VoxelBox) -> bool)
    requires
        forall|i: int| 0 <= i < s.len() ==> !p(#[trigger] s[i]),
    ensures
        s.filter(p) == Seq::<VoxelBox>::empty(),
    decreases s.len(),
{
    reveal(Seq::filter);
    if s.len() > 0 {
        lemma_filter_none(s.drop_last(), p);
    }
}

/// The boxes of the brick at `c`, moved to its place in the world.
fn brick_colliders(c: IVec3, brick: &Brick, boxes: &Vec<VoxelBox>) -> (out: Vec<VoxelBox>)
    requires
        brick_in_range(c@),
        greedy(brick@, boxes@),
    ensures
        out@ == boxes@.map_values(|b: VoxelBox| moved(b, c@)),
{
    let mut out: Vec<VoxelBox> = Vec::new();
    let mut i: usize = 0;
    while i < boxes.len()
        invariant
            i <= boxes@.len(),
            brick_in_range(c@),
            greedy(brick@, boxes@),
            out@.len() == i,
            forall|k: int| 0 <= k < i ==> #[trigger] out@[k] == moved(boxes@[k], c@),
        decreases boxes@.len() - i,
    {
        let b: VoxelBox = boxes[i];
        proof {
            lemma_moved(brick@, boxes@, c@, i as int);
        }
        let m: VoxelBox = VoxelBox {
            min: IVec3 { x: c.x * 8 + b.min.x, y: c.y * 8 + b.min.y, z: c.z * 8 + b.min.z },
            max: IVec3 { x: c.x * 8 + b.max.x, y: c.y * 8 + b.max.y, z: c.z * 8 + b.max.z },
        };
        out.push(m);
        i = i + 1;
    }
    assert(out@ =~= boxes@.map_values(|b: VoxelBox| moved(b, c@)));
    out
}

/// The boxes of all solid voxels of a store, in world voxels. The order in which the bricks follow one
/// another is left open.
pub fn collider_boxes(map: &BrickMap) -> (out: Vec<VoxelBox>)
    requires
        map.wf(),
        forall|c: Cell| #[trigger] map@.dom().contains(c) ==> brick_in_range(c),
    ensures
        is_colliders(map@, out@),
        disjoint(out@),
        forall|v: Cell| #[trigger]
            covered(out@, v.0 as int, v.1 as int, v.2 as int) <==> world_block(map@, v) != BlockId::air(),
{
    let list: Vec<(IVec3, &Brick)> = map.iter();
    let mut out: Vec<VoxelBox> = Vec::new();
    let mut i: usize = 0;
    while i < list.len()
        invariant
            i <= list@.len(),
            map.wf(),
            forall|c: Cell| #[trigger] map@.dom().contains(c) ==> brick_in_range(c),
            forall|k: int|
                0 <= k < list@.len() ==> (#[trigger] list@[k]).1.wf() && map@.dom().contains(list@[k].0@)
                    && list@[k].1@ == map@[list@[k].0@],
            forall|a: int, b: int|
                0 <= a < b < list@.len() ==> (#[trigger] list@[a]).0@ != (#[trigger] list@[b]).0@,
            forall|k: int| 0 <= k < i ==> placed(map@, out@, (#[trigger] list@[k]).0@),
            forall|k: int|
                0 <= k < out@.len() ==> map@.dom().contains(owner_of((#[trigger] out@[k]).min@)) && lies_in(
                    out@[k],
                    owner_of(out@[k].min@),
                ),
            forall|k: int|
                i <= k < list@.len() ==> boxes_in(out@, (#[trigger] list@[k]).0@) == Seq::<VoxelBox>::empty(),
            disjoint(out@),
        decreases list@.len() - i,
    {
        let c: IVec3 = list[i].0;
        let brick: &Brick = list[i].1;
        let boxes: Vec<VoxelBox> = greedy_boxes(brick);
        let mut more: Vec<VoxelBox> = brick_colliders(c, brick, &boxes);
        let ghost before = out@;
        let ghost added = more@;
        out.append(&mut more);
        proof {
            assert(out@ =~= before + added);
            lemma_place_brick(map@, before, boxes@, c@);
            assert forall|k: int| 0 <= k <= i implies placed(map@, out@, (#[trigger] list@[k]).0@) by {
                let d = list@[k].0@;
                if k < i {
                    assert(d != c@);
                    assert(placed(map@, before, d));
                    lemma_other_brick(map@, before, boxes@, c@, d);
                    let old_list = choose|l: Seq<VoxelBox>| #[trigger]
                        greedy(map@[d], l) && boxes_in(before, d) == l.map_values(|b: VoxelBox| moved(b, d));
                    assert(greedy(map@[d], old_list));
                }
            }
            assert forall|k: int| i < k < list@.len() implies boxes_in(out@, (#[trigger] list@[k]).0@)
                == Seq::<VoxelBox>::empty() by {
                assert(list@[i as int].0@ != list@[k].0@);
                lemma_other_brick(map@, before, boxes@, c@, list@[k].0@);
            }
        }
        i = i + 1;
    }
    proof {
        map.lemma_view();
        assert forall|c: Cell| #[trigger] map@.dom().contains(c) implies placed(map@, out@, c) by {
            lemma_iter_finds(map@, list@, c);
            let j = choose|j: int| 0 <= j < list@.len() && (#[trigger] list@[j]).0@ == c;
            assert(placed(map@, out@, list@[j].0@));
        }
        assert forall|v: Cell| #[trigger]
            covered(out@, v.0 as int, v.1 as int, v.2 as int) <==> world_block(map@, v) != BlockId::air() by {
            lemma_world_covered(map@, out@, v);
        }
    }
    out
}

/// Whether the boxes that start in the brick at `c` are the brick's.
spec fn placed(bricks: Map<Cell, Seq<BlockId>>, boxes: Seq<VoxelBox>, c: Cell) -> bool {
    exists|list: Seq<VoxelBox>| #[trigger]
        greedy(bricks[c], list) && boxes_in(boxes, c) == list.map_values(|b: VoxelBox| moved(b, c))
}

/// The boxes of a further brick follow those of others: they are in place and meet no other.
proof fn lemma_place_brick(bricks: Map<Cell, Seq<BlockId>>, before: Seq<VoxelBox>, list: Seq<VoxelBox>, c: Cell)
    requires
        brick_in_range(c),
        bricks.dom().contains(c),
        greedy(bricks[c], list),
        boxes_in(before, c) == Seq::<VoxelBox>::empty(),
        disjoint(before),
        forall|k: int|
            0 <= k < before.len() ==> bricks.dom().contains(owner_of((#[trigger] before[k]).min@)) && lies_in(
                before[k],
                owner_of(before[k].min@),
            ),
    ensures
        ({
            let all = before + list.map_values(|b: VoxelBox| moved(b, c));
            &&& placed(bricks, all, c)
            &&& disjoint(all)
            &&& forall|k: int|
                0 <= k < all.len() ==> bricks.dom().contains(owner_of((#[trigger] all[k]).min@)) && lies_in(
                    all[k],
                    owner_of(all[k].min@),
                )
        }),
{
    let added = list.map_values(|b: VoxelBox| moved(b, c));
    let all = before + added;
    let p = |b: VoxelBox| owner_of(b.min@) == c;
    assert forall|i: int| 0 <= i < added.len() implies p(#[trigger] added[i]) && lies_in(added[i], c) by {
        lemma_moved(bricks[c], list, c, i);
    }
    lemma_filter_all(added, p);
    Seq::filter_distributes_over_add(before, added, p);
    assert(all.filter(p) =~= added);
    assert(greedy(bricks[c], list));
    assert forall|i: int| 0 <= i < before.len() implies owner_of((#[trigger] before[i]).min@) != c by {
        if p(before[i]) {
            before.lemma_filter_contains(p, i);
            assert(before.filter(p).contains(before[i]));
        }
    }
    law_greedy_boxes_partition(bricks[c], list);
    assert forall|i: int, j: int, x: int, y: int, z: int|
        0 <= i < j < all.len() && #[trigger] all[i].has(x, y, z) implies !#[trigger] all[j].has(x, y, z) by {
        if j < before.len() {
            assert(before[i].has(x, y, z));
            assert(!before[j].has(x, y, z));
        } else if i >= before.len() {
            let (a, b) = (i - before.len(), j - before.len());
            lemma_moved(bricks[c], list, c, a);
            lemma_moved(bricks[c], list, c, b);
            assert(all[i] == moved(list[a], c));
            assert(all[j] == moved(list[b], c));
            assert(list[a].has(x - 8 * c.0, y - 8 * c.1, z - 8 * c.2));
        } else {
            assert(all[i] == before[i]);
            assert(all[j] == added[j - before.len()]);
            assert(lies_in(before[i], owner_of(before[i].min@)));
            assert(lies_in(added[j - before.len()], c));
        }
    }
    assert forall|k: int| 0 <= k < all.len() implies bricks.dom().contains(owner_of((#[trigger] all[k]).min@))
        && lies_in(all[k], owner_of(all[k].min@)) by {
        if k < before.len() {
            assert(all[k] == before[k]);
        } else {
            assert(all[k] == added[k - before.len()]);
        }
    }
}

/// The boxes of a further brick leave those of another as they are.
proof fn lemma_other_brick(
    bricks: Map<Cell, Seq<BlockId>>,
    before: Seq<VoxelBox>,
    list: Seq<VoxelBox>,
    c: Cell,
    d: Cell,
)
    requires
        brick_in_range(c),
        greedy(bricks[c], list),
        c != d,
    ensures
        boxes_in(before + list.map_values(|b: VoxelBox| moved(b, c)), d) == boxes_in(before, d),
{
    let added = list.map_values(|b: VoxelBox| moved(b, c));
    let p = |b: VoxelBox| owner_of(b.min@) == d;
    assert forall|i: int| 0 <= i < added.len() implies !p(#[trigger] added[i]) by {
        lemma_moved(bricks[c], list, c, i);
    }
    lemma_filter_none(added, p);
    Seq::filter_distributes_over_add(before, added, p);
    assert(before.filter(p) + added.filter(p) =~= before.filter(p));
}

/// The boxes of all bricks hold exactly the solid world voxels.
proof fn lemma_world_covered(bricks: Map<Cell, Seq<BlockId>>, boxes: Seq<VoxelBox>, v: Cell)
    requires
        forall|c: Cell| #[trigger] bricks.dom().contains(c) ==> brick_in_range(c) && placed(bricks, boxes, c),
        forall|k: int|
            0 <= k < boxes.len() ==> bricks.dom().contains(owner_of((#[trigger] boxes[k]).min@)) && lies_in(
                boxes[k],
                owner_of(boxes[k].min@),
            ),
    ensures
        covered(boxes, v.0 as int, v.1 as int, v.2 as int) <==> world_block(bricks, v) != BlockId::air(),
{
    let c = owner_of(v);
    let p = |b: VoxelBox| owner_of(b.min@) == c;
    let (x, y, z) = (v.0 as int, v.1 as int, v.2 as int);
    let (lx, ly, lz) = (x - 8 * c.0, y - 8 * c.1, z - 8 * c.2);
    law_world_voxel_round_trip(v);
    if bricks.dom().contains(c) {
        assert(placed(bricks, boxes, c));
        let list = choose|list: Seq<VoxelBox>| #[trigger]
            greedy(bricks[c], list) && boxes_in(boxes, c) == list.map_values(|b: VoxelBox| moved(b, c));
        law_greedy_boxes_partition(bricks[c], list);
        let inside = boxes_in(boxes, c);
        assert(local_of(v) == voxel_at(lx, ly, lz));
        assert(in_brick(lx, ly, lz));
        if world_block(bricks, v) != BlockId::air() {
            assert(covered(list, lx, ly, lz));
            let k = choose|k: int| 0 <= k < list.len() && (#[trigger] list[k]).has(lx, ly, lz);
            lemma_moved(bricks[c], list, c, k);
            assert(inside[k] == moved(list[k], c));
            assert(boxes.filter(p).contains(inside[k]));
            boxes.lemma_filter_contains_rev(p, inside[k]);
            let i = choose|i: int| 0 <= i < boxes.len() && boxes[i] == inside[k];
            assert(boxes[i].has(x, y, z));
        }
        if covered(boxes, x, y, z) {
            let i = choose|i: int| 0 <= i < boxes.len() && (#[trigger] boxes[i]).has(x, y, z);
            assert(owner_of(boxes[i].min@) == c);
            boxes.lemma_filter_contains(p, i);
            assert(inside.contains(boxes[i]));
            let k = choose|k: int| 0 <= k < inside.len() && inside[k] == boxes[i];
            lemma_moved(bricks[c], list, c, k);
            assert(inside[k] == moved(list[k], c));
            assert(list[k].has(lx, ly, lz));
            assert(covered(list, lx, ly, lz));
        }
    } else {
        if covered(boxes, x, y, z) {
            let i = choose|i: int| 0 <= i < boxes.len() && (#[trigger] boxes[i]).has(x, y, z);
            assert(owner_of(boxes[i].min@) == c);
        }
    }
}

/// What the walk key does.
#[derive(Clone, Copy, Debug, PartialEq, Eq, Structural)]
pub enum WalkToggle {
    /// The key was not pressed: nothing.
    Idle,
    /// Leave the walk.
    Leave,
    /// The scene has no physics: nothing.
    Refuse,
    /// Enter the walk.
    Enter,
}

/// What the walk key is to do.
pub open spec fn walk_toggle(pressed: bool, walking: bool, scene: VoxelScene) -> WalkToggle {
    if !pressed {
        WalkToggle::Idle
    } else if walking {
        WalkToggle::Leave
    } else if scene != VoxelScene::Cornell {
        WalkToggle::Refuse
    } else {
        WalkToggle::Enter
    }
}

/// What the walk key does: it leaves the walk, or enters it in the one scene that has physics.
pub fn toggle_walk_mode(pressed: bool, walking: bool, scene: VoxelScene) -> (t: WalkToggle)
    ensures
        t == walk_toggle(pressed, walking, scene),
{
    if !pressed {
        WalkToggle::Idle
    } else if walking {
        WalkToggle::Leave
    } else if !scene.is_cornell() {
        WalkToggle::Refuse
    } else {
        WalkToggle::Enter
    }
}

/// Whether the colliders have to be built again: only on a walk through the Cornell box, and only where
/// they were built for another scene or another state of the edits.
pub open spec fn colliders_stale(
    walking: bool,
    scene: VoxelScene,
    generation: u64,
    built_for: Option<(VoxelScene, u64)>,
) -> bool {
    walking && scene == VoxelScene::Cornell && built_for != Some((scene, generation))
}

/// Whether the bricks hold the Cornell box with the overrides laid over it.
pub open spec fn is_edited_cornell(bricks: Map<Cell, Seq<BlockId>>, edits: Map<Cell, BlockId>) -> bool {
    forall|v: Cell| #[trigger] world_block(bricks, v) == resolved(edits, v, cornell_at(v))
}

/// The boxes that the walk collides with, and the state they are built for, where they have to be built
/// again.
pub fn rebuild_walk_colliders(
    walking: bool,
    scene: VoxelScene,
    edits: &VoxelEdits,
    built_for: Option<(VoxelScene, u64)>,
) -> (r: Option<(Vec<VoxelBox>, (VoxelScene, u64))>)
    requires
        edits.wf(),
        edits_in_range(edits@),
    ensures
        r is Some == colliders_stale(walking, scene, edits.count(), built_for),
        r matches Some((boxes, stamp)) ==> stamp == (scene, edits.count()) && disjoint(boxes@) && (
        forall|v: Cell| #[trigger]
            covered(boxes@, v.0 as int, v.1 as int, v.2 as int) <==> resolved(edits@, v, cornell_at(v))
                != BlockId::air()),
        r matches Some((boxes, _)) ==> exists|bricks: Map<Cell, Seq<BlockId>>| #[trigger]
            is_edited_cornell(bricks, edits@) && is_colliders(bricks, boxes@),
{
    if !walking || !scene.is_cornell() {
        return None;
    }
    let generation: u64 = edits.generation();
    if let Some((s, g)) = built_for {
        if s == scene && g == generation {
            return None;
        }
    }
    let map: BrickMap = build_cornell_with_edits(&BlockRegistry::cornell(), edits);
    let boxes: Vec<VoxelBox> = collider_boxes(&map);
    proof {
        assert forall|v: Cell| #[trigger]
            covered(boxes@, v.0 as int, v.1 as int, v.2 as int) <==> resolved(edits@, v, cornell_at(v))
                != BlockId::air() by {
            assert(world_block(map@, v) == resolved(edits@, v, cornell_at(v)));
        }
        assert(is_edited_cornell(map@, edits@) && is_colliders(map@, boxes@));
    }
    Some((boxes, (scene, generation)))
}

/// What happens to the walker's vertical speed before gravity acts on it.
#[derive(Clone, Copy, Debug, PartialEq, Eq, Structural)]
pub enum VerticalStep {
    /// It is set to the speed of a jump.
    Jump,
    /// It is set to zero.
    Rest,
    /// It stays.
    Keep,
}

/// What becomes of a walker's speed up or down.
pub open spec fn fall_step(jump_pressed: bool, grounded: bool, falling: bool) -> VerticalStep {
    if jump_pressed && grounded {
        VerticalStep::Jump
    } else if grounded && falling {
        VerticalStep::Rest
    } else {
        VerticalStep::Keep
    }
}

/// A walker on the ground jumps where the jump key was pressed, and stops falling where it was not.
pub fn vertical_step(jump_pressed: bool, grounded: bool, falling: bool) -> (s: VerticalStep)
    ensures
        s == fall_step(jump_pressed, grounded, falling),
{
    if jump_pressed && grounded {
        VerticalStep::Jump
    } else if grounded && falling {
        VerticalStep::Rest
    } else {
        VerticalStep::Keep
    }
}

/// What a pair of opposite keys says.
pub open spec fn key_pair(ahead: bool, back: bool) -> int {
    (if ahead { 1int } else { 0 }) - (if back { 1int } else { 0 })
}

/// How far the walker is to go forward and to the right, each in `-1..=1`: opposite keys cancel.
pub fn walk_axes(forward: bool, back: bool, right: bool, left: bool) -> (r: (i32, i32))
    ensures
        r.0 == key_pair(forward, back),
        r.1 == key_pair(right, left),
{
    let mut along: i32 = 0;
    if forward {
        along = along + 1;
    }
    if back {
        along = along - 1;
    }
    let mut across: i32 = 0;
    if right {
        across = across + 1;
    }
    if left {
        across = across - 1;
    }
    (along, across)
}

/// The walk key acts when it was pressed, and only then. On a walk it ends it, whatever the scene; off it, it begins one
/// in the Cornell box and nowhere else.
pub proof fn law_walk_key(pressed: bool, walking: bool, scene: VoxelScene)
    ensures
        walk_toggle(pressed, walking, scene) is Idle <==> !pressed,
        walk_toggle(pressed, walking, scene) is Leave <==> pressed && walking,
        walk_toggle(pressed, walking, scene) is Enter <==> pressed && !walking && scene is Cornell,
        walk_toggle(pressed, walking, scene) is Refuse <==> pressed && !walking && scene !is Cornell,
{
}

/// Only on the ground does the speed of a walker change: it jumps where the jump key was pressed, falling or not, and
/// otherwise a fall ends.
pub proof fn law_jumps_and_falls(jump_pressed: bool, grounded: bool, falling: bool)
    ensures
        fall_step(jump_pressed, grounded, falling) is Jump <==> jump_pressed && grounded,
        fall_step(jump_pressed, grounded, falling) is Rest <==> !jump_pressed && grounded && falling,
        fall_step(jump_pressed, grounded, falling) is Keep <==> !grounded || (!jump_pressed && !falling),
{
}

/// A key alone moves the walker one way and its opposite the other; together, or neither, they do not.
pub proof fn law_opposite_keys_cancel(ahead: bool, back: bool)
    ensures
        key_pair(ahead, back) == -key_pair(back, ahead),
        key_pair(ahead, back) == 1 <==> ahead && !back,
        key_pair(ahead, back) == 0 <==> ahead == back,
        key_pair(ahead, back) == -1 <==> !ahead && back,
{
}

/// Colliders are built again on a walk through the Cornell box only, and there just where none were built yet, or for
/// another scene, or before the last edit.
pub proof fn law_when_colliders_are_built(walking: bool, scene: VoxelScene, generation: u64, s: VoxelScene, g: u64)
    ensures
        colliders_stale(walking, scene, generation, None) <==> walking && scene is Cornell,
        colliders_stale(walking, scene, generation, Some((s, g))) <==> walking && scene is Cornell && (s !is Cornell || g
            != generation),
{
}

/// Each collider of a brick begins at the first solid voxel that no collider before it has, x fastest, then y, then z. It
/// is as long on x as such voxels go on; then as long on y as whole rows of that length go on; then as long on z as whole
/// slabs do.
pub proof fn law_boxes_grow_as_far_as_they_can(blocks: Seq<BlockId>, boxes: Seq<VoxelBox>, i: int)
    requires
        greedy(blocks, boxes),
        0 <= i < boxes.len(),
    ensures
        ({
            let b = boxes[i];
            let open = |x: int, y: int, z: int|
                0 <= x < 8 && 0 <= y < 8 && 0 <= z < 8 && blocks[x + 8 * y + 64 * z].0 != 0 && forall|k: int|
                    0 <= k < i ==> !(#[trigger] boxes[k]).has(x, y, z);
            &&& forall|x: int, y: int, z: int|
                b.min.x <= x <= b.max.x && b.min.y <= y <= b.max.y && b.min.z <= z <= b.max.z ==> #[trigger] open(x, y, z)
            &&& forall|x: int, y: int, z: int| #[trigger]
                open(x, y, z) ==> b.min.x + 8 * b.min.y + 64 * b.min.z <= x + 8 * y + 64 * z
            &&& !open(b.max.x + 1, b.min.y as int, b.min.z as int)
            &&& exists|x: int| b.min.x <= x <= b.max.x && !#[trigger] open(x, b.max.y + 1, b.min.z as int)
            &&& exists|x: int, y: int|
                b.min.x <= x <= b.max.x && b.min.y <= y <= b.max.y && !#[trigger] open(x, y, b.max.z + 1)
        }),
{
    let b = boxes[i];
    let taken = boxes.take(i);
    let open = |x: int, y: int, z: int|
        0 <= x < 8 && 0 <= y < 8 && 0 <= z < 8 && blocks[x + 8 * y + 64 * z].0 != 0 && forall|k: int|
            0 <= k < i ==> !(#[trigger] boxes[k]).has(x, y, z);
    assert(grown(blocks, taken, b));
    assert forall|x: int, y: int, z: int| #[trigger] open(x, y, z) == free(blocks, taken, x, y, z) by {
        assert(x + y * 8 + z * 64 == x + 8 * y + 64 * z);
        if in_brick(x, y, z) {
            assert(blocks[voxel_at(x, y, z)] != BlockId::air() <==> blocks[x + 8 * y + 64 * z].0 != 0);
        }
        if covered(taken, x, y, z) {
            let k = choose|k: int| 0 <= k < taken.len() && (#[trigger] taken[k]).has(x, y, z);
            assert(boxes[k].has(x, y, z));
        } else {
            assert forall|k: int| 0 <= k < i implies !(#[trigger] boxes[k]).has(x, y, z) by {
                assert(taken[k] == boxes[k]);
            }
        }
    }
    assert forall|x: int, y: int, z: int|
        b.min.x <= x <= b.max.x && b.min.y <= y <= b.max.y && b.min.z <= z <= b.max.z implies #[trigger] open(x, y, z) by {
        assert(b.has(x, y, z));
        assert(free(blocks, taken, x, y, z));
    }
    let (x0, y0, z0) = (b.min.x as int, b.min.y as int, b.min.z as int);
    let (x1, y1, z1) = (b.max.x as int, b.max.y as int, b.max.z as int);
    assert forall|x: int, y: int, z: int| #[trigger] open(x, y, z) implies x0 + 8 * y0 + 64 * z0 <= x + 8 * y + 64 * z by {
        assert(free(blocks, taken, x, y, z));
    }
    assert(!free(blocks, taken, x1 + 1, y0, z0));
    assert(!open(x1 + 1, y0, z0));
    let x = choose|x: int| x0 <= x <= x1 && !#[trigger] free(blocks, taken, x, y1 + 1, z0);
    assert(!open(x, y1 + 1, z0));
    let (u, w) = choose|u: int, w: int| x0 <= u <= x1 && y0 <= w <= y1 && !#[trigger] free(blocks, taken, u, w, z1 + 1);
    assert(!open(u, w, z1 + 1));
}

/// No voxel is in two colliders.
pub proof fn law_colliders_are_apart(boxes: Seq<VoxelBox>, i: int, j: int, v: Cell)
    requires
        disjoint(boxes),
        0 <= i < boxes.len(),
        0 <= j < boxes.len(),
        boxes[i].min.x <= v.0 <= boxes[i].max.x,
        boxes[i].min.y <= v.1 <= boxes[i].max.y,
        boxes[i].min.z <= v.2 <= boxes[i].max.z,
        boxes[j].min.x <= v.0 <= boxes[j].max.x,
        boxes[j].min.y <= v.1 <= boxes[j].max.y,
        boxes[j].min.z <= v.2 <= boxes[j].max.z,
    ensures
        i == j,
{
    assert(boxes[i].has(v.0 as int, v.1 as int, v.2 as int));
    assert(boxes[j].has(v.0 as int, v.1 as int, v.2 as int));
}

/// A voxel is covered just where one of the boxes spans it on all three axes.
pub proof fn law_covered_voxels(boxes: Seq<VoxelBox>, x: int, y: int, z: int)
    ensures
        covered(boxes, x, y, z) <==> exists|i: int|
            0 <= i < boxes.len() && (#[trigger] boxes[i]).min.x <= x <= boxes[i].max.x && boxes[i].min.y <= y
                <= boxes[i].max.y && boxes[i].min.z <= z <= boxes[i].max.z,
{
    if covered(boxes, x, y, z) {
        let i = choose|i: int| 0 <= i < boxes.len() && (#[trigger] boxes[i]).has(x, y, z);
        assert(boxes[i].min.x <= x);
    }
    if exists|i: int|
        0 <= i < boxes.len() && (#[trigger] boxes[i]).min.x <= x <= boxes[i].max.x && boxes[i].min.y <= y <= boxes[i].max.y
            && boxes[i].min.z <= z <= boxes[i].max.z {
        let i = choose|i: int|
            0 <= i < boxes.len() && (#[trigger] boxes[i]).min.x <= x <= boxes[i].max.x && boxes[i].min.y <= y
                <= boxes[i].max.y && boxes[i].min.z <= z <= boxes[i].max.z;
        assert(boxes[i].has(x, y, z));
    }
}

/// The colliders of a brick in the world are those of the brick, in their order, moved by eight voxels for each step of its
/// coordinate.
pub proof fn law_colliders_of_a_brick(bricks: Map<Cell, Seq<BlockId>>, boxes: Seq<VoxelBox>, c: Cell)
    requires
        is_colliders(bricks, boxes),
        bricks.dom().contains(c),
        brick_in_range(c),
    ensures
        exists|list: Seq<VoxelBox>| #[trigger]
            greedy(bricks[c], list) && list.len() == boxes_in(boxes, c).len() && forall|i: int|
                0 <= i < list.len() && 0 <= (#[trigger] list[i]).min.x <= list[i].max.x < 8 && 0 <= list[i].min.y
                    <= list[i].max.y < 8 && 0 <= list[i].min.z <= list[i].max.z < 8 ==> {
                    let b = boxes_in(boxes, c)[i];
                    &&& b.min.x == 8 * c.0 + list[i].min.x && b.max.x == 8 * c.0 + list[i].max.x
                    &&& b.min.y == 8 * c.1 + list[i].min.y && b.max.y == 8 * c.1 + list[i].max.y
                    &&& b.min.z == 8 * c.2 + list[i].min.z && b.max.z == 8 * c.2 + list[i].max.z
                },
{
    let list = choose|list: Seq<VoxelBox>| #[trigger]
        greedy(bricks[c], list) && boxes_in(boxes, c) == list.map_values(|b: VoxelBox| moved(b, c));
    assert(greedy(bricks[c], list));
}

/// The world that is walked through is the Cornell box with what was placed and dug.
pub proof fn law_walked_world(bricks: Map<Cell, Seq<BlockId>>, edits: Map<Cell, BlockId>, v: Cell)
    requires
        is_edited_cornell(bricks, edits),
    ensures
        edits.dom().contains(v) ==> world_block(bricks, v) == edits[v],
        !edits.dom().contains(v) ==> world_block(bricks, v) == cornell_at(v),
{
    assert(world_block(bricks, v) == resolved(edits, v, cornell_at(v)));
}

} // verus!
