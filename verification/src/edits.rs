//! Voxel edits: a sparse layer of overrides over the voxels of a scene, and the voxel pick.
//!
//! An override is keyed by world voxel. A solid block was placed there; air was dug there; without an
//! override the scene's own voxel shows. What is rendered, what is packed anew and what is picked all go
//! by the same rule.

use crate::brickmap::{
    all_are, brick_coord_of_voxel, local_of, owner_of, voxel_at, world_block, Brick, BrickMap, BRICK_EDGE,
    BRICK_VOXELS,
};
use crate::fxmap::{fx_contains, fx_get, fx_insert, fx_keys, fx_len, fx_new, fx_remove};
use crate::math::{Cell, IVec3};
use crate::palette::BlockId;
use rustc_hash::FxHashMap;
use vstd::prelude::*;

verus! {

/// The overrides over a scene's voxels.
#[derive(Clone, Debug, Default)]
pub struct VoxelEdits {
    overrides: FxHashMap<Cell, BlockId>,
    /// Counts the changes.
    generation: u64,
}

impl View for VoxelEdits {
    type V = Map<Cell, BlockId>;

    closed spec fn view(&self) -> Map<Cell, BlockId> {
        self.overrides@
    }
}

/// The block at world voxel `v`: the override, or `base` where there is none.
pub open spec fn resolved(edits: Map<Cell, BlockId>, v: Cell, base: BlockId) -> BlockId {
    if edits.dom().contains(v) {
        edits[v]
    } else {
        base
    }
}

/// The overrides after a block was placed.
pub open spec fn with_block(edits: Map<Cell, BlockId>, v: Cell, block: BlockId) -> Map<Cell, BlockId> {
    edits.insert(v, block)
}

/// The overrides after a voxel was dug out.
pub open spec fn dug_out(edits: Map<Cell, BlockId>, v: Cell) -> Map<Cell, BlockId> {
    edits.insert(v, BlockId::air())
}

/// The overrides after one was taken back.
pub open spec fn taken_back(edits: Map<Cell, BlockId>, v: Cell) -> Map<Cell, BlockId> {
    edits.remove(v)
}

/// The next value of a counter that wraps.
pub open spec fn bumped(n: u64) -> u64 {
    if n == u64::MAX {
        0
    } else {
        (n + 1) as u64
    }
}

impl VoxelEdits {
    /// The number of overrides is finite.
    pub closed spec fn wf(&self) -> bool {
        self.overrides@.dom().finite()
    }

    /// How often the overrides were changed.
    pub closed spec fn count(&self) -> u64 {
        self.generation
    }

    /// No overrides.
    pub fn new() -> (e: VoxelEdits)
        ensures
            e.wf(),
            e@ == Map::<Cell, BlockId>::empty(),
            e.count() == 0,
    {
        VoxelEdits { overrides: fx_new(), generation: 0 }
    }

    /// True iff there are no overrides.
    pub fn is_empty(&self) -> (b: bool)
        requires
            self.wf(),
        ensures
            b == (self@ == Map::<Cell, BlockId>::empty()),
    {
        let n: usize = fx_len(&self.overrides);
        proof {
            if n == 0 {
                assert(self@.dom() =~= Set::empty());
                assert(self@ =~= Map::<Cell, BlockId>::empty());
            }
        }
        n == 0
    }

    /// The number of overridden voxels.
    pub fn len(&self) -> (n: usize)
        ensures
            n == self@.dom().len(),
    {
        fx_len(&self.overrides)
    }

    /// A counter that changes with every change of the overrides.
    pub fn generation(&self) -> (n: u64)
        ensures
            n == self.count(),
    {
        self.generation
    }

    /// The override at `world_voxel`, or `None` where the scene shows.
    pub fn get(&self, world_voxel: IVec3) -> (r: Option<BlockId>)
        ensures
            r == (if self@.dom().contains(world_voxel@) { Some(self@[world_voxel@]) } else { None }),
    {
        match fx_get(&self.overrides, world_voxel.cell()) {
            Some(b) => Some(*b),
            None => None,
        }
    }

    /// The block at `world_voxel`: the override, or `base`.
    pub fn resolve(&self, world_voxel: IVec3, base: BlockId) -> (b: BlockId)
        ensures
            b == resolved(self@, world_voxel@, base),
    {
        match fx_get(&self.overrides, world_voxel.cell()) {
            Some(b) => *b,
            None => base,
        }
    }

    /// Place a block at `world_voxel`.
    pub fn place(&mut self, world_voxel: IVec3, block: BlockId)
        requires
            old(self).wf(),
        ensures
            final(self).wf(),
            final(self)@ == with_block(old(self)@, world_voxel@, block),
            final(self).count() == bumped(old(self).count()),
    {
        fx_insert(&mut self.overrides, world_voxel.cell(), block);
        self.bump();
    }

    /// Dig out the voxel at `world_voxel`.
    pub fn remove(&mut self, world_voxel: IVec3)
        requires
            old(self).wf(),
        ensures
            final(self).wf(),
            final(self)@ == dug_out(old(self)@, world_voxel@),
            final(self).count() == bumped(old(self).count()),
    {
        fx_insert(&mut self.overrides, world_voxel.cell(), BlockId::air());
        self.bump();
    }

    /// Take back the override at `world_voxel`, if there is one.
    pub fn clear(&mut self, world_voxel: IVec3)
        requires
            old(self).wf(),
        ensures
            final(self).wf(),
            final(self)@ == taken_back(old(self)@, world_voxel@),
            final(self).count() == (if old(self)@.dom().contains(world_voxel@) {
                bumped(old(self).count())
            } else {
                old(self).count()
            }),
    {
        if fx_remove(&mut self.overrides, world_voxel.cell()).is_some() {
            self.bump();
        }
    }

    fn bump(&mut self)
        ensures
            final(self).overrides == old(self).overrides,
            final(self).generation == bumped(old(self).generation),
    {
        self.generation = self.generation.wrapping_add(1);
    }

    /// Every override with its voxel, each once, in an order that is left open.
    pub fn iter(&self) -> (r: Vec<(IVec3, BlockId)>)
        ensures
            forall|i: int|
                0 <= i < r@.len() ==> self@.dom().contains((#[trigger] r@[i]).0@) && r@[i].1
                    == self@[r@[i].0@],
            forall|v: Cell| #[trigger]
                self@.dom().contains(v) ==> exists|i: int| 0 <= i < r@.len() && (#[trigger] r@[i]).0@ == v,
            forall|i: int, j: int|
                0 <= i < j < r@.len() ==> (#[trigger] r@[i]).0@ != (#[trigger] r@[j]).0@,
    {
        let cells: Vec<Cell> = fx_keys(&self.overrides);
        let mut r: Vec<(IVec3, BlockId)> = Vec::with_capacity(cells.len());
        let mut i: usize = 0;
        while i < cells.len()
            invariant
                i <= cells@.len(),
                forall|v: Cell| #[trigger] self.overrides@.dom().contains(v) <==> cells@.contains(v),
                r@.len() == i,
                forall|j: int|
                    0 <= j < i ==> (#[trigger] r@[j]).0@ == cells@[j] && r@[j].1
                        == self.overrides@[cells@[j]],
            decreases cells@.len() - i,
        {
            assert(cells@.contains(cells@[i as int]));
            let b: BlockId = *fx_get(&self.overrides, cells[i]).unwrap();
            r.push((IVec3::of_cell(cells[i]), b));
            i = i + 1;
        }
        proof {
            assert forall|j: int| 0 <= j < r@.len() implies self@.dom().contains((#[trigger] r@[j]).0@)
                && r@[j].1 == self@[r@[j].0@] by {
                assert(cells@.contains(cells@[j]));
            }
            assert forall|v: Cell| #[trigger] self@.dom().contains(v) implies exists|j: int|
                0 <= j < r@.len() && (#[trigger] r@[j]).0@ == v by {
                assert(cells@.contains(v));
                let j = choose|j: int| 0 <= j < cells@.len() && cells@[j] == v;
                assert(r@[j].0@ == v);
            }
        }
        r
    }
}

/// Whether the voxels of the brick at `c` have coordinates of 32 bits.
pub open spec fn brick_in_range(c: Cell) -> bool {
    &&& -0x1000_0000 <= c.0 < 0x1000_0000
    &&& -0x1000_0000 <= c.1 < 0x1000_0000
    &&& -0x1000_0000 <= c.2 < 0x1000_0000
}

/// The world voxel of voxel `i` of the brick at `c`.
pub open spec fn voxel_of(c: Cell, i: int) -> Cell {
    (
        (8 * c.0 + i % 8) as i32,
        (8 * c.1 + (i / 8) % 8) as i32,
        (8 * c.2 + i / 64) as i32,
    )
}

/// The blocks of the brick at `c` with the overrides laid over them.
pub open spec fn overlaid(c: Cell, base: Seq<BlockId>, edits: Map<Cell, BlockId>) -> Seq<BlockId> {
    Seq::new(512, |i: int| resolved(edits, voxel_of(c, i), base[i]))
}

/// The world voxel of voxel `i` of the brick at `coord`.
pub fn voxel_in_brick(coord: IVec3, i: usize) -> (v: IVec3)
    requires
        brick_in_range(coord@),
        i < 512,
    ensures
        v@ == voxel_of(coord@, i as int),
        v.x == 8 * coord.x + i as int % 8,
        v.y == 8 * coord.y + (i as int / 8) % 8,
        v.z == 8 * coord.z + i as int / 64,
{
    IVec3 {
        x: coord.x * BRICK_EDGE + (i % 8) as i32,
        y: coord.y * BRICK_EDGE + ((i / 8) % 8) as i32,
        z: coord.z * BRICK_EDGE + (i / 64) as i32,
    }
}

/// A brick's voxel in the world has that brick for owner and that place in it.
pub proof fn law_brick_voxel_round_trip(c: Cell, i: int)
    requires
        brick_in_range(c),
        0 <= i < 512,
    ensures
        owner_of(voxel_of(c, i)) == c,
        local_of(voxel_of(c, i)) == i,
{
    let x = i % 8;
    let y = (i / 8) % 8;
    let z = i / 64;
    let v = voxel_of(c, i);
    lemma_axis_parts(c.0 as int, x);
    lemma_axis_parts(c.1 as int, y);
    lemma_axis_parts(c.2 as int, z);
    assert(v.0 == 8 * c.0 + x && v.1 == 8 * c.1 + y && v.2 == 8 * c.2 + z);
    assert(i == x + 8 * y + 64 * z);
}

/// A voxel coordinate parts into the brick's and the place in it.
proof fn lemma_axis_parts(c: int, l: int)
    requires
        0 <= l < 8,
    ensures
        (8 * c + l) / 8 == c,
        (8 * c + l) % 8 == l,
{
}

/// Each world voxel is the voxel of its owner that its place says.
pub proof fn law_world_voxel_round_trip(v: Cell)
    ensures
        brick_in_range(owner_of(v)),
        0 <= local_of(v) < 512,
        voxel_of(owner_of(v), local_of(v)) == v,
{
    let l = local_of(v);
    assert(l % 8 == v.0 as int % 8);
    assert((l / 8) % 8 == v.1 as int % 8);
    assert(l / 64 == v.2 as int % 8);
}

/// What a store shows fixes what it stores: two stores that show the same block at every world voxel have the same
/// bricks.
pub proof fn law_world_fixes_store(a: BrickMap, b: BrickMap)
    requires
        a.wf(),
        b.wf(),
        forall|c: Cell| #[trigger] a@.dom().contains(c) ==> brick_in_range(c),
        forall|c: Cell| #[trigger] b@.dom().contains(c) ==> brick_in_range(c),
        forall|v: Cell| #[trigger] world_block(a@, v) == world_block(b@, v),
    ensures
        a@ == b@,
{
    a.lemma_view();
    b.lemma_view();
    assert forall|c: Cell| #[trigger] a@.dom().contains(c) implies b@.dom().contains(c) by {
        lemma_shown_is_stored(a, b, c);
    }
    assert forall|c: Cell| #[trigger] b@.dom().contains(c) implies a@.dom().contains(c) by {
        lemma_shown_is_stored(b, a, c);
    }
    assert forall|c: Cell| #[trigger] a@.dom().contains(c) implies a@[c] == b@[c] by {
        assert forall|i: int| 0 <= i < 512 implies a@[c][i] == b@[c][i] by {
            law_brick_voxel_round_trip(c, i);
            assert(world_block(a@, voxel_of(c, i)) == world_block(b@, voxel_of(c, i)));
        }
        assert(a@[c] =~= b@[c]);
    }
    assert(a@ =~= b@);
}

/// A brick of one store is in any other that shows the same.
proof fn lemma_shown_is_stored(a: BrickMap, b: BrickMap, c: Cell)
    requires
        a.wf(),
        a@.dom().contains(c),
        brick_in_range(c),
        forall|v: Cell| #[trigger] world_block(a@, v) == world_block(b@, v),
    ensures
        b@.dom().contains(c),
{
    a.lemma_view();
    let i = choose|i: int| 0 <= i < a@[c].len() && a@[c][i] != BlockId::air();
    law_brick_voxel_round_trip(c, i);
    assert(world_block(a@, voxel_of(c, i)) == world_block(b@, voxel_of(c, i)));
}

/// Lay the overrides over the brick at `coord`.
pub fn apply_edit_overlay(coord: IVec3, base: &Brick, edits: &VoxelEdits) -> (brick: Brick)
    requires
        base.wf(),
        brick_in_range(coord@),
    ensures
        brick.wf(),
        brick@ == overlaid(coord@, base@, edits@),
{
    let mut voxels: [BlockId; BRICK_VOXELS] = [BlockId::air();BRICK_VOXELS];
    let mut i: usize = 0;
    while i < BRICK_VOXELS
        invariant
            i <= 512,
            base.wf(),
            brick_in_range(coord@),
            voxels@.len() == 512,
            forall|j: int| 0 <= j < i ==> voxels@[j] == overlaid(coord@, base@, edits@)[j],
        decreases 512 - i,
    {
        let v: IVec3 = voxel_in_brick(coord, i);
        let b: BlockId = base.get((i % 8) as i32, ((i / 8) % 8) as i32, (i / 64) as i32);
        assert(voxel_at(i as int % 8, (i as int / 8) % 8, i as int / 64) == i);
        voxels[i] = edits.resolve(v, b);
        i = i + 1;
    }
    assert(voxels@ =~= overlaid(coord@, base@, edits@));
    Brick::from_voxels(Box::new(voxels))
}

/// Lay the overrides over a whole store: every voxel of the result is the override, or the base's voxel.
pub fn apply_edits_to_map(base: &BrickMap, edits: &VoxelEdits) -> (out: BrickMap)
    requires
        base.wf(),
        forall|c: Cell| #[trigger] base@.dom().contains(c) ==> brick_in_range(c),
    ensures
        out.wf(),
        forall|v: Cell| #[trigger]
            world_block(out@, v) == resolved(edits@, v, world_block(base@, v)),
        forall|c: Cell| #[trigger] out@.dom().contains(c) ==> brick_in_range(c),
{
    let mut out: BrickMap = BrickMap::new();
    let bricks: Vec<(IVec3, &Brick)> = base.iter();
    let ghost m = edits@;
    let mut i: usize = 0;
    while i < bricks.len()
        invariant
            i <= bricks@.len(),
            m == edits@,
            forall|c: Cell| #[trigger] base@.dom().contains(c) ==> brick_in_range(c),
            forall|j: int|
                0 <= j < bricks@.len() ==> (#[trigger] bricks@[j]).1.wf() && base@.dom().contains(
                    bricks@[j].0@,
                ) && bricks@[j].1@ == base@[bricks@[j].0@],
            forall|a: int, b: int|
                0 <= a < b < bricks@.len() ==> (#[trigger] bricks@[a]).0@ != (#[trigger] bricks@[b]).0@,
            out.wf(),
            forall|c: Cell| #[trigger]
                out@.dom().contains(c) ==> exists|j: int| 0 <= j < i && (#[trigger] bricks@[j]).0@ == c,
            forall|j: int|
                0 <= j < i ==> holds_brick(
                    out@,
                    (#[trigger] bricks@[j]).0@,
                    overlaid(bricks@[j].0@, bricks@[j].1@, m),
                ),
        decreases bricks@.len() - i,
    {
        let coord: IVec3 = bricks[i].0;
        let ghost before = out@;
        assert(base@.dom().contains(bricks@[i as int].0@));
        let brick: Brick = apply_edit_overlay(coord, bricks[i].1, edits);
        let _stored: bool = out.insert(coord, brick);
        proof {
            assert forall|c: Cell| #[trigger] out@.dom().contains(c) implies exists|j: int|
                0 <= j < i + 1 && (#[trigger] bricks@[j]).0@ == c by {
                if c == coord@ {
                    assert(bricks@[i as int].0@ == c);
                } else {
                    assert(before.dom().contains(c));
                    let j = choose|j: int| 0 <= j < i && (#[trigger] bricks@[j]).0@ == c;
                    assert(bricks@[j].0@ == c);
                }
            }
            assert forall|j: int| 0 <= j < i + 1 implies holds_brick(
                out@,
                (#[trigger] bricks@[j]).0@,
                overlaid(bricks@[j].0@, bricks@[j].1@, m),
            ) by {
                if j < i {
                    assert(bricks@[j].0@ != bricks@[i as int].0@);
                    assert(holds_brick(before, bricks@[j].0@, overlaid(bricks@[j].0@, bricks@[j].1@, m)));
                }
            }
        }
        i = i + 1;
    }
    let ghost first = out@;
    proof {
        base.lemma_view();
        assert forall|c: Cell| #[trigger] base@.dom().contains(c) implies holds_brick(
            first,
            c,
            overlaid(c, base@[c], m),
        ) by {
            lemma_iter_finds(base@, bricks@, c);
            let j = choose|j: int| 0 <= j < bricks@.len() && (#[trigger] bricks@[j]).0@ == c;
            assert(holds_brick(first, bricks@[j].0@, overlaid(bricks@[j].0@, bricks@[j].1@, m)));
        }
        assert forall|c: Cell| #[trigger] first.dom().contains(c) implies base@.dom().contains(c) by {
            let j = choose|j: int| 0 <= j < i && (#[trigger] bricks@[j]).0@ == c;
            assert(base@.dom().contains(bricks@[j].0@));
        }
    }
    let list: Vec<(IVec3, BlockId)> = edits.iter();
    let mut touched: FxHashMap<Cell, ()> = fx_new();
    let ghost empty = Seq::new(512, |k: int| BlockId::air());
    let mut i: usize = 0;
    while i < list.len()
        invariant
            i <= list@.len(),
            m == edits@,
            base.wf(),
            empty == Seq::new(512, |k: int| BlockId::air()),
            forall|j: int|
                0 <= j < list@.len() ==> m.dom().contains((#[trigger] list@[j]).0@) && list@[j].1
                    == m[list@[j].0@],
            out.wf(),
            forall|c: Cell| #[trigger]
                base@.dom().contains(c) ==> holds_brick(out@, c, overlaid(c, base@[c], m)),
            forall|c: Cell| #[trigger]
                touched@.dom().contains(c) ==> !base@.dom().contains(c) && brick_in_range(c),
            forall|c: Cell|
                #![trigger touched@.dom().contains(c)]
                !base@.dom().contains(c) ==> (if touched@.dom().contains(c) {
                    holds_brick(out@, c, overlaid(c, empty, m))
                } else {
                    !out@.dom().contains(c)
                }),
            forall|c: Cell|
                #![trigger out@.dom().contains(c)]
                !base@.dom().contains(c) && out@.dom().contains(c) ==> touched@.dom().contains(c),
            forall|j: int|
                0 <= j < i && (#[trigger] list@[j]).1 != BlockId::air() && !base@.dom().contains(
                    owner_of(list@[j].0@),
                ) ==> touched@.dom().contains(owner_of(list@[j].0@)),
        decreases list@.len() - i,
    {
        let wv: IVec3 = list[i].0;
        let block: BlockId = list[i].1;
        if !block.is_air() {
            let bc: IVec3 = brick_coord_of_voxel(wv);
            if base.get(bc).is_none() && !fx_contains(&touched, bc.cell()) {
                fx_insert(&mut touched, bc.cell(), ());
                let air: Brick = Brick::uniform(BlockId::air());
                proof {
                    law_world_voxel_round_trip(wv@);
                }
                let brick: Brick = apply_edit_overlay(bc, &air, edits);
                let _stored: bool = out.insert(bc, brick);
            }
        }
        i = i + 1;
    }
    proof {
        assert forall|v: Cell| #[trigger] world_block(out@, v) == resolved(
            m,
            v,
            world_block(base@, v),
        ) by {
            let c = owner_of(v);
            let l = local_of(v);
            law_world_voxel_round_trip(v);
            if base@.dom().contains(c) {
                assert(holds_brick(out@, c, overlaid(c, base@[c], m)));
                assert(overlaid(c, base@[c], m)[l] == resolved(m, v, base@[c][l]));
            } else if touched@.dom().contains(c) {
                assert(overlaid(c, empty, m)[l] == resolved(m, v, BlockId::air()));
            } else {
                assert(!out@.dom().contains(c));
                if m.dom().contains(v) && m[v] != BlockId::air() {
                    let j = choose|j: int| 0 <= j < list@.len() && (#[trigger] list@[j]).0@ == v;
                    assert(list@[j].1 != BlockId::air());
                    assert(touched@.dom().contains(owner_of(list@[j].0@)));
                }
            }
        }
    }
    out
}

/// Whether a store has these blocks at `c`; a brick that is all air is not stored.
pub open spec fn holds_brick(bricks: Map<Cell, Seq<BlockId>>, c: Cell, blocks: Seq<BlockId>) -> bool {
    if all_are(blocks, BlockId::air()) {
        !bricks.dom().contains(c)
    } else {
        bricks.dom().contains(c) && bricks[c] == blocks
    }
}

/// A list of as many distinct bricks as a store has holds every one of them.
pub proof fn lemma_iter_finds(bricks: Map<Cell, Seq<BlockId>>, list: Seq<(IVec3, &Brick)>, c: Cell)
    requires
        bricks.dom().finite(),
        bricks.dom().contains(c),
        list.len() == bricks.dom().len(),
        forall|j: int| 0 <= j < list.len() ==> bricks.dom().contains((#[trigger] list[j]).0@),
        forall|a: int, b: int|
            0 <= a < b < list.len() ==> (#[trigger] list[a]).0@ != (#[trigger] list[b]).0@,
    ensures
        exists|j: int| 0 <= j < list.len() && (#[trigger] list[j]).0@ == c,
{
    let cells = list.map_values(|p: (IVec3, &Brick)| p.0@);
    assert(cells.no_duplicates()) by {
        assert forall|a: int, b: int| 0 <= a < cells.len() && 0 <= b < cells.len() && a != b implies cells[a]
            != cells[b] by {
            if a < b {
                assert(list[a].0@ != list[b].0@);
            } else {
                assert(list[b].0@ != list[a].0@);
            }
        }
    }
    cells.unique_seq_to_set();
    assert(cells.to_set().subset_of(bricks.dom())) by {
        assert forall|x: Cell| #[trigger] cells.to_set().contains(x) implies bricks.dom().contains(x) by {
            let j = choose|j: int| 0 <= j < cells.len() && cells[j] == x;
            assert(bricks.dom().contains(list[j].0@));
        }
    }
    vstd::set_lib::lemma_subset_equality(cells.to_set(), bricks.dom());
    assert(cells.to_set().contains(c));
    let j = choose|j: int| 0 <= j < cells.len() && cells[j] == c;
    assert(list[j].0@ == c);
}

/// Whether the haloed grid of the brick at `c` reads world voxel `v`: the voxel is in the brick or next
/// to it.
pub open spec fn reads_voxel(c: Cell, v: Cell) -> bool {
    &&& -1 <= v.0 - 8 * c.0 <= 8
    &&& -1 <= v.1 - 8 * c.1 <= 8
    &&& -1 <= v.2 - 8 * c.2 <= 8
}

/// The bricks along one axis that read voxel coordinate `l` of a brick, as offsets from that brick: the
/// brick itself and, for a coordinate on a face, the brick on that side.
fn axis_offsets(l: i32) -> (r: (i32, i32))
    requires
        0 <= l < 8,
    ensures
        r.0 == 0,
        r.1 == (if l == 0 {
            -1int
        } else if l == 7 {
            1int
        } else {
            0int
        }),
{
    if l == 0 {
        (0, -1)
    } else if l == BRICK_EDGE - 1 {
        (0, 1)
    } else {
        (0, 0)
    }
}

/// The bricks that an edit of `world_voxel` makes dirty, each once and the owner first: just those whose
/// haloed grids read the voxel.
pub fn dirty_bricks_for_edit(world_voxel: IVec3) -> (out: Vec<IVec3>)
    ensures
        out@.len() <= 8,
        out@.len() > 0 && out@[0]@ == owner_of(world_voxel@),
        out@.no_duplicates(),
        forall|c: IVec3| #[trigger] out@.contains(c) <==> reads_voxel(c@, world_voxel@),
{
    let owner: IVec3 = brick_coord_of_voxel(world_voxel);
    let ox: (i32, i32) = axis_offsets(world_voxel.x - owner.x * BRICK_EDGE);
    let oy: (i32, i32) = axis_offsets(world_voxel.y - owner.y * BRICK_EDGE);
    let oz: (i32, i32) = axis_offsets(world_voxel.z - owner.z * BRICK_EDGE);
    let mut out: Vec<IVec3> = Vec::with_capacity(8);
    let mut i: u32 = 0;
    while i < 8
        invariant
            i <= 8,
            brick_in_range(owner@),
            ox.0 == 0 && -1 <= ox.1 <= 1,
            oy.0 == 0 && -1 <= oy.1 <= 1,
            oz.0 == 0 && -1 <= oz.1 <= 1,
            out@.len() <= i,
            i > 0 ==> out@.len() > 0 && out@[0] == owner,
            out@.no_duplicates(),
            forall|j: int|
                0 <= j < i ==> out@.contains(#[trigger] incident(owner, ox.1, oy.1, oz.1, j)),
            forall|w: int|
                0 <= w < out@.len() ==> is_incident(owner, ox.1, oy.1, oz.1, i as int, #[trigger] out@[w]),
        decreases 8 - i,
    {
        let dx: i32 = if i % 2 == 0 { ox.0 } else { ox.1 };
        let dy: i32 = if (i / 2) % 2 == 0 { oy.0 } else { oy.1 };
        let dz: i32 = if i / 4 == 0 { oz.0 } else { oz.1 };
        let c: IVec3 = IVec3 { x: owner.x + dx, y: owner.y + dy, z: owner.z + dz };
        assert(c == incident(owner, ox.1, oy.1, oz.1, i as int));
        let ghost before = out@;
        let found: bool = has_brick(&out, c);
        if !found {
            out.push(c);
            assert(out@[before.len() as int] == c);
            assert forall|w: int| 0 <= w < before.len() implies out@[w] == before[w] by {}
        }
        proof {
            assert forall|j: int| 0 <= j < i + 1 implies out@.contains(
                #[trigger] incident(owner, ox.1, oy.1, oz.1, j),
            ) by {
                if j < i {
                    let t = incident(owner, ox.1, oy.1, oz.1, j);
                    assert(before.contains(t));
                    let w = choose|w: int| 0 <= w < before.len() && before[w] == t;
                    assert(out@[w] == t);
                }
            }
            assert forall|w: int| 0 <= w < out@.len() implies is_incident(
                owner,
                ox.1,
                oy.1,
                oz.1,
                i + 1,
                #[trigger] out@[w],
            ) by {
                if w < before.len() {
                    assert(out@[w] == before[w]);
                    let j = choose|j: int|
                        0 <= j < i && #[trigger] incident(owner, ox.1, oy.1, oz.1, j) == before[w];
                    assert(incident(owner, ox.1, oy.1, oz.1, j) == out@[w]);
                } else {
                    assert(incident(owner, ox.1, oy.1, oz.1, i as int) == out@[w]);
                }
            }
        }
        i = i + 1;
    }
    proof {
        assert forall|c: IVec3| #[trigger] out@.contains(c) <==> reads_voxel(c@, world_voxel@) by {
            if out@.contains(c) {
                let w = choose|w: int| 0 <= w < out@.len() && out@[w] == c;
                let j = choose|j: int|
                    0 <= j < i && #[trigger] incident(owner, ox.1, oy.1, oz.1, j) == out@[w];
                assert(incident(owner, ox.1, oy.1, oz.1, j) == c);
            }
            if reads_voxel(c@, world_voxel@) {
                let jx: int = if c.x == owner.x { 0 } else { 1 };
                let jy: int = if c.y == owner.y { 0 } else { 1 };
                let jz: int = if c.z == owner.z { 0 } else { 1 };
                let j = jx + 2 * jy + 4 * jz;
                assert(j % 2 == jx && (j / 2) % 2 == jy && j / 4 == jz);
                assert(incident(owner, ox.1, oy.1, oz.1, j) == c);
            }
        }
    }
    out
}

/// The brick that is offset from `owner` along the axes whose bits are set in `j`.
spec fn incident(owner: IVec3, dx: i32, dy: i32, dz: i32, j: int) -> IVec3 {
    IVec3 {
        x: (owner.x + (if j % 2 == 0 { 0 } else { dx as int })) as i32,
        y: (owner.y + (if (j / 2) % 2 == 0 { 0 } else { dy as int })) as i32,
        z: (owner.z + (if j / 4 == 0 { 0 } else { dz as int })) as i32,
    }
}

/// Whether `c` is one of the first `n` incident bricks.
spec fn is_incident(owner: IVec3, dx: i32, dy: i32, dz: i32, n: int, c: IVec3) -> bool {
    exists|j: int| 0 <= j < n && #[trigger] incident(owner, dx, dy, dz, j) == c
}

fn has_brick(list: &Vec<IVec3>, c: IVec3) -> (b: bool)
    ensures
        b == list@.contains(c),
{
    let mut i: usize = 0;
    while i < list.len()
        invariant
            i <= list@.len(),
            forall|j: int| 0 <= j < i ==> list@[j] != c,
        decreases list@.len() - i,
    {
        if list[i] == c {
            assert(list@[i as int] == c);
            return true;
        }
        i = i + 1;
    }
    false
}

/// An edit of one voxel changes nothing of what a brick reads that is not among the dirty ones: two
/// worlds that differ at `v` only are the same around every other brick.
pub proof fn law_edit_spares_other_bricks(
    a: Map<Cell, Seq<BlockId>>,
    b: Map<Cell, Seq<BlockId>>,
    v: Cell,
    c: Cell,
    w: Cell,
)
    requires
        forall|u: Cell| u != v ==> #[trigger] world_block(a, u) == world_block(b, u),
        !reads_voxel(c, v),
        reads_voxel(c, w),
    ensures
        world_block(a, w) == world_block(b, w),
{
}

/// An axis of the grid.
#[derive(Clone, Copy, Debug, PartialEq, Eq, Structural)]
pub enum Axis {
    X,
    Y,
    Z,
}

/// A ray on the voxel grid, as what decides its way: distances are given by numbers that are ordered as they
/// are.
#[derive(Clone, Debug)]
pub struct VoxelRay {
    /// The voxel that the ray starts in.
    pub start: IVec3,
    /// The ray's direction on each axis, as a sign.
    pub step: IVec3,
    /// The axis that the ray moves along most.
    pub dominant: Axis,
    /// The distance to each face between voxels that the ray crosses on the x axis, one after the other, up to one
    /// past its end.
    pub tx: Vec<u32>,
    /// The same on the y axis.
    pub ty: Vec<u32>,
    /// The same on the z axis.
    pub tz: Vec<u32>,
    /// The distance of the start.
    pub t0: u32,
    /// The distance that the ray reaches to.
    pub max_t: u32,
}

/// The first solid voxel along a ray.
#[derive(Clone, Copy, Debug, PartialEq, Eq, Structural)]
pub struct VoxelHit {
    /// The solid voxel.
    pub voxel: IVec3,
    /// The outward normal of the face that the ray entered by.
    pub normal: IVec3,
    /// The block of the voxel.
    pub block: BlockId,
    /// The distance to the face that the ray entered by.
    pub t: u32,
    /// How many faces of voxels the ray crossed to get there.
    pub crossings: usize,
}

impl VoxelHit {
    /// The voxel before the face that was hit.
    pub open spec fn in_front(self) -> Cell {
        (
            (self.voxel.x + self.normal.x) as i32,
            (self.voxel.y + self.normal.y) as i32,
            (self.voxel.z + self.normal.z) as i32,
        )
    }

    /// The voxel in front of the face that was hit, where a block would be placed.
    pub fn place_target(&self) -> (v: IVec3)
        requires
            i32::MIN <= self.voxel.x + self.normal.x <= i32::MAX,
            i32::MIN <= self.voxel.y + self.normal.y <= i32::MAX,
            i32::MIN <= self.voxel.z + self.normal.z <= i32::MAX,
        ensures
            v@ == self.in_front(),
            v.x == self.voxel.x + self.normal.x,
            v.y == self.voxel.y + self.normal.y,
            v.z == self.voxel.z + self.normal.z,
    {
        self.voxel.plus(self.normal)
    }
}

/// The axis on which a ray crosses its next face, given the distances to the next face on each: the
/// nearest, and of equally near ones the last.
pub open spec fn nearest(tx: u32, ty: u32, tz: u32) -> Axis {
    if tx < ty && tx < tz {
        Axis::X
    } else if ty < tz {
        Axis::Y
    } else {
        Axis::Z
    }
}

/// How often a ray has crossed a face on each axis.
pub struct Crossed {
    pub x: nat,
    pub y: nat,
    pub z: nat,
}

/// Whether these are the distances to the faces that a ray crosses on one axis, from voxel `start` with steps
/// `step`: they ascend to one past `max_t`, they are all past it where the ray does not move on the axis, and the
/// faces up to `max_t` lead to voxels with coordinates of 32 bits.
pub open spec fn are_faces(start: i32, step: i32, ts: Seq<u32>, max_t: u32) -> bool {
    &&& -1 <= step <= 1
    &&& 0 < ts.len()
    &&& ts[ts.len() - 1] > max_t
    &&& forall|i: int, j: int| 0 <= i <= j < ts.len() ==> #[trigger] ts[i] <= #[trigger] ts[j]
    &&& step == 0 ==> ts[0] > max_t
    &&& i32::MIN <= start + step * (ts.len() - 1) <= i32::MAX
}

impl VoxelRay {
    /// Whether the distances are those of faces on each axis up to one past the ray's end, and the ray moves on the
    /// axis that it moves along most, unless it has no direction.
    pub open spec fn wf(&self) -> bool {
        &&& are_faces(self.start.x, self.step.x, self.tx@, self.max_t)
        &&& are_faces(self.start.y, self.step.y, self.ty@, self.max_t)
        &&& are_faces(self.start.z, self.step.z, self.tz@, self.max_t)
        &&& self.tx@.len() + self.ty@.len() + self.tz@.len() <= usize::MAX
        &&& self.is_still() || on_axis(self.step, self.dominant) != 0
    }

    /// Whether the ray has no direction.
    pub open spec fn is_still(&self) -> bool {
        self.step.x == 0 && self.step.y == 0 && self.step.z == 0
    }

    /// The axis of the next crossing after those.
    pub open spec fn next_axis(&self, c: Crossed) -> Axis {
        nearest(self.tx@[c.x as int], self.ty@[c.y as int], self.tz@[c.z as int])
    }

    /// The first `n` crossings: each is on the axis whose next face is nearest.
    pub open spec fn crossed(&self, n: nat) -> Crossed
        decreases n,
    {
        if n == 0 {
            Crossed { x: 0, y: 0, z: 0 }
        } else {
            let c = self.crossed((n - 1) as nat);
            match self.next_axis(c) {
                Axis::X => Crossed { x: c.x + 1, y: c.y, z: c.z },
                Axis::Y => Crossed { x: c.x, y: c.y + 1, z: c.z },
                Axis::Z => Crossed { x: c.x, y: c.y, z: c.z + 1 },
            }
        }
    }

    /// The axis by which the ray entered the voxel after `n` crossings.
    pub open spec fn entry_axis(&self, n: nat) -> Axis {
        if n == 0 {
            self.dominant
        } else {
            self.next_axis(self.crossed((n - 1) as nat))
        }
    }

    /// The distance of crossing `n`, and for zero that of the start.
    pub open spec fn reach(&self, n: nat) -> u32 {
        if n == 0 {
            self.t0
        } else {
            let c = self.crossed((n - 1) as nat);
            match self.next_axis(c) {
                Axis::X => self.tx@[c.x as int],
                Axis::Y => self.ty@[c.y as int],
                Axis::Z => self.tz@[c.z as int],
            }
        }
    }

    /// The voxel that the ray is in after `n` crossings.
    pub open spec fn voxel_after(&self, n: nat) -> Cell {
        let c = self.crossed(n);
        (
            (self.start.x + self.step.x * c.x) as i32,
            (self.start.y + self.step.y * c.y) as i32,
            (self.start.z + self.step.z * c.z) as i32,
        )
    }

    /// Whether the ray gets to the voxel after `n` crossings: none of the crossings is past its end.
    pub open spec fn gets_to(&self, n: nat) -> bool {
        forall|k: nat| k <= n ==> #[trigger] self.reach(k) <= self.max_t
    }

    /// The normal of the face by which the ray entered the voxel after `n` crossings: on the axis that it last
    /// crossed, and at the start on the axis that it moves along most.
    pub open spec fn entry_normal(&self, n: nat) -> IVec3 {
        face_normal(self.step, self.entry_axis(n))
    }
}

/// The component of a vector on an axis.
pub open spec fn on_axis(v: IVec3, a: Axis) -> int {
    match a {
        Axis::X => v.x as int,
        Axis::Y => v.y as int,
        Axis::Z => v.z as int,
    }
}

/// The outward normal of a face that a ray with these steps enters on axis `a`.
pub open spec fn face_normal(step: IVec3, a: Axis) -> IVec3 {
    IVec3 {
        x: if a == Axis::X { (-step.x) as i32 } else { 0 },
        y: if a == Axis::Y { (-step.y) as i32 } else { 0 },
        z: if a == Axis::Z { (-step.z) as i32 } else { 0 },
    }
}

fn normal_on(step: IVec3, a: Axis) -> (v: IVec3)
    requires
        -1 <= step.x <= 1,
        -1 <= step.y <= 1,
        -1 <= step.z <= 1,
    ensures
        v == face_normal(step, a),
{
    match a {
        Axis::X => IVec3 { x: -step.x, y: 0, z: 0 },
        Axis::Y => IVec3 { x: 0, y: -step.y, z: 0 },
        Axis::Z => IVec3 { x: 0, y: 0, z: -step.z },
    }
}

/// Whether the overlaid world is solid at a voxel.
pub open spec fn solid_at(base: Map<Cell, Seq<BlockId>>, edits: Map<Cell, BlockId>, v: Cell) -> bool {
    resolved(edits, v, world_block(base, v)) != BlockId::air()
}

/// Follow a ray through the overlaid world to the first solid voxel that it gets to, or `None` where there
/// is none or the ray has no direction.
pub fn pick_voxel(base: &BrickMap, edits: &VoxelEdits, ray: &VoxelRay) -> (r: Option<VoxelHit>)
    requires
        base.wf(),
        ray.wf(),
    ensures
        r is None ==> ray.is_still() || forall|n: nat| #[trigger]
            ray.gets_to(n) ==> !solid_at(base@, edits@, ray.voxel_after(n)),
        r matches Some(hit) ==> {
            let n = hit.crossings as nat;
            let v = ray.voxel_after(n);
            &&& !ray.is_still()
            &&& ray.gets_to(n)
            &&& hit.voxel@ == v
            &&& hit.block == resolved(edits@, v, world_block(base@, v))
            &&& hit.block != BlockId::air()
            &&& hit.normal == ray.entry_normal(n)
            &&& hit.t == ray.reach(n)
            &&& forall|k: nat| k < n ==> !solid_at(base@, edits@, #[trigger] ray.voxel_after(k))
        },
{
    if ray.step.x == 0 && ray.step.y == 0 && ray.step.z == 0 {
        return None;
    }
    if ray.t0 > ray.max_t {
        assert(ray.reach(0) > ray.max_t);
        return None;
    }
    let mut voxel: IVec3 = ray.start;
    let mut axis: Axis = ray.dominant;
    let mut t: u32 = ray.t0;
    let mut nx: usize = 0;
    let mut ny: usize = 0;
    let mut nz: usize = 0;
    let mut n: usize = 0;
    proof {
        assert(ray.step.x * 0 == 0 && ray.step.y * 0 == 0 && ray.step.z * 0 == 0);
    }
    loop
        invariant
            base.wf(),
            ray.wf(),
            !ray.is_still(),
            ray.crossed(n as nat) == (Crossed { x: nx as nat, y: ny as nat, z: nz as nat }),
            nx + ny + nz == n,
            nx < ray.tx@.len(),
            ny < ray.ty@.len(),
            nz < ray.tz@.len(),
            voxel.x == ray.start.x + ray.step.x * nx,
            voxel.y == ray.start.y + ray.step.y * ny,
            voxel.z == ray.start.z + ray.step.z * nz,
            axis == ray.entry_axis(n as nat),
            t == ray.reach(n as nat),
            ray.gets_to(n as nat),
            forall|k: nat| k < n ==> !solid_at(base@, edits@, #[trigger] ray.voxel_after(k)),
        decreases ray.tx@.len() + ray.ty@.len() + ray.tz@.len() - n,
    {
        assert(voxel@ == ray.voxel_after(n as nat));
        let block: BlockId = edits.resolve(voxel, base.voxel_block(voxel));
        if !block.is_air() {
            return Some(VoxelHit { voxel, normal: normal_on(ray.step, axis), block, t, crossings: n });
        }
        proof {
            assert(ray.crossed((n + 1) as nat) == (match ray.next_axis(ray.crossed(n as nat)) {
                Axis::X => Crossed { x: (nx + 1) as nat, y: ny as nat, z: nz as nat },
                Axis::Y => Crossed { x: nx as nat, y: (ny + 1) as nat, z: nz as nat },
                Axis::Z => Crossed { x: nx as nat, y: ny as nat, z: (nz + 1) as nat },
            }));
            lemma_next(ray.step.x as int, nx as int, ray.tx@.len() - 1);
            lemma_next(ray.step.y as int, ny as int, ray.ty@.len() - 1);
            lemma_next(ray.step.z as int, nz as int, ray.tz@.len() - 1);
        }
        let tx: u32 = ray.tx[nx];
        let ty: u32 = ray.ty[ny];
        let tz: u32 = ray.tz[nz];
        let next: Axis = if tx < ty && tx < tz {
            Axis::X
        } else if ty < tz {
            Axis::Y
        } else {
            Axis::Z
        };
        t = match next {
            Axis::X => tx,
            Axis::Y => ty,
            Axis::Z => tz,
        };
        assert(t == ray.reach((n + 1) as nat));
        if t > ray.max_t {
            assert forall|k: nat| #[trigger] ray.gets_to(k) implies !solid_at(base@, edits@, ray.voxel_after(k)) by {
                if k > n {
                    assert(ray.reach((n + 1) as nat) <= ray.max_t);
                }
            }
            return None;
        }
        match next {
            Axis::X => {
                proof {
                    lemma_next(ray.step.x as int, nx + 1, ray.tx@.len() - 1);
                }
                nx = nx + 1;
                voxel.x = voxel.x + ray.step.x;
            },
            Axis::Y => {
                proof {
                    lemma_next(ray.step.y as int, ny + 1, ray.ty@.len() - 1);
                }
                ny = ny + 1;
                voxel.y = voxel.y + ray.step.y;
            },
            Axis::Z => {
                proof {
                    lemma_next(ray.step.z as int, nz + 1, ray.tz@.len() - 1);
                }
                nz = nz + 1;
                voxel.z = voxel.z + ray.step.z;
            },
        }
        axis = next;
        n = n + 1;
    }
}

/// Steps on one axis stay between where the ray starts and where `n` of them lead.
proof fn lemma_next(s: int, c: int, n: int)
    requires
        -1 <= s <= 1,
        0 <= c <= n,
    ensures
        s * (c + 1) == s * c + s,
        0 <= s * c <= s * n || s * n <= s * c <= 0,
{
    if s == 0 {
        assert(0 * c == 0 && 0 * n == 0 && 0 * (c + 1) == 0);
    } else if s == 1 {
        assert(1 * c == c && 1 * n == n && 1 * (c + 1) == c + 1);
    } else {
        assert(-1 * c == -c && -1 * n == -n && -1 * (c + 1) == -(c + 1));
    }
}

/// A block is placed into air, next to the voxel that was hit: the normal of the face is a unit step, and unless the
/// ray starts inside a solid voxel, the voxel in front of the face is the one that the ray came from, which it had
/// found to be air.
pub proof fn law_place_target_is_where_the_ray_came_from(
    base: Map<Cell, Seq<BlockId>>,
    edits: Map<Cell, BlockId>,
    ray: VoxelRay,
    n: nat,
)
    requires
        ray.wf(),
        !ray.is_still(),
        ray.gets_to(n),
        forall|k: nat| k < n ==> !solid_at(base, edits, #[trigger] ray.voxel_after(k)),
    ensures
        is_unit(ray.entry_normal(n)),
        n > 0 ==> {
            let v = ray.voxel_after(n);
            let face = ray.entry_normal(n);
            let target = ((v.0 + face.x) as i32, (v.1 + face.y) as i32, (v.2 + face.z) as i32);
            &&& target == ray.voxel_after((n - 1) as nat)
            &&& !solid_at(base, edits, target)
        },
{
    if n > 0 {
        let m = (n - 1) as nat;
        let c = ray.crossed(m);
        assert(ray.gets_to(m));
        lemma_crossed_bound(ray, m);
        lemma_crossed_bound(ray, n);
        assert(ray.reach(n) <= ray.max_t);
        lemma_next(ray.step.x as int, c.x as int, ray.tx@.len() - 1);
        lemma_next(ray.step.y as int, c.y as int, ray.ty@.len() - 1);
        lemma_next(ray.step.z as int, c.z as int, ray.tz@.len() - 1);
        let d = ray.crossed(n);
        lemma_next(ray.step.x as int, d.x as int, ray.tx@.len() - 1);
        lemma_next(ray.step.y as int, d.y as int, ray.ty@.len() - 1);
        lemma_next(ray.step.z as int, d.z as int, ray.tz@.len() - 1);
        assert(d == (match ray.next_axis(c) {
            Axis::X => Crossed { x: c.x + 1, y: c.y, z: c.z },
            Axis::Y => Crossed { x: c.x, y: c.y + 1, z: c.z },
            Axis::Z => Crossed { x: c.x, y: c.y, z: c.z + 1 },
        }));
        assert(!solid_at(base, edits, ray.voxel_after(m)));
    }
}

/// Whether a vector is a step of one on one axis.
pub open spec fn is_unit(v: IVec3) -> bool {
    ||| (v.x == 1 || v.x == -1) && v.y == 0 && v.z == 0
    ||| v.x == 0 && (v.y == 1 || v.y == -1) && v.z == 0
    ||| v.x == 0 && v.y == 0 && (v.z == 1 || v.z == -1)
}

/// Crossings up to the ray's end are of faces before the last that it has on each axis.
proof fn lemma_crossed_bound(ray: VoxelRay, n: nat)
    requires
        ray.wf(),
        ray.gets_to(n),
    ensures
        ray.crossed(n).x < ray.tx@.len(),
        ray.crossed(n).y < ray.ty@.len(),
        ray.crossed(n).z < ray.tz@.len(),
        ray.crossed(n).x + ray.crossed(n).y + ray.crossed(n).z == n,
    decreases n,
{
    if n > 0 {
        let m = (n - 1) as nat;
        assert(ray.gets_to(m));
        lemma_crossed_bound(ray, m);
        assert(ray.reach(n) <= ray.max_t);
    }
}

/// A ray looks at every voxel on its way: the last that it gets to is behind all the faces within its distance, on
/// every axis. The number of voxels on its way is that of those faces, and one.
pub proof fn law_ray_crosses_every_face(ray: VoxelRay, n: nat)
    requires
        ray.wf(),
        ray.gets_to(n),
        !ray.gets_to(n + 1),
    ensures
        forall|i: int| 0 <= i < ray.tx@.len() ==> (#[trigger] ray.tx@[i] <= ray.max_t <==> i < ray.crossed(n).x),
        forall|i: int| 0 <= i < ray.ty@.len() ==> (#[trigger] ray.ty@[i] <= ray.max_t <==> i < ray.crossed(n).y),
        forall|i: int| 0 <= i < ray.tz@.len() ==> (#[trigger] ray.tz@[i] <= ray.max_t <==> i < ray.crossed(n).z),
        ray.crossed(n).x + ray.crossed(n).y + ray.crossed(n).z == n,
{
    lemma_crossed_bound(ray, n);
    lemma_crossed_within(ray, n);
    let c = ray.crossed(n);
    let k = choose|k: nat| k <= n + 1 && #[trigger] ray.reach(k) > ray.max_t;
    assert(k == n + 1) by {
        if k <= n {
            assert(ray.reach(k) <= ray.max_t);
        }
    }
    assert(ray.tx@[c.x as int] > ray.max_t && ray.ty@[c.y as int] > ray.max_t && ray.tz@[c.z as int] > ray.max_t);
}

/// The faces that were crossed are within the ray's distance.
proof fn lemma_crossed_within(ray: VoxelRay, n: nat)
    requires
        ray.wf(),
        ray.gets_to(n),
    ensures
        forall|i: int| 0 <= i < ray.crossed(n).x ==> #[trigger] ray.tx@[i] <= ray.max_t,
        forall|i: int| 0 <= i < ray.crossed(n).y ==> #[trigger] ray.ty@[i] <= ray.max_t,
        forall|i: int| 0 <= i < ray.crossed(n).z ==> #[trigger] ray.tz@[i] <= ray.max_t,
    decreases n,
{
    if n > 0 {
        assert(ray.gets_to((n - 1) as nat));
        lemma_crossed_within(ray, (n - 1) as nat);
        assert(ray.reach(n) <= ray.max_t);
    }
}

/// A ray crosses faces in the order of their distances.
pub proof fn law_ray_distances_ascend(ray: VoxelRay, n: nat)
    requires
        ray.wf(),
        0 < n,
        ray.gets_to(n),
    ensures
        ray.reach(n) <= ray.reach(n + 1),
{
    let m = (n - 1) as nat;
    assert(ray.gets_to(m));
    lemma_crossed_bound(ray, m);
    lemma_crossed_bound(ray, n);
    assert(ray.crossed(n) == ray.crossed((n + 1 - 1) as nat));
}

/// The layer of overrides: a voxel that a block was placed at shows it, one that was dug out is air, one whose override
/// was taken back shows the scene again, and no other voxel changes. The counter changes with each of them.
pub proof fn law_an_edit_shows_at_its_voxel(edits: Map<Cell, BlockId>, v: Cell, w: Cell, block: BlockId, base: BlockId, n: u64)
    ensures
        resolved(with_block(edits, v, block), v, base) == block,
        resolved(dug_out(edits, v), v, base) == BlockId(0),
        resolved(taken_back(edits, v), v, base) == base,
        resolved(Map::empty(), v, base) == base,
        w != v ==> resolved(with_block(edits, v, block), w, base) == resolved(edits, w, base),
        w != v ==> resolved(dug_out(edits, v), w, base) == resolved(edits, w, base),
        w != v ==> resolved(taken_back(edits, v), w, base) == resolved(edits, w, base),
        with_block(edits, v, block).dom().contains(v) && dug_out(edits, v).dom().contains(v),
        !taken_back(edits, v).dom().contains(v),
        w != v ==> with_block(edits, v, block).dom().contains(w) == edits.dom().contains(w),
        w != v ==> dug_out(edits, v).dom().contains(w) == edits.dom().contains(w),
        w != v ==> taken_back(edits, v).dom().contains(w) == edits.dom().contains(w),
        bumped(n) != n,
        n < 0xFFFF_FFFF_FFFF_FFFF ==> bumped(n) == n + 1,
        bumped(0xFFFF_FFFF_FFFF_FFFF) == 0,
{
}

/// A brick with overrides laid over it: its voxel at `(x, y, z)` is what was placed or dug at world voxel
/// `8 * c + (x, y, z)`, and otherwise its own.
pub proof fn law_overlay_meets_the_voxels(
    c: Cell,
    base: Seq<BlockId>,
    edits: Map<Cell, BlockId>,
    x: int,
    y: int,
    z: int,
    v: Cell,
)
    requires
        0 <= x < 8 && 0 <= y < 8 && 0 <= z < 8,
        v.0 == 8 * c.0 + x && v.1 == 8 * c.1 + y && v.2 == 8 * c.2 + z,
    ensures
        overlaid(c, base, edits).len() == 512,
        edits.dom().contains(v) ==> overlaid(c, base, edits)[x + 8 * y + 64 * z] == edits[v],
        !edits.dom().contains(v) ==> overlaid(c, base, edits)[x + 8 * y + 64 * z] == base[x + 8 * y + 64 * z],
{
    let i = x + 8 * y + 64 * z;
    assert(i % 8 == x && (i / 8) % 8 == y && i / 64 == z);
}

/// What is solid in the overlaid world: a voxel that a block was placed at, or a solid one of the scene that was not dug
/// out.
pub proof fn law_solid_voxels(base: Map<Cell, Seq<BlockId>>, edits: Map<Cell, BlockId>, v: Cell)
    ensures
        edits.dom().contains(v) ==> (solid_at(base, edits, v) <==> edits[v] != BlockId(0)),
        !edits.dom().contains(v) ==> (solid_at(base, edits, v) <==> world_block(base, v) != BlockId(0)),
{
}

/// The bricks that an edit makes dirty are those with the voxel in them or next to them: along each axis its own, and
/// for a voxel on a face the one behind that face too.
pub proof fn law_dirty_bricks(c: Cell, v: Cell)
    ensures
        reads_voxel(c, v) <==> {
            &&& c.0 == v.0 as int / 8 || (c.0 == v.0 as int / 8 - 1 && v.0 as int % 8 == 0) || (c.0 == v.0 as int / 8 + 1
                && v.0 as int % 8 == 7)
            &&& c.1 == v.1 as int / 8 || (c.1 == v.1 as int / 8 - 1 && v.1 as int % 8 == 0) || (c.1 == v.1 as int / 8 + 1
                && v.1 as int % 8 == 7)
            &&& c.2 == v.2 as int / 8 || (c.2 == v.2 as int / 8 - 1 && v.2 as int % 8 == 0) || (c.2 == v.2 as int / 8 + 1
                && v.2 as int % 8 == 7)
        },
{
}

/// A ray steps from voxel to voxel: it begins in its first, and each crossing is of the face that is nearest among the
/// next ones on the three axes; among equally near ones z comes before y and y before x. The crossing takes it one step
/// along that axis alone, and it enters by the face that looks back at where it came from.
pub proof fn law_ray_steps_through_the_nearest_face(ray: VoxelRay, n: nat)
    requires
        ray.wf(),
        ray.gets_to(n + 1),
    ensures
        ray.voxel_after(0) == ray.start@,
        ray.reach(0) == ray.t0,
        ray.crossed(0) == (Crossed { x: 0, y: 0, z: 0 }),
        ({
            let c = ray.crossed(n);
            let (tx, ty, tz) = (ray.tx@[c.x as int], ray.ty@[c.y as int], ray.tz@[c.z as int]);
            let v = ray.voxel_after(n);
            let w = ray.voxel_after(n + 1);
            let t = ray.reach(n + 1);
            &&& t <= tx && t <= ty && t <= tz
            &&& t == tz && !(tx < tz && tx < ty) && !(ty < tz) ==> {
                &&& ray.crossed(n + 1) == (Crossed { x: c.x, y: c.y, z: c.z + 1 })
                &&& w.0 == v.0 && w.1 == v.1 && w.2 == v.2 + ray.step.z
                &&& ray.entry_normal(n + 1)@ == (0i32, 0i32, (-ray.step.z) as i32)
            }
            &&& ty < tz && ty <= tx ==> {
                &&& t == ty
                &&& ray.crossed(n + 1) == (Crossed { x: c.x, y: c.y + 1, z: c.z })
                &&& w.0 == v.0 && w.1 == v.1 + ray.step.y && w.2 == v.2
                &&& ray.entry_normal(n + 1)@ == (0i32, (-ray.step.y) as i32, 0i32)
            }
            &&& tx < ty && tx < tz ==> {
                &&& t == tx
                &&& ray.crossed(n + 1) == (Crossed { x: c.x + 1, y: c.y, z: c.z })
                &&& w.0 == v.0 + ray.step.x && w.1 == v.1 && w.2 == v.2
                &&& ray.entry_normal(n + 1)@ == ((-ray.step.x) as i32, 0i32, 0i32)
            }
        }),
        ray.dominant == Axis::X ==> ray.entry_normal(0)@ == ((-ray.step.x) as i32, 0i32, 0i32),
        ray.dominant == Axis::Y ==> ray.entry_normal(0)@ == (0i32, (-ray.step.y) as i32, 0i32),
        ray.dominant == Axis::Z ==> ray.entry_normal(0)@ == (0i32, 0i32, (-ray.step.z) as i32),
{
    let c = ray.crossed(n);
    let d = ray.crossed(n + 1);
    assert(ray.gets_to(n));
    lemma_crossed_bound(ray, n);
    lemma_crossed_bound(ray, n + 1);
    assert(c == ray.crossed((n + 1 - 1) as nat));
    lemma_next(ray.step.x as int, c.x as int, ray.tx@.len() - 1);
    lemma_next(ray.step.y as int, c.y as int, ray.ty@.len() - 1);
    lemma_next(ray.step.z as int, c.z as int, ray.tz@.len() - 1);
    lemma_next(ray.step.x as int, d.x as int, ray.tx@.len() - 1);
    lemma_next(ray.step.y as int, d.y as int, ray.ty@.len() - 1);
    lemma_next(ray.step.z as int, d.z as int, ray.tz@.len() - 1);
    assert(ray.step.x * 0 == 0 && ray.step.y * 0 == 0 && ray.step.z * 0 == 0);
}

/// A block is placed one step along the normal of the face from the voxel that was hit, and so next to it.
pub proof fn law_place_target(hit: VoxelHit)
    requires
        is_unit(hit.normal),
        i32::MIN < hit.voxel.x < i32::MAX && i32::MIN < hit.voxel.y < i32::MAX && i32::MIN < hit.voxel.z < i32::MAX,
    ensures
        hit.in_front().0 - hit.voxel.x == hit.normal.x,
        hit.in_front().1 - hit.voxel.y == hit.normal.y,
        hit.in_front().2 - hit.voxel.z == hit.normal.z,
        hit.in_front() != hit.voxel@,
{
}

/// A store has a brick just where the brick is not all air: then it has its very blocks.
pub proof fn law_stored_bricks(bricks: Map<Cell, Seq<BlockId>>, c: Cell, blocks: Seq<BlockId>)
    requires
        holds_brick(bricks, c, blocks),
    ensures
        bricks.dom().contains(c) <==> exists|i: int| 0 <= i < blocks.len() && (#[trigger] blocks[i]).0 != 0,
        bricks.dom().contains(c) ==> bricks[c] == blocks,
{
    if !all_are(blocks, BlockId::air()) {
        let i = choose|i: int| 0 <= i < blocks.len() && blocks[i] != BlockId::air();
        assert(blocks[i].0 != 0);
    }
}

} // verus!
