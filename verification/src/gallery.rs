//! The gallery: several voxel scenes side by side in one world.
//!
//! Each scene is moved by a brick offset into a region of its own and keeps its own blocks: the palettes
//! are joined, and the block ids of a scene are shifted to where its palette begins.

use crate::brickmap::{all_are, voxel_at, Brick, BrickMap, BRICK_VOXELS};
use crate::edits::lemma_iter_finds;
use crate::math::{floor_div8, Cell, IVec3};
use crate::palette::{air_look, BlockId, BlockLook, BlockRegistry};
use crate::text::same_text;
use vstd::prelude::*;

verus! {

/// The gap between neighbouring scenes, in bricks.
pub const GALLERY_GAP_BRICKS: i32 = 8;

/// One scene of the gallery row: its assets, and where it goes.
#[derive(Clone, Copy, Debug)]
pub struct GalleryEntry {
    /// The path of the asset that is loaded whole.
    pub vox_path: &'static str,
    /// The path of the asset that is streamed.
    pub vxo_path: &'static str,
    /// Where the scene goes, in bricks, or `None` to place it past the scene before it.
    pub offset: Option<IVec3>,
    /// The scene's name.
    pub label: &'static str,
}

/// A scene that has been loaded.
#[derive(Debug)]
pub struct LoadedScene {
    pub map: BrickMap,
    /// The scene's own blocks.
    pub registry: BlockRegistry,
    /// Where the scene goes, in bricks, or `None` to place it past the scene before it.
    pub offset: Option<IVec3>,
    /// The scene's name.
    pub label: String,
}

/// Whether the box from `lo` to `hi` is the smallest that holds the cells: each side touches one.
pub open spec fn is_bounds(cells: Set<Cell>, lo: Cell, hi: Cell) -> bool {
    &&& forall|c: Cell| #[trigger]
        cells.contains(c) ==> lo.0 <= c.0 <= hi.0 && lo.1 <= c.1 <= hi.1 && lo.2 <= c.2 <= hi.2
    &&& exists|c: Cell| #[trigger] cells.contains(c) && c.0 == lo.0
    &&& exists|c: Cell| #[trigger] cells.contains(c) && c.0 == hi.0
    &&& exists|c: Cell| #[trigger] cells.contains(c) && c.1 == lo.1
    &&& exists|c: Cell| #[trigger] cells.contains(c) && c.1 == hi.1
    &&& exists|c: Cell| #[trigger] cells.contains(c) && c.2 == lo.2
    &&& exists|c: Cell| #[trigger] cells.contains(c) && c.2 == hi.2
}

/// The smallest box of bricks that holds a store, or `None` for an empty store.
pub fn brickmap_brick_bounds(map: &BrickMap) -> (r: Option<(IVec3, IVec3)>)
    requires
        map.wf(),
    ensures
        r is None == (map@.dom() == Set::<Cell>::empty()),
        r matches Some((lo, hi)) ==> is_bounds(map@.dom(), lo@, hi@),
{
    let cs: Vec<Cell> = map.coords();
    if cs.len() == 0 {
        assert(map@.dom() =~= Set::<Cell>::empty()) by {
            assert forall|c: Cell| !map@.dom().contains(c) by {
                assert(map@.dom().contains(c) == cs@.contains(c));
            }
        }
        return None;
    }
    let mut lo: IVec3 = IVec3::of_cell(cs[0]);
    let mut hi: IVec3 = lo;
    let ghost dom = map@.dom();
    let mut i: usize = 1;
    assert(cs@.contains(cs@[0]));
    assert(dom.contains(cs@[0]));
    while i < cs.len()
        invariant
            1 <= i <= cs@.len(),
            forall|c: Cell| #[trigger] dom.contains(c) <==> cs@.contains(c),
            forall|k: int|
                0 <= k < i ==> lo.x <= (#[trigger] cs@[k]).0 <= hi.x && lo.y <= cs@[k].1 <= hi.y && lo.z
                    <= cs@[k].2 <= hi.z,
            exists|c: Cell| #[trigger] dom.contains(c) && c.0 == lo.x,
            exists|c: Cell| #[trigger] dom.contains(c) && c.0 == hi.x,
            exists|c: Cell| #[trigger] dom.contains(c) && c.1 == lo.y,
            exists|c: Cell| #[trigger] dom.contains(c) && c.1 == hi.y,
            exists|c: Cell| #[trigger] dom.contains(c) && c.2 == lo.z,
            exists|c: Cell| #[trigger] dom.contains(c) && c.2 == hi.z,
        decreases cs@.len() - i,
    {
        let v: IVec3 = IVec3::of_cell(cs[i]);
        assert(cs@.contains(cs@[i as int]));
        assert(dom.contains(v@));
        lo = lo.lower(v);
        hi = hi.upper(v);
        i = i + 1;
    }
    assert forall|c: Cell| #[trigger] dom.contains(c) implies lo.x <= c.0 <= hi.x && lo.y <= c.1 <= hi.y && lo.z
        <= c.2 <= hi.z by {
        let k = choose|k: int| 0 <= k < cs@.len() && cs@[k] == c;
    }
    proof {
        assert(!(dom =~= Set::<Cell>::empty()));
    }
    Some((lo, hi))
}

/// Cells have one smallest box.
pub proof fn law_bounds_unique(cells: Set<Cell>, lo: Cell, hi: Cell, lo2: Cell, hi2: Cell)
    requires
        is_bounds(cells, lo, hi),
        is_bounds(cells, lo2, hi2),
    ensures
        lo == lo2,
        hi == hi2,
{
}

/// The sum of two cells.
pub open spec fn cell_sum(a: Cell, b: Cell) -> Cell {
    ((a.0 + b.0) as i32, (a.1 + b.1) as i32, (a.2 + b.2) as i32)
}

/// The difference of two cells.
pub open spec fn cell_diff(a: Cell, b: Cell) -> Cell {
    ((a.0 - b.0) as i32, (a.1 - b.1) as i32, (a.2 - b.2) as i32)
}

/// Whether the sum of two cells has coordinates of 32 bits.
pub open spec fn sum_fits(a: Cell, b: Cell) -> bool {
    &&& i32::MIN <= a.0 + b.0 <= i32::MAX
    &&& i32::MIN <= a.1 + b.1 <= i32::MAX
    &&& i32::MIN <= a.2 + b.2 <= i32::MAX
}

/// A block with its id shifted. Air stays air.
pub open spec fn shifted_block(b: BlockId, shift: u16) -> BlockId {
    if b == BlockId::air() {
        b
    } else {
        BlockId((b.0 + shift) as u16)
    }
}

/// The blocks of a brick with their ids shifted.
pub open spec fn shifted_blocks(blocks: Seq<BlockId>, shift: u16) -> Seq<BlockId> {
    blocks.map_values(|b: BlockId| shifted_block(b, shift))
}

/// Whether every shifted block of a store has an id of 16 bits, and every moved brick a place.
pub open spec fn move_fits(bricks: Map<Cell, Seq<BlockId>>, offset: Cell, shift: u16) -> bool {
    forall|c: Cell| #[trigger]
        bricks.dom().contains(c) ==> sum_fits(c, offset) && (forall|i: int|
            0 <= i < 512 ==> (#[trigger] bricks[c][i]).0 + shift <= 0xFFFF)
}

/// A store with its bricks moved by an offset and its block ids shifted.
pub open spec fn moved_bricks(bricks: Map<Cell, Seq<BlockId>>, offset: Cell, shift: u16) -> Map<Cell, Seq<BlockId>> {
    Map::new(
        |d: Cell| exists|c: Cell| #[trigger] bricks.dom().contains(c) && cell_sum(c, offset) == d,
        |d: Cell| shifted_blocks(bricks[cell_diff(d, offset)], shift),
    )
}

fn shift_brick(brick: &Brick, shift: u16) -> (out: Brick)
    requires
        brick.wf(),
        forall|i: int| 0 <= i < 512 ==> (#[trigger] brick@[i]).0 + shift <= 0xFFFF,
    ensures
        out.wf(),
        out@ == shifted_blocks(brick@, shift),
{
    let mut voxels: [BlockId; BRICK_VOXELS] = [BlockId::air();BRICK_VOXELS];
    let mut i: usize = 0;
    while i < BRICK_VOXELS
        invariant
            i <= 512,
            brick.wf(),
            forall|k: int| 0 <= k < 512 ==> (#[trigger] brick@[k]).0 + shift <= 0xFFFF,
            voxels@.len() == 512,
            forall|k: int| 0 <= k < i ==> #[trigger] voxels@[k] == shifted_block(brick@[k], shift),
            forall|k: int| i <= k < 512 ==> #[trigger] voxels@[k] == BlockId::air(),
        decreases 512 - i,
    {
        let b: BlockId = brick.get((i % 8) as i32, ((i / 8) % 8) as i32, (i / 64) as i32);
        assert(voxel_at(i as int % 8, (i as int / 8) % 8, i as int / 64) == i);
        if !b.is_air() {
            voxels[i] = BlockId(b.0 + shift);
        }
        i = i + 1;
    }
    proof {
        brick.lemma_len();
        assert(voxels@ =~= shifted_blocks(brick@, shift));
    }
    Brick::from_voxels(Box::new(voxels))
}

/// Put a scene's bricks into a store, moved by `offset` and with the block ids shifted. Where the store
/// has a brick already, the scene's takes its place.
pub fn merge_brickmap_into(merged: &mut BrickMap, scene: &BrickMap, offset: IVec3, palette_base: u16)
    requires
        old(merged).wf(),
        scene.wf(),
        move_fits(scene@, offset@, palette_base),
    ensures
        final(merged).wf(),
        final(merged)@ == old(merged)@.union_prefer_right(moved_bricks(scene@, offset@, palette_base)),
{
    let list: Vec<(IVec3, &Brick)> = scene.iter();
    let ghost base = merged@;
    let mut i: usize = 0;
    while i < list.len()
        invariant
            i <= list@.len(),
            base == old(merged)@,
            merged.wf(),
            scene.wf(),
            move_fits(scene@, offset@, palette_base),
            forall|k: int|
                0 <= k < list@.len() ==> (#[trigger] list@[k]).1.wf() && scene@.dom().contains(list@[k].0@)
                    && list@[k].1@ == scene@[list@[k].0@],
            forall|a: int, b: int|
                0 <= a < b < list@.len() ==> (#[trigger] list@[a]).0@ != (#[trigger] list@[b]).0@,
            forall|d: Cell| #[trigger] merged@.dom().contains(d) <==> base.dom().contains(d) || arrived(list@, i as int, offset@, d),
            forall|d: Cell| #[trigger]
                merged@.dom().contains(d) ==> merged@[d] == (if arrived(list@, i as int, offset@, d) {
                    shifted_blocks(scene@[cell_diff(d, offset@)], palette_base)
                } else {
                    base[d]
                }),
        decreases list@.len() - i,
    {
        let c: IVec3 = list[i].0;
        let brick: &Brick = list[i].1;
        assert(scene@.dom().contains(c@));
        let dst: IVec3 = c.plus(offset);
        assert(dst@ == cell_sum(c@, offset@));
        assert(cell_diff(dst@, offset@) == c@);
        let out: Brick = shift_brick(brick, palette_base);
        let ghost before = merged@;
        let ghost blocks = out@;
        proof {
            scene.lemma_view();
            brick.lemma_len();
            assert(!all_are(blocks, BlockId::air())) by {
                let k = choose|k: int| 0 <= k < brick@.len() && brick@[k] != BlockId::air();
                assert(blocks[k] == shifted_block(brick@[k], palette_base));
            }
        }
        let _stored: bool = merged.insert(dst, out);
        proof {
            assert forall|d: Cell| #[trigger] arrived(list@, i + 1, offset@, d) <==> arrived(
                list@,
                i as int,
                offset@,
                d,
            ) || d == dst@ by {
                if arrived(list@, i + 1, offset@, d) {
                    let k = choose|k: int| 0 <= k < i + 1 && cell_sum((#[trigger] list@[k]).0@, offset@) == d;
                    if k < i {
                        assert(cell_sum(list@[k].0@, offset@) == d);
                    }
                }
                if arrived(list@, i as int, offset@, d) {
                    let k = choose|k: int| 0 <= k < i && cell_sum((#[trigger] list@[k]).0@, offset@) == d;
                    assert(cell_sum(list@[k].0@, offset@) == d);
                }
                if d == dst@ {
                    assert(cell_sum(list@[i as int].0@, offset@) == d);
                }
            }
            assert forall|d: Cell| #[trigger]
                merged@.dom().contains(d) <==> base.dom().contains(d) || arrived(list@, i + 1, offset@, d) by {
                assert(before.dom().contains(d) <==> base.dom().contains(d) || arrived(
                    list@,
                    i as int,
                    offset@,
                    d,
                ));
            }
            assert forall|d: Cell| #[trigger] merged@.dom().contains(d) implies merged@[d] == (if arrived(
                list@,
                i + 1,
                offset@,
                d,
            ) {
                shifted_blocks(scene@[cell_diff(d, offset@)], palette_base)
            } else {
                base[d]
            }) by {
                if d != dst@ {
                    assert(before.dom().contains(d));
                }
            }
        }
        i = i + 1;
    }
    proof {
        scene.lemma_view();
        let extra = moved_bricks(scene@, offset@, palette_base);
        assert forall|d: Cell| #[trigger] arrived(list@, list@.len() as int, offset@, d) <==> extra.dom().contains(
            d,
        ) by {
            if arrived(list@, list@.len() as int, offset@, d) {
                let k = choose|k: int| 0 <= k < list@.len() && cell_sum((#[trigger] list@[k]).0@, offset@) == d;
                assert(scene@.dom().contains(list@[k].0@));
            }
            if extra.dom().contains(d) {
                let c = choose|c: Cell| #[trigger] scene@.dom().contains(c) && cell_sum(c, offset@) == d;
                lemma_iter_finds(scene@, list@, c);
                let k = choose|k: int| 0 <= k < list@.len() && (#[trigger] list@[k]).0@ == c;
                assert(cell_sum(list@[k].0@, offset@) == d);
            }
        }
        assert(merged@ =~= base.union_prefer_right(extra));
    }
}

/// Whether one of the first `n` bricks of the list goes to `d`.
spec fn arrived(list: Seq<(IVec3, &Brick)>, n: int, offset: Cell, d: Cell) -> bool {
    exists|k: int| 0 <= k < n && cell_sum((#[trigger] list[k]).0@, offset) == d
}

/// A gallery in the making: the bricks so far, the blocks so far, the column where the next scene may
/// begin, and whether the block ids have run out.
#[verifier::ext_equal]
pub struct Merge {
    pub bricks: Map<Cell, Seq<BlockId>>,
    pub looks: Seq<BlockLook>,
    pub cursor: int,
    pub full: bool,
}

/// The smallest box of the cells.
pub open spec fn bounds_of(cells: Set<Cell>) -> (Cell, Cell) {
    choose|b: (Cell, Cell)| #[trigger] is_bounds(cells, b.0, b.1)
}

/// Where a scene goes: at its own offset, or with its first column at `cursor`.
pub open spec fn offset_of(s: LoadedScene, cursor: int) -> Cell {
    match s.offset {
        Some(o) => o@,
        None => ((cursor - bounds_of(s.map@.dom()).0.0) as i32, 0i32, 0i32),
    }
}

/// Whether the blocks of a scene find ids after those of the scenes before it.
pub open spec fn ids_suffice(looks: Seq<BlockLook>, s: LoadedScene) -> bool {
    looks.len() + s.registry@.len() - 2 <= 0xFFFF
}

/// Whether a scene takes its place in the gallery.
pub open spec fn takes_place(m: Merge, s: LoadedScene) -> bool {
    !m.full && s.map@.dom() != Set::<Cell>::empty() && ids_suffice(m.looks, s)
}

/// The shift of a scene's block ids.
pub open spec fn shift_of(m: Merge) -> u16 {
    (m.looks.len() - 1) as u16
}

/// The gallery after one more scene. An empty scene is left out; one whose blocks find no ids ends the
/// gallery.
pub open spec fn merge_step(m: Merge, s: LoadedScene) -> Merge {
    if m.full || s.map@.dom() == Set::<Cell>::empty() {
        m
    } else if !ids_suffice(m.looks, s) {
        Merge { full: true, ..m }
    } else {
        let offset = offset_of(s, m.cursor);
        Merge {
            bricks: m.bricks.union_prefer_right(moved_bricks(s.map@, offset, shift_of(m))),
            looks: m.looks + s.registry@.skip(1),
            cursor: bounds_of(s.map@.dom()).1.0 + offset.0 + 1 + GALLERY_GAP_BRICKS,
            full: false,
        }
    }
}

/// The gallery after the first `n` scenes. It begins empty, with air alone and the first column at zero.
pub open spec fn gallery_of(scenes: Seq<LoadedScene>, n: nat) -> Merge
    decreases n,
{
    if n == 0 {
        Merge {
            bricks: Map::empty(),
            looks: seq![air_look()],
            cursor: 0,
            full: false,
        }
    } else {
        merge_step(gallery_of(scenes, (n - 1) as nat), scenes[n - 1])
    }
}

/// Whether a scene that takes its place has coordinates of 32 bits there and ids of 16.
pub open spec fn scene_fits(m: Merge, s: LoadedScene) -> bool {
    let (lo, hi) = bounds_of(s.map@.dom());
    let offset = offset_of(s, m.cursor);
    &&& (s.offset is None ==> i32::MIN <= m.cursor - lo.0 <= i32::MAX)
    &&& hi.0 + offset.0 + 1 + GALLERY_GAP_BRICKS <= i32::MAX
    &&& move_fits(s.map@, offset, shift_of(m))
}

/// Merge the scenes side by side into one store and one registry.
pub fn merge_scenes(scenes: Vec<LoadedScene>) -> (r: (BrickMap, BlockRegistry))
    requires
        forall|i: int| 0 <= i < scenes@.len() ==> (#[trigger] scenes@[i]).map.wf() && scenes@[i].registry.wf(),
        forall|i: int|
            0 <= i < scenes@.len() && takes_place(gallery_of(scenes@, i as nat), #[trigger] scenes@[i])
                ==> scene_fits(gallery_of(scenes@, i as nat), scenes@[i]),
    ensures
        r.0.wf(),
        r.1.wf(),
        r.0@ == gallery_of(scenes@, scenes@.len()).bricks,
        r.1@ == gallery_of(scenes@, scenes@.len()).looks,
{
    let mut map: BrickMap = BrickMap::new();
    let mut registry: BlockRegistry = BlockRegistry::air_only();
    let mut cursor: i32 = 0;
    let mut i: usize = 0;
    while i < scenes.len()
        invariant
            i <= scenes@.len(),
            forall|k: int|
                0 <= k < scenes@.len() ==> (#[trigger] scenes@[k]).map.wf() && scenes@[k].registry.wf(),
            forall|k: int|
                0 <= k < scenes@.len() && takes_place(gallery_of(scenes@, k as nat), #[trigger] scenes@[k])
                    ==> scene_fits(gallery_of(scenes@, k as nat), scenes@[k]),
            map.wf(),
            registry.wf(),
            1 <= registry@.len() <= 0x1_0000,
            (gallery_of(scenes@, i as nat) == Merge {
                bricks: map@,
                looks: registry@,
                cursor: cursor as int,
                full: false,
            }),
        decreases scenes@.len() - i,
    {
        let scene: &LoadedScene = &scenes[i];
        let ghost m = gallery_of(scenes@, i as nat);
        assert(scenes@[i as int] == *scene);
        assert(gallery_of(scenes@, (i + 1) as nat) == merge_step(m, *scene));
        proof {
            scene.registry.lemma_nonempty();
        }
        match brickmap_brick_bounds(&scene.map) {
            None => {},
            Some((lo, hi)) => {
                proof {
                    let b = bounds_of(scene.map@.dom());
                    assert(is_bounds(scene.map@.dom(), (lo@, hi@).0, (lo@, hi@).1));
                    law_bounds_unique(scene.map@.dom(), lo@, hi@, b.0, b.1);
                }
                let base: usize = registry.len();
                let solid: usize = scene.registry.len() - 1;
                if solid > 0x1_0000 - base {
                    proof {
                        lemma_full_stays(scenes@, (i + 1) as nat, scenes@.len());
                    }
                    return (map, registry);
                }
                assert(takes_place(m, *scene));
                assert(scene_fits(m, *scene));
                let offset: IVec3 = match scene.offset {
                    Some(o) => o,
                    None => IVec3 { x: cursor - lo.x, y: 0, z: 0 },
                };
                assert(offset@ == offset_of(*scene, cursor as int));
                let shift: u16 = (base - 1) as u16;
                proof {
                    assert(scene.map@.dom().contains(choose|c: Cell| #[trigger]
                        scene.map@.dom().contains(c) && c.0 == hi.x));
                }
                registry.extend_blocks_from(&scene.registry);
                merge_brickmap_into(&mut map, &scene.map, offset, shift);
                cursor = hi.x + offset.x + 1 + GALLERY_GAP_BRICKS;
            },
        }
        i = i + 1;
    }
    (map, registry)
}

/// Once the ids have run out, no further scene changes the gallery.
proof fn lemma_full_stays(scenes: Seq<LoadedScene>, n: nat, k: nat)
    requires
        n <= k,
        gallery_of(scenes, n).full,
    ensures
        gallery_of(scenes, k) == gallery_of(scenes, n),
    decreases k,
{
    if k > n {
        lemma_full_stays(scenes, n, (k - 1) as nat);
    }
}

/// Whether all of the first `n` scenes are placed one past the other.
pub open spec fn auto_spaced(scenes: Seq<LoadedScene>, n: nat) -> bool {
    forall|i: int| 0 <= i < n ==> (#[trigger] scenes[i]).offset is None
}

/// Whether each of the first `n` scenes that takes its place fits there.
pub open spec fn all_fit(scenes: Seq<LoadedScene>, n: nat) -> bool {
    forall|i: int|
        0 <= i < n && takes_place(gallery_of(scenes, i as nat), #[trigger] scenes[i]) ==> scene_fits(
            gallery_of(scenes, i as nat),
            scenes[i],
        )
}

/// A gallery never loses a block: what a scene's registry says of its own block, the joined registry says
/// of the block it was shifted to.
pub proof fn law_gallery_keeps_looks(scenes: Seq<LoadedScene>, n: nat, i: nat, b: BlockId)
    requires
        i < n <= scenes.len(),
        scenes[i as int].registry@.len() >= 1,
        takes_place(gallery_of(scenes, i), scenes[i as int]),
        1 <= b.0 < scenes[i as int].registry@.len(),
    ensures
        ({
            let moved = shifted_block(b, shift_of(gallery_of(scenes, i)));
            &&& moved.0 < gallery_of(scenes, n).looks.len()
            &&& gallery_of(scenes, n).looks[moved.0 as int] == scenes[i as int].registry@[b.0 as int]
        }),
{
    let m = gallery_of(scenes, i);
    lemma_looks_nonempty(scenes, i);
    assert(gallery_of(scenes, (i + 1) as nat) == merge_step(m, scenes[i as int]));
    lemma_looks_stay(scenes, (i + 1) as nat, n, (shift_of(m) + b.0) as nat);
}

proof fn lemma_looks_nonempty(scenes: Seq<LoadedScene>, n: nat)
    ensures
        gallery_of(scenes, n).looks.len() >= 1,
    decreases n,
{
    if n > 0 {
        lemma_looks_nonempty(scenes, (n - 1) as nat);
    }
}

proof fn lemma_looks_stay(scenes: Seq<LoadedScene>, n: nat, k: nat, j: nat)
    requires
        n <= k,
        j < gallery_of(scenes, n).looks.len(),
    ensures
        j < gallery_of(scenes, k).looks.len(),
        gallery_of(scenes, k).looks[j as int] == gallery_of(scenes, n).looks[j as int],
    decreases k,
{
    if k > n {
        lemma_looks_stay(scenes, n, (k - 1) as nat, j);
    }
}

/// Scenes placed one past the other never share a brick: each brick of a scene that took its place is in
/// the gallery, moved and with its block ids shifted.
pub proof fn law_gallery_keeps_bricks(scenes: Seq<LoadedScene>, n: nat, i: nat, c: Cell)
    requires
        i < n <= scenes.len(),
        auto_spaced(scenes, n),
        all_fit(scenes, n),
        forall|k: int| 0 <= k < scenes.len() ==> (#[trigger] scenes[k]).map.wf(),
        takes_place(gallery_of(scenes, i), scenes[i as int]),
        scenes[i as int].map@.dom().contains(c),
    ensures
        ({
            let m = gallery_of(scenes, i);
            let d = cell_sum(c, offset_of(scenes[i as int], m.cursor));
            &&& gallery_of(scenes, n).bricks.dom().contains(d)
            &&& gallery_of(scenes, n).bricks[d] == shifted_blocks(scenes[i as int].map@[c], shift_of(m))
        }),
{
    let m = gallery_of(scenes, i);
    let s = scenes[i as int];
    let o = offset_of(s, m.cursor);
    let d = cell_sum(c, o);
    assert(gallery_of(scenes, (i + 1) as nat) == merge_step(m, s));
    assert(scene_fits(m, s));
    assert(moved_bricks(s.map@, o, shift_of(m)).dom().contains(d));
    assert(cell_diff(d, o) == c);
    lemma_columns(scenes, (i + 1) as nat);
    lemma_bricks_stay(scenes, (i + 1) as nat, n, d);
}

/// A brick of the gallery stays as it is while further scenes are placed past it.
proof fn lemma_bricks_stay(scenes: Seq<LoadedScene>, n: nat, k: nat, d: Cell)
    requires
        n <= k <= scenes.len(),
        auto_spaced(scenes, k),
        all_fit(scenes, k),
        forall|j: int| 0 <= j < scenes.len() ==> (#[trigger] scenes[j]).map.wf(),
        gallery_of(scenes, n).bricks.dom().contains(d),
    ensures
        gallery_of(scenes, k).bricks.dom().contains(d),
        gallery_of(scenes, k).bricks[d] == gallery_of(scenes, n).bricks[d],
    decreases k,
{
    if k > n {
        let p = (k - 1) as nat;
        assert(auto_spaced(scenes, p));
        assert(all_fit(scenes, p));
        lemma_bricks_stay(scenes, n, p, d);
        lemma_columns(scenes, p);
        let m = gallery_of(scenes, p);
        let s = scenes[p as int];
        assert(s.offset is None);
        if takes_place(m, s) {
            assert(scene_fits(m, s));
            let o = offset_of(s, m.cursor);
            lemma_bounds_exist(s.map);
            let b = bounds_of(s.map@.dom());
            if moved_bricks(s.map@, o, shift_of(m)).dom().contains(d) {
                let c = choose|c: Cell| #[trigger] s.map@.dom().contains(c) && cell_sum(c, o) == d;
                assert(b.0.0 <= c.0);
            }
        }
    }
}

/// The bricks of a gallery of scenes placed one past the other lie before the column where the next may
/// begin, a gap apart.
proof fn lemma_columns(scenes: Seq<LoadedScene>, n: nat)
    requires
        n <= scenes.len(),
        auto_spaced(scenes, n),
        all_fit(scenes, n),
        forall|j: int| 0 <= j < scenes.len() ==> (#[trigger] scenes[j]).map.wf(),
    ensures
        forall|d: Cell| #[trigger]
            gallery_of(scenes, n).bricks.dom().contains(d) ==> d.0 + GALLERY_GAP_BRICKS < gallery_of(
                scenes,
                n,
            ).cursor,
    decreases n,
{
    if n > 0 {
        let p = (n - 1) as nat;
        assert(auto_spaced(scenes, p));
        assert(all_fit(scenes, p));
        lemma_columns(scenes, p);
        let m = gallery_of(scenes, p);
        let s = scenes[p as int];
        assert(s.offset is None);
        if takes_place(m, s) {
            assert(scene_fits(m, s));
            let o = offset_of(s, m.cursor);
            lemma_bounds_exist(s.map);
            let b = bounds_of(s.map@.dom());
            assert(b.0.0 <= b.1.0);
            assert forall|d: Cell| #[trigger] gallery_of(scenes, n).bricks.dom().contains(d) implies d.0
                + GALLERY_GAP_BRICKS < gallery_of(scenes, n).cursor by {
                if moved_bricks(s.map@, o, shift_of(m)).dom().contains(d) {
                    let c = choose|c: Cell| #[trigger] s.map@.dom().contains(c) && cell_sum(c, o) == d;
                    assert(c.0 <= b.1.0);
                } else {
                    assert(m.bricks.dom().contains(d));
                }
            }
        }
    }
}

/// A finite set of cells that is not empty has a smallest box.
proof fn lemma_bounds_exist(map: BrickMap)
    requires
        map.wf(),
        map@.dom() != Set::<Cell>::empty(),
    ensures
        is_bounds(map@.dom(), bounds_of(map@.dom()).0, bounds_of(map@.dom()).1),
{
    map.lemma_view();
    let dom = map@.dom();
    let (lo, hi) = lemma_finite_bounds(dom);
    assert(is_bounds(dom, (lo, hi).0, (lo, hi).1));
}

proof fn lemma_finite_bounds(dom: Set<Cell>) -> (r: (Cell, Cell))
    requires
        dom.finite(),
        dom != Set::<Cell>::empty(),
    ensures
        is_bounds(dom, r.0, r.1),
    decreases dom.len(),
{
    let c = dom.choose();
    assert(dom.contains(c)) by {
        if forall|d: Cell| !dom.contains(d) {
            assert(dom =~= Set::<Cell>::empty());
        }
    }
    let rest = dom.remove(c);
    if rest =~= Set::<Cell>::empty() {
        assert forall|d: Cell| #[trigger] dom.contains(d) implies d == c by {
            if d != c {
                assert(rest.contains(d));
            }
        }
        (c, c)
    } else {
        let (lo, hi) = lemma_finite_bounds(rest);
        let a = (
            if c.0 < lo.0 { c.0 } else { lo.0 },
            if c.1 < lo.1 { c.1 } else { lo.1 },
            if c.2 < lo.2 { c.2 } else { lo.2 },
        );
        let b = (
            if c.0 > hi.0 { c.0 } else { hi.0 },
            if c.1 > hi.1 { c.1 } else { hi.1 },
            if c.2 > hi.2 { c.2 } else { hi.2 },
        );
        assert forall|d: Cell| #[trigger] dom.contains(d) implies a.0 <= d.0 <= b.0 && a.1 <= d.1 <= b.1 && a.2
            <= d.2 <= b.2 by {
            if d != c {
                assert(rest.contains(d));
            }
        }
        let x0 = choose|d: Cell| #[trigger] rest.contains(d) && d.0 == lo.0;
        let x1 = choose|d: Cell| #[trigger] rest.contains(d) && d.0 == hi.0;
        let y0 = choose|d: Cell| #[trigger] rest.contains(d) && d.1 == lo.1;
        let y1 = choose|d: Cell| #[trigger] rest.contains(d) && d.1 == hi.1;
        let z0 = choose|d: Cell| #[trigger] rest.contains(d) && d.2 == lo.2;
        let z1 = choose|d: Cell| #[trigger] rest.contains(d) && d.2 == hi.2;
        assert(dom.contains(x0) && dom.contains(x1) && dom.contains(y0) && dom.contains(y1) && dom.contains(z0)
            && dom.contains(z1));
        (a, b)
    }
}

/// Pair the entries of the row with what was loaded for them, and merge those that loaded.
pub fn load_gallery(entries: &[GalleryEntry], loads: Vec<Option<(BrickMap, BlockRegistry)>>) -> (r: (
    BrickMap,
    BlockRegistry,
))
    requires
        loads@.len() == entries@.len(),
        forall|i: int| 0 <= i < loads@.len() ==> load_wf(#[trigger] loads@[i]),
        forall|scenes: Seq<LoadedScene>| #[trigger]
            is_loaded(entries@, loads@, entries@.len(), scenes) ==> all_fit(scenes, scenes.len()),
    ensures
        r.0.wf(),
        r.1.wf(),
        exists|scenes: Seq<LoadedScene>| #[trigger]
            is_loaded(entries@, loads@, entries@.len(), scenes) && r.0@ == gallery_of(scenes, scenes.len()).bricks
                && r.1@ == gallery_of(scenes, scenes.len()).looks,
{
    let mut rest: Vec<Option<(BrickMap, BlockRegistry)>> = loads;
    let mut scenes: Vec<LoadedScene> = Vec::new();
    let mut i: usize = 0;
    while i < entries.len()
        invariant
            i <= entries@.len(),
            loads@.len() == entries@.len(),
            rest@ == loads@.skip(i as int),
            forall|k: int| 0 <= k < loads@.len() ==> load_wf(#[trigger] loads@[k]),
            forall|k: int| 0 <= k < scenes@.len() ==> (#[trigger] scenes@[k]).map.wf() && scenes@[k].registry.wf(),
            is_loaded(entries@, loads@, i as nat, scenes@),
        decreases entries@.len() - i,
    {
        let ghost before = scenes@;
        let e: &GalleryEntry = &entries[i];
        let l: Option<(BrickMap, BlockRegistry)> = rest.remove(0);
        assert(l == loads@[i as int]);
        assert(rest@ =~= loads@.skip(i + 1));
        if let Some((map, registry)) = l {
            scenes.push(LoadedScene { map, registry, offset: e.offset, label: String::from_str(e.label) });
            assert(scenes@.drop_last() =~= before);
        }
        i = i + 1;
    }
    let ghost list = scenes@;
    assert(all_fit(list, list.len()));
    merge_scenes(scenes)
}

/// What was loaded for an entry, where it loaded, is well-formed.
pub open spec fn load_wf(l: Option<(BrickMap, BlockRegistry)>) -> bool {
    l matches Some((m, r)) ==> m.wf() && r.wf()
}

/// Whether the scenes are those of the first `n` entries that loaded, in order.
pub open spec fn is_loaded(
    entries: Seq<GalleryEntry>,
    loads: Seq<Option<(BrickMap, BlockRegistry)>>,
    n: nat,
    scenes: Seq<LoadedScene>,
) -> bool
    decreases n,
{
    if n == 0 {
        scenes.len() == 0
    } else {
        match loads[n - 1] {
            None => is_loaded(entries, loads, (n - 1) as nat, scenes),
            Some((map, registry)) => {
                &&& scenes.len() > 0
                &&& scenes.last().map == map
                &&& scenes.last().registry == registry
                &&& scenes.last().offset == entries[n - 1].offset
                &&& scenes.last().label@ == entries[n - 1].label@
                &&& is_loaded(entries, loads, (n - 1) as nat, scenes.drop_last())
            },
        }
    }
}

/// The first and the last brick column of an asset whose voxels span `bounds`, the upper end excluded.
pub open spec fn columns_of(bounds: (IVec3, IVec3)) -> (int, int) {
    (bounds.0.x as int / 8, (bounds.1.x - 1) / 8)
}

/// Where the first `n` streamed assets go, and the column where the next may begin. An asset that did not
/// open has no bounds and is left out.
pub open spec fn placements(entries: Seq<GalleryEntry>, bounds: Seq<Option<(IVec3, IVec3)>>, n: nat) -> (Seq<
    (Seq<char>, Cell),
>, int)
    decreases n,
{
    if n == 0 {
        (Seq::empty(), 0)
    } else {
        let (list, cursor) = placements(entries, bounds, (n - 1) as nat);
        match bounds[n - 1] {
            None => (list, cursor),
            Some(b) => {
                let offset = match entries[n - 1].offset {
                    Some(o) => o@,
                    None => ((cursor - columns_of(b).0) as i32, 0i32, 0i32),
                };
                (
                    list.push((entries[n - 1].vxo_path@, offset)),
                    columns_of(b).1 + offset.0 + 1 + GALLERY_GAP_BRICKS,
                )
            },
        }
    }
}

/// Whether the streamed asset `i` finds a place with coordinates of 32 bits.
pub open spec fn asset_fits(entries: Seq<GalleryEntry>, bounds: Seq<Option<(IVec3, IVec3)>>, i: int) -> bool {
    let cursor = placements(entries, bounds, i as nat).1;
    bounds[i] matches Some(b) ==> {
        &&& b.1.x > i32::MIN
        &&& entries[i].offset is None ==> i32::MIN <= cursor - columns_of(b).0 <= i32::MAX
        &&& i32::MIN <= placements(entries, bounds, (i + 1) as nat).1 <= i32::MAX
        &&& i32::MIN <= placements(entries, bounds, (i + 1) as nat).1 - 1 - GALLERY_GAP_BRICKS
    }
}

/// Where the streamed assets go: each one past the one before it, or at its own offset.
pub fn vxo_gallery_placements(entries: &[GalleryEntry], bounds: &Vec<Option<(IVec3, IVec3)>>) -> (r: Vec<
    (&'static str, IVec3),
>)
    requires
        bounds@.len() == entries@.len(),
        forall|i: int| 0 <= i < entries@.len() ==> #[trigger] asset_fits(entries@, bounds@, i),
    ensures
        r@.map_values(|p: (&'static str, IVec3)| (p.0@, p.1@)) == placements(entries@, bounds@, entries@.len()).0,
{
    let mut out: Vec<(&'static str, IVec3)> = Vec::new();
    let mut cursor: i32 = 0;
    let mut i: usize = 0;
    let ghost f = |p: (&'static str, IVec3)| (p.0@, p.1@);
    assert(out@.map_values(f) =~= Seq::<(Seq<char>, Cell)>::empty());
    while i < entries.len()
        invariant
            i <= entries@.len(),
            bounds@.len() == entries@.len(),
            forall|k: int| 0 <= k < entries@.len() ==> #[trigger] asset_fits(entries@, bounds@, k),
            f == (|p: (&'static str, IVec3)| (p.0@, p.1@)),
            out@.map_values(f) == placements(entries@, bounds@, i as nat).0,
            cursor == placements(entries@, bounds@, i as nat).1,
        decreases entries@.len() - i,
    {
        let e: &GalleryEntry = &entries[i];
        assert(asset_fits(entries@, bounds@, i as int));
        if let Some((lo, hi)) = bounds[i] {
            let lo_x: i32 = floor_div8(lo.x);
            let hi_x: i32 = floor_div8(hi.x - 1);
            assert(columns_of((lo, hi)) == (lo_x as int, hi_x as int));
            let offset: IVec3 = match e.offset {
                Some(o) => o,
                None => IVec3 { x: cursor - lo_x, y: 0, z: 0 },
            };
            let ghost before = out@;
            out.push((e.vxo_path, offset));
            assert(out@.map_values(f) =~= before.map_values(f).push((e.vxo_path@, offset@)));
            cursor = hi_x + offset.x + 1 + GALLERY_GAP_BRICKS;
        }
        i = i + 1;
    }
    out
}

/// Streamed assets placed one past the other march along x a gap apart: with the column where the next may
/// begin as a mark, an asset begins at the mark before it and ends a gap short of the mark after it, and
/// the marks never go back.
pub proof fn law_placements_march(
    entries: Seq<GalleryEntry>,
    bounds: Seq<Option<(IVec3, IVec3)>>,
    n: nat,
    i: nat,
)
    requires
        i < n <= entries.len(),
        bounds.len() == entries.len(),
        forall|k: int| 0 <= k < entries.len() ==> #[trigger] asset_fits(entries, bounds, k),
        forall|k: int| 0 <= k < entries.len() ==> (#[trigger] entries[k]).offset is None,
        forall|k: int| 0 <= k < bounds.len() ==> (#[trigger] bounds[k] matches Some(b) ==> b.0.x < b.1.x),
    ensures
        bounds[i as int] matches Some(b) ==> {
            let (list, mark) = placements(entries, bounds, i);
            let placed = placements(entries, bounds, (i + 1) as nat);
            let offset = placed.0.last().1;
            &&& placed.0 == list.push((entries[i as int].vxo_path@, offset))
            &&& columns_of(b).0 + offset.0 == mark
            &&& columns_of(b).1 + offset.0 + GALLERY_GAP_BRICKS < placed.1
            &&& placed.1 <= placements(entries, bounds, n).1
        },
{
    let p = (i + 1) as nat;
    assert(asset_fits(entries, bounds, i as int));
    assert(entries[i as int].offset is None);
    lemma_marks_ascend(entries, bounds, p, n);
}

proof fn lemma_marks_ascend(entries: Seq<GalleryEntry>, bounds: Seq<Option<(IVec3, IVec3)>>, p: nat, n: nat)
    requires
        p <= n <= entries.len(),
        bounds.len() == entries.len(),
        forall|k: int| 0 <= k < entries.len() ==> #[trigger] asset_fits(entries, bounds, k),
        forall|k: int| 0 <= k < entries.len() ==> (#[trigger] entries[k]).offset is None,
        forall|k: int| 0 <= k < bounds.len() ==> (#[trigger] bounds[k] matches Some(b) ==> b.0.x < b.1.x),
    ensures
        placements(entries, bounds, p).1 <= placements(entries, bounds, n).1,
    decreases n,
{
    if n > p {
        lemma_marks_ascend(entries, bounds, p, (n - 1) as nat);
        assert(asset_fits(entries, bounds, n - 1));
        assert(entries[n - 1].offset is None);
    }
}

/// One row of the gallery table.
pub open spec fn is_row(e: GalleryEntry, vox: Seq<char>, vxo: Seq<char>, label: Seq<char>) -> bool {
    e.vox_path@ == vox && e.vxo_path@ == vxo && e.offset is None && e.label@ == label
}

/// The scenes of the gallery, in row order, each placed past the one before it.
pub fn gallery_scenes() -> (r: Vec<GalleryEntry>)
    ensures
        r@.len() == 4,
        is_row(r@[0], "assets/models/sponza.vox"@, "assets/models/sponza.vxo"@, "Sponza"@),
        is_row(r@[1], "assets/models/sibenik.vox"@, "assets/models/sibenik.vxo"@, "Sibenik"@),
        is_row(r@[2], "assets/models/conference.vox"@, "assets/models/conference.vxo"@, "Conference"@),
        is_row(r@[3], "assets/models/bistro.vox"@, "assets/models/bistro.vxo"@, "Bistro"@),
{
    vec![
        GalleryEntry {
            vox_path: "assets/models/sponza.vox",
            vxo_path: "assets/models/sponza.vxo",
            offset: None,
            label: "Sponza",
        },
        GalleryEntry {
            vox_path: "assets/models/sibenik.vox",
            vxo_path: "assets/models/sibenik.vxo",
            offset: None,
            label: "Sibenik",
        },
        GalleryEntry {
            vox_path: "assets/models/conference.vox",
            vxo_path: "assets/models/conference.vxo",
            offset: None,
            label: "Conference",
        },
        GalleryEntry {
            vox_path: "assets/models/bistro.vox",
            vxo_path: "assets/models/bistro.vxo",
            offset: None,
            label: "Bistro",
        },
    ]
}

/// The one scene of the benchmark, at the origin: the first row of the table that is labelled so, or
/// nothing where no row is.
pub fn bistro_bench_placements(entries: &[GalleryEntry]) -> (r: Vec<(&'static str, IVec3)>)
    ensures
        r@.len() <= 1,
        r@.len() == 1 <==> exists|i: int| 0 <= i < entries@.len() && (#[trigger] entries@[i]).label@ == "Bistro"@,
        r@.len() == 1 ==> r@[0].1@ == (0i32, 0i32, 0i32) && exists|i: int|
            0 <= i < entries@.len() && (#[trigger] entries@[i]).label@ == "Bistro"@ && r@[0].0@
                == entries@[i].vxo_path@ && (forall|j: int|
                0 <= j < i ==> (#[trigger] entries@[j]).label@ != "Bistro"@),
{
    let mut i: usize = 0;
    while i < entries.len()
        invariant
            i <= entries@.len(),
            forall|j: int| 0 <= j < i ==> (#[trigger] entries@[j]).label@ != "Bistro"@,
        decreases entries@.len() - i,
    {
        let e: &GalleryEntry = &entries[i];
        if same_text(e.label, "Bistro") {
            return vec![(e.vxo_path, IVec3 { x: 0, y: 0, z: 0 })];
        }
        i = i + 1;
    }
    Vec::new()
}

/// A moved scene has each of its bricks at the brick's place and the offset, and no other. Air stays air there, and the
/// number of any other block grows by the shift.
pub proof fn law_moved_bricks(bricks: Map<Cell, Seq<BlockId>>, offset: Cell, shift: u16, c: Cell, d: Cell, i: int)
    requires
        move_fits(bricks, offset, shift),
        d.0 == c.0 + offset.0 && d.1 == c.1 + offset.1 && d.2 == c.2 + offset.2,
        bricks.dom().contains(c) ==> bricks[c].len() == 512,
        0 <= i < 512,
    ensures
        moved_bricks(bricks, offset, shift).dom().contains(d) <==> bricks.dom().contains(c),
        bricks.dom().contains(c) ==> {
            let moved = moved_bricks(bricks, offset, shift)[d];
            &&& moved.len() == 512
            &&& bricks[c][i].0 == 0 ==> moved[i].0 == 0
            &&& bricks[c][i].0 != 0 ==> moved[i].0 == bricks[c][i].0 + shift
        },
{
    if moved_bricks(bricks, offset, shift).dom().contains(d) {
        let b = choose|b: Cell| #[trigger] bricks.dom().contains(b) && cell_sum(b, offset) == d;
        assert(b == c);
    }
    if bricks.dom().contains(c) {
        assert(cell_sum(c, offset) == d);
        assert(cell_diff(d, offset) == c);
        assert(bricks[c][i].0 + shift <= 0xFFFF);
    }
}

/// A gallery begins with air and at column zero. A scene that brings bricks and fits goes to its own offset, or along x
/// to where the columns before it end and a gap of eight; its bricks are there, with the blocks behind those that the
/// gallery has, and elsewhere the gallery is as it was. Its looks but for air come behind those of the gallery.
pub proof fn law_gallery_takes_a_scene(scenes: Seq<LoadedScene>, n: nat, lo: Cell, hi: Cell, c: Cell, d: Cell, i: int)
    requires
        n < scenes.len(),
        scenes[n as int].map.wf(),
        scenes[n as int].registry@.len() >= 1,
        takes_place(gallery_of(scenes, n), scenes[n as int]),
        scene_fits(gallery_of(scenes, n), scenes[n as int]),
        is_bounds(scenes[n as int].map@.dom(), lo, hi),
        0 <= i < 512,
        match scenes[n as int].offset {
            Some(o) => d.0 == c.0 + o.x && d.1 == c.1 + o.y && d.2 == c.2 + o.z,
            None => d.0 == c.0 - lo.0 + gallery_of(scenes, n).cursor && d.1 == c.1 && d.2 == c.2,
        },
    ensures
        gallery_of(scenes, 0).bricks == Map::<Cell, Seq<BlockId>>::empty(),
        gallery_of(scenes, 0).looks == seq![air_look()],
        gallery_of(scenes, 0).cursor == 0,
        !gallery_of(scenes, 0).full,
        ({
            let s = scenes[n as int];
            let before = gallery_of(scenes, n);
            let after = gallery_of(scenes, n + 1);
            &&& !after.full
            &&& after.cursor == d.0 - c.0 + hi.0 + 9
            &&& s.map@.dom().contains(c) ==> {
                &&& after.bricks.dom().contains(d)
                &&& after.bricks[d].len() == 512
                &&& s.map@[c][i].0 == 0 ==> after.bricks[d][i].0 == 0
                &&& s.map@[c][i].0 != 0 ==> after.bricks[d][i].0 == s.map@[c][i].0 + before.looks.len() - 1
            }
            &&& !s.map@.dom().contains(c) ==> {
                &&& after.bricks.dom().contains(d) == before.bricks.dom().contains(d)
                &&& before.bricks.dom().contains(d) ==> after.bricks[d] == before.bricks[d]
            }
            &&& after.looks.len() == before.looks.len() + s.registry@.len() - 1
            &&& forall|j: int| 0 <= j < before.looks.len() ==> #[trigger] after.looks[j] == before.looks[j]
            &&& forall|j: int|
                1 <= j < s.registry@.len() ==> after.looks[before.looks.len() - 1 + j] == #[trigger] s.registry@[j]
        }),
{
    let s = scenes[n as int];
    let before = gallery_of(scenes, n);
    lemma_looks_nonempty(scenes, n);
    s.map.lemma_view();
    lemma_bounds_exist(s.map);
    let b = bounds_of(s.map@.dom());
    law_bounds_unique(s.map@.dom(), lo, hi, b.0, b.1);
    let o = offset_of(s, before.cursor);
    assert(gallery_of(scenes, n + 1) == merge_step(before, s));
    assert(d.0 == c.0 + o.0 && d.1 == c.1 + o.1 && d.2 == c.2 + o.2);
    law_moved_bricks(s.map@, o, shift_of(before), c, d, i);
}

/// A scene without bricks leaves a gallery as it is. One whose blocks would need numbers past the greatest ends it:
/// neither it nor any scene after it is taken.
pub proof fn law_gallery_leaves_a_scene_out(scenes: Seq<LoadedScene>, n: nat)
    requires
        n < scenes.len(),
    ensures
        ({
            let s = scenes[n as int];
            let before = gallery_of(scenes, n);
            let after = gallery_of(scenes, n + 1);
            &&& before.full || s.map@.dom() == Set::<Cell>::empty() ==> after == before
            &&& !before.full && s.map@.dom() != Set::<Cell>::empty() && before.looks.len() - 1 + s.registry@.len() - 1
                > 0xFFFF ==> {
                &&& after.full
                &&& after.bricks == before.bricks
                &&& after.looks == before.looks
            }
            &&& !before.full && s.map@.dom() != Set::<Cell>::empty() && before.looks.len() - 1 + s.registry@.len() - 1
                <= 0xFFFF - 1 ==> takes_place(before, s)
        }),
{
    assert(gallery_of(scenes, n + 1) == merge_step(gallery_of(scenes, n), scenes[n as int]));
}

/// The scenes that were loaded, in the order of the table, each with its own offset and label; those that could not be
/// loaded are left out.
pub proof fn law_loaded_scenes(
    entries: Seq<GalleryEntry>,
    loads: Seq<Option<(BrickMap, BlockRegistry)>>,
    n: nat,
    scenes: Seq<LoadedScene>,
    e: int,
)
    requires
        n <= loads.len(),
        is_loaded(entries, loads, n, scenes),
        0 <= e < n,
    ensures
        scenes.len() == loads.take(n as int).filter(|l: Option<(BrickMap, BlockRegistry)>| l is Some).len(),
        loads[e] matches Some((map, registry)) ==> {
            let k = loads.take(e).filter(|l: Option<(BrickMap, BlockRegistry)>| l is Some).len() as int;
            &&& k < scenes.len()
            &&& scenes[k].map == map
            &&& scenes[k].registry == registry
            &&& scenes[k].offset == entries[e].offset
            &&& scenes[k].label@ == entries[e].label@
        },
    decreases n,
{
    reveal(Seq::filter);
    let some = |l: Option<(BrickMap, BlockRegistry)>| l is Some;
    let m = (n - 1) as nat;
    let front = match loads[n - 1] {
        None => scenes,
        Some(_) => scenes.drop_last(),
    };
    assert(loads.take(n as int).drop_last() =~= loads.take(m as int));
    assert(loads.take(n as int).last() == loads[n - 1]);
    if m == 0 {
        assert(loads.take(0) =~= Seq::empty());
        assert(is_loaded(entries, loads, 0, front));
    } else {
        law_loaded_scenes(entries, loads, m, front, if e < m { e } else { 0 });
    }
}

/// Where streamed assets go: each at its own offset, or along x to where the columns before it end and a gap of eight.
/// Its columns are those of its first and its last voxel, eight voxels each. An asset without bounds is left out.
pub proof fn law_streamed_assets(entries: Seq<GalleryEntry>, bounds: Seq<Option<(IVec3, IVec3)>>, n: nat)
    requires
        n < entries.len(),
        bounds.len() == entries.len(),
        asset_fits(entries, bounds, n as int),
    ensures
        placements(entries, bounds, 0).0.len() == 0,
        placements(entries, bounds, 0).1 == 0,
        ({
            let (list, mark) = placements(entries, bounds, n);
            let (longer, next) = placements(entries, bounds, n + 1);
            match bounds[n as int] {
                None => longer == list && next == mark,
                Some((lo, hi)) => {
                    let o = longer.last().1;
                    &&& longer.len() == list.len() + 1
                    &&& longer.drop_last() == list
                    &&& longer.last().0 == entries[n as int].vxo_path@
                    &&& entries[n as int].offset matches Some(own) ==> o == own@
                    &&& entries[n as int].offset is None ==> o.0 == mark - lo.x as int / 8 && o.1 == 0 && o.2 == 0
                    &&& next == o.0 + (hi.x - 1) / 8 + 9
                },
            }
        }),
{
    let (list, mark) = placements(entries, bounds, n);
    let (longer, next) = placements(entries, bounds, n + 1);
    if bounds[n as int] is Some {
        assert(longer.drop_last() =~= list);
    }
}

} // verus!
