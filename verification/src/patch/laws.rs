//! What a patch shows, what it takes, and what its lights are.

use super::{
    all_lights, cell_id, cells_grid, content_lights, core_at, finest, has_bricks, intern, is_cut, is_light, is_report,
    is_uniform_meta, lights_before, mirrors_looks, or_zero, EmissiveVoxel, GpuBrickPatch, GpuPaletteColor, StorageReport,
    Streams,
};
use crate::brickmap::{world_block, Key};
use crate::gpu::{GpuBrickAabb, GpuBrickMeta};
use crate::math::{Cell, IVec3};
use crate::pack::{
    buried, halo_block, haloed, key_ok, law_halo_is_the_level, lemma_core_cell, level_block, packed, Blocks,
    VoxelsView,
};
use crate::palette::{BlockId, BlockLook};
use crate::paletted::{cells_width, id_of, index_stream, palette_words};
use vstd::prelude::*;

verus! {

/// Whether the voxel `(x, y, z)` of the brick at `k` has air next to it on one of its six faces.
#[verifier::opaque]
pub open spec fn has_open_face(m: Blocks, k: Key, x: int, y: int, z: int) -> bool {
    let (a, b, c) = (8 * k.0 + x, 8 * k.1 + y, 8 * k.2 + z);
    ||| level_block(m, k.3, a - 1, b, c) == BlockId(0)
    ||| level_block(m, k.3, a + 1, b, c) == BlockId(0)
    ||| level_block(m, k.3, a, b - 1, c) == BlockId(0)
    ||| level_block(m, k.3, a, b + 1, c) == BlockId(0)
    ||| level_block(m, k.3, a, b, c - 1) == BlockId(0)
    ||| level_block(m, k.3, a, b, c + 1) == BlockId(0)
}

/// Whether the voxel `(x, y, z)` of the brick at `k` shines: it is solid, its block emits, and it has an open face.
pub open spec fn shines(m: Blocks, k: Key, looks: Seq<BlockLook>, x: int, y: int, z: int) -> bool {
    let b = m[k][x + 8 * y + 64 * z];
    &&& b != BlockId(0)
    &&& looks[if b.0 < looks.len() { b.0 as int } else { 0 }].emits
    &&& has_open_face(m, k, x, y, z)
}

/// The lights of a brick are its voxels that shine, each once, where they are, in the order of the voxels: the block of
/// the brick at the light's cell is the light's block.
pub proof fn law_lights_are_the_voxels_that_shine(m: Blocks, k: Key, looks: Seq<BlockLook>)
    requires
        m.dom().contains(k),
        m[k].len() == 512,
        key_ok(k),
        looks.len() > 0,
    ensures
        ({
            let found = content_lights(k, packed(m[k], m, k), looks);
            &&& forall|a: int|
                0 <= a < found.len() ==> {
                    let l = #[trigger] found[a];
                    &&& 0 <= l.cell.x < 8 && 0 <= l.cell.y < 8 && 0 <= l.cell.z < 8
                    &&& l.block == m[k][l.cell.x + 8 * l.cell.y + 64 * l.cell.z]
                    &&& shines(m, k, looks, l.cell.x as int, l.cell.y as int, l.cell.z as int)
                    &&& l.brick.x == k.0 && l.brick.y == k.1 && l.brick.z == k.2
                    &&& l.lod == k.3
                }
            &&& forall|x: int, y: int, z: int|
                0 <= x < 8 && 0 <= y < 8 && 0 <= z < 8 && #[trigger] shines(m, k, looks, x, y, z) ==> exists|a: int|
                    0 <= a < found.len() && (#[trigger] found[a]).cell.x == x && found[a].cell.y == y && found[a].cell.z
                        == z
            &&& forall|a: int, b: int|
                0 <= a < b < found.len() ==> place_of(#[trigger] found[a]) < place_of(#[trigger] found[b])
        }),
{
    let core = m[k];
    let found = content_lights(k, packed(core, m, k), looks);
    let ids = cells_grid(haloed(core, m, k));
    if buried(core, m, k) {
        assert forall|x: int, y: int, z: int|
            0 <= x < 8 && 0 <= y < 8 && 0 <= z < 8 implies !#[trigger] shines(m, k, looks, x, y, z) by {
            lemma_faces(m, k, x, y, z);
            let i = (x + 1) + (y + 1) * 10 + (z + 1) * 100;
            assert(halo_block(core, m, k, i - 1) == core[0] && halo_block(core, m, k, i + 1) == core[0]);
            assert(halo_block(core, m, k, i - 10) == core[0] && halo_block(core, m, k, i + 10) == core[0]);
            assert(halo_block(core, m, k, i - 100) == core[0] && halo_block(core, m, k, i + 100) == core[0]);
        }
    } else {
        lemma_lights_found(m, k, looks, 512);
    }
}

/// The place of a light's voxel in its brick.
pub open spec fn place_of(l: EmissiveVoxel) -> int {
    l.cell.x + 8 * l.cell.y + 64 * l.cell.z
}

/// The six cells around a core cell of the haloed grid are the voxels around it.
#[verifier::spinoff_prover]
#[verifier::rlimit(50)]
proof fn lemma_faces(m: Blocks, k: Key, x: int, y: int, z: int)
    requires
        m.dom().contains(k),
        key_ok(k),
        0 <= x < 8,
        0 <= y < 8,
        0 <= z < 8,
    ensures
        ({
            let i = (x + 1) + (y + 1) * 10 + (z + 1) * 100;
            let core = m[k];
            has_open_face(m, k, x, y, z) <==> {
                ||| halo_block(core, m, k, i - 1) == BlockId(0)
                ||| halo_block(core, m, k, i + 1) == BlockId(0)
                ||| halo_block(core, m, k, i - 10) == BlockId(0)
                ||| halo_block(core, m, k, i + 10) == BlockId(0)
                ||| halo_block(core, m, k, i - 100) == BlockId(0)
                ||| halo_block(core, m, k, i + 100) == BlockId(0)
            }
        }),
{
    reveal(has_open_face);
    law_halo_is_the_level(m, k, x - 1, y, z);
    law_halo_is_the_level(m, k, x + 1, y, z);
    law_halo_is_the_level(m, k, x, y - 1, z);
    law_halo_is_the_level(m, k, x, y + 1, z);
    law_halo_is_the_level(m, k, x, y, z - 1);
    law_halo_is_the_level(m, k, x, y, z + 1);
}

/// A voxel is a light just where it shines.
proof fn lemma_light_shines(m: Blocks, k: Key, looks: Seq<BlockLook>, j: int)
    requires
        m.dom().contains(k),
        m[k].len() == 512,
        key_ok(k),
        looks.len() > 0,
        0 <= j < 512,
    ensures
        ({
            let ids = cells_grid(haloed(m[k], m, k));
            &&& ids(core_at(j)) == m[k][j]
            &&& is_light(ids, looks, j) == shines(m, k, looks, j % 8, (j / 8) % 8, j / 64)
            &&& j == j % 8 + 8 * ((j / 8) % 8) + 64 * (j / 64)
        }),
{
    let core = m[k];
    let ids = cells_grid(haloed(core, m, k));
    let (x, y, z) = (j % 8, (j / 8) % 8, j / 64);
    lemma_core_cell(core, m, k, j);
    let i = core_at(j);
    assert(i == (x + 1) + (y + 1) * 10 + (z + 1) * 100);
    assert(j == x + 8 * y + 64 * z);
    lemma_faces(m, k, x, y, z);
    assert forall|c: int| 0 <= c < 1000 implies #[trigger] ids(c) == halo_block(core, m, k, c) by {
        let b = halo_block(core, m, k, c);
        assert(haloed(core, m, k)[c] == b.0 as u32);
        assert(id_of(b.0 as u32) == b.0);
    }
    assert(ids(i) == halo_block(core, m, k, i));
    assert(ids(i + 1) == halo_block(core, m, k, i + 1) && ids(i - 1) == halo_block(core, m, k, i - 1));
    assert(ids(i + 10) == halo_block(core, m, k, i + 10) && ids(i - 10) == halo_block(core, m, k, i - 10));
    assert(ids(i + 100) == halo_block(core, m, k, i + 100) && ids(i - 100) == halo_block(core, m, k, i - 100));
}

/// What is found among the first `n` voxels of a brick.
proof fn lemma_lights_found(m: Blocks, k: Key, looks: Seq<BlockLook>, n: nat)
    requires
        m.dom().contains(k),
        m[k].len() == 512,
        key_ok(k),
        looks.len() > 0,
        n <= 512,
    ensures
        ({
            let found = lights_before(
                cells_grid(haloed(m[k], m, k)),
                looks,
                crate::pack::coord_of(k),
                k.3,
                n,
            );
            &&& forall|a: int|
                0 <= a < found.len() ==> {
                    let l = #[trigger] found[a];
                    &&& 0 <= l.cell.x < 8 && 0 <= l.cell.y < 8 && 0 <= l.cell.z < 8
                    &&& place_of(l) < n
                    &&& l.block == m[k][l.cell.x + 8 * l.cell.y + 64 * l.cell.z]
                    &&& shines(m, k, looks, l.cell.x as int, l.cell.y as int, l.cell.z as int)
                    &&& l.brick.x == k.0 && l.brick.y == k.1 && l.brick.z == k.2
                    &&& l.lod == k.3
                }
            &&& forall|x: int, y: int, z: int|
                0 <= x < 8 && 0 <= y < 8 && 0 <= z < 8 && x + 8 * y + 64 * z < n && #[trigger] shines(m, k, looks, x, y, z)
                    ==> exists|a: int|
                    0 <= a < found.len() && (#[trigger] found[a]).cell.x == x && found[a].cell.y == y && found[a].cell.z
                        == z
            &&& forall|a: int, b: int|
                0 <= a < b < found.len() ==> place_of(#[trigger] found[a]) < place_of(#[trigger] found[b])
        }),
    decreases n,
{
    if n > 0 {
        let j = n - 1;
        let ids = cells_grid(haloed(m[k], m, k));
        let before = lights_before(ids, looks, crate::pack::coord_of(k), k.3, j as nat);
        let found = lights_before(ids, looks, crate::pack::coord_of(k), k.3, n);
        lemma_lights_found(m, k, looks, j as nat);
        lemma_light_shines(m, k, looks, j);
        let lit = is_light(ids, looks, j);
        assert(!lit ==> found == before);
        assert(lit ==> found.len() == before.len() + 1 && place_of(found[before.len() as int]) == j);
        assert(forall|a: int| 0 <= a < before.len() ==> #[trigger] found[a] == before[a]);
        assert forall|x: int, y: int, z: int|
            0 <= x < 8 && 0 <= y < 8 && 0 <= z < 8 && x + 8 * y + 64 * z < n && #[trigger] shines(
                m,
                k,
                looks,
                x,
                y,
                z,
            ) implies exists|a: int|
            0 <= a < found.len() && (#[trigger] found[a]).cell.x == x && found[a].cell.y == y && found[a].cell.z == z by {
            if x + 8 * y + 64 * z == j {
                assert(j % 8 == x && (j / 8) % 8 == y && j / 64 == z);
                assert(found[before.len() as int].cell.x == x);
            } else {
                let a = choose|a: int|
                    0 <= a < before.len() && (#[trigger] before[a]).cell.x == x && before[a].cell.y == y
                        && before[a].cell.z == z;
                assert(found[a] == before[a]);
            }
        }
    }
}

/// A list of bricks has the lights of its bricks and no others.
pub proof fn law_lights_of_all_bricks(keys: Seq<Key>, contents: Seq<VoxelsView>, looks: Seq<BlockLook>, l: EmissiveVoxel)
    requires
        keys.len() == contents.len(),
    ensures
        all_lights(keys, contents, looks).contains(l) <==> exists|i: int|
            0 <= i < keys.len() && content_lights(#[trigger] keys[i], contents[i], looks).contains(l),
    decreases keys.len(),
{
    if keys.len() > 0 {
        let front = keys.drop_last();
        let rest = contents.drop_last();
        law_lights_of_all_bricks(front, rest, looks, l);
        let a = all_lights(front, rest, looks);
        let b = content_lights(keys.last(), contents.last(), looks);
        let n = keys.len() - 1;
        assert(keys[n] == keys.last() && contents[n] == contents.last());
        if (a + b).contains(l) {
            let w = choose|w: int| 0 <= w < (a + b).len() && (a + b)[w] == l;
            if w < a.len() {
                assert(a[w] == l);
                let i = choose|i: int|
                    0 <= i < front.len() && content_lights(#[trigger] front[i], rest[i], looks).contains(l);
                assert(keys[i] == front[i] && contents[i] == rest[i]);
            } else {
                assert(b[w - a.len()] == l);
            }
        }
        if exists|i: int| 0 <= i < keys.len() && content_lights(#[trigger] keys[i], contents[i], looks).contains(l) {
            let i = choose|i: int|
                0 <= i < keys.len() && content_lights(#[trigger] keys[i], contents[i], looks).contains(l);
            if i < n {
                assert(front[i] == keys[i] && rest[i] == contents[i]);
                let w = choose|w: int| 0 <= w < a.len() && a[w] == l;
                assert((a + b)[w] == l);
            } else {
                let w = choose|w: int| 0 <= w < b.len() && b[w] == l;
                assert((a + b)[a.len() + w] == l);
            }
        }
    } else {
        assert(!all_lights(keys, contents, looks).contains(l));
    }
}

/// A light list that is too long keeps 4096 lights, the brightest first, and none that was dropped is brighter than one
/// that was kept. Each light that is kept is one that was found, each at most once.
pub proof fn law_the_brightest_are_kept(lights: Seq<EmissiveVoxel>, power: Seq<u32>, kept: Seq<EmissiveVoxel>)
    requires
        power.len() == lights.len(),
        lights.len() > 4096,
        is_cut(lights, power, kept),
    ensures
        kept.len() == 4096,
        exists|at: Seq<int>|
            #![trigger at.no_duplicates()]
            at.len() == 4096 && at.no_duplicates() && (forall|i: int|
                0 <= i < 4096 ==> 0 <= #[trigger] at[i] < lights.len() && kept[i] == lights[at[i]]) && (forall|i: int, j: int|
                0 <= i < j < 4096 ==> power[#[trigger] at[i]] >= power[#[trigger] at[j]]) && (forall|i: int, d: int|
                0 <= i < 4096 && 0 <= d < lights.len() && !at.contains(d) ==> power[#[trigger] at[i]] >= #[trigger] power[d]),
{
    let order = choose|order: Seq<usize>| #[trigger]
        super::is_ranking(power, order) && forall|i: int|
            0 <= i < super::MAX_VOXEL_LIGHTS ==> kept[i] == lights[#[trigger] order[i] as int];
    let at = Seq::new(4096, |i: int| order[i] as int);
    assert(at.no_duplicates()) by {
        assert forall|i: int, j: int| 0 <= i < at.len() && 0 <= j < at.len() && i != j implies at[i] != at[j] by {
            assert(order[i] != order[j]);
        }
    }
    let all = order.map_values(|p: usize| p as int);
    assert(all.no_duplicates());
    all.unique_seq_to_set();
    let places = vstd::set_lib::set_int_range(0, lights.len() as int);
    vstd::set_lib::lemma_int_range(0, lights.len() as int);
    assert(all.to_set().subset_of(places)) by {
        assert forall|p: int| #[trigger] all.to_set().contains(p) implies places.contains(p) by {
            let i = choose|i: int| 0 <= i < all.len() && all[i] == p;
            assert(order[i] < power.len());
        }
    }
    vstd::set_lib::lemma_subset_equality(all.to_set(), places);
    assert forall|i: int, d: int| 0 <= i < 4096 && 0 <= d < lights.len() && !at.contains(d) implies power[
    #[trigger] at[i]] >= #[trigger] power[d] by {
        assert(all.to_set().contains(d));
        let w = choose|w: int| 0 <= w < all.len() && all[w] == d;
        if w < 4096 {
            assert(at[w] == d);
        }
        assert(crate::sort::ranked_before(power, order[i], order[w]));
    }
    assert forall|i: int, j: int| 0 <= i < j < 4096 implies power[#[trigger] at[i]] >= power[#[trigger] at[j]] by {
        assert(crate::sort::ranked_before(power, order[i], order[j]));
    }
    assert forall|i: int| 0 <= i < 4096 implies 0 <= #[trigger] at[i] < lights.len() && kept[i] == lights[at[i]] by {
        assert(order[i] < power.len());
    }
}

/// A light list that is not too long is what was found.
pub proof fn law_a_short_list_is_kept(lights: Seq<EmissiveVoxel>, power: Seq<u32>, kept: Seq<EmissiveVoxel>)
    requires
        lights.len() <= 4096,
        is_cut(lights, power, kept),
    ensures
        kept == lights,
{
}

/// The colours of a patch are those of the registry's blocks, in their order: all four channels, and the light, with a
/// zero behind it.
pub proof fn law_colours_are_those_of_the_blocks(palette: Seq<GpuPaletteColor>, looks: Seq<BlockLook>, i: int)
    requires
        mirrors_looks(palette, looks),
        0 <= i < looks.len() <= 0x1_0000,
        looks[i].emissive.len() == 3,
    ensures
        palette.len() == looks.len(),
        palette[i].rgba@ == looks[i].color,
        palette[i].emissive@[0] == looks[i].emissive[0],
        palette[i].emissive@[1] == looks[i].emissive[1],
        palette[i].emissive@[2] == looks[i].emissive[2],
        palette[i].emissive@[3] == 0,
{
    assert(i % 0x1_0000 == i);
    assert(palette[i].emissive@ == looks[i].emissive.push(0));
}

/// The bytes of a patch: eighty for the meta and the box of a brick, thirty-two for a colour, forty for a light with its
/// entry in the sampling table, four for a word; and four thousand for the full grid of a brick. The totals differ in how
/// voxels are stored alone.
pub proof fn law_bytes_of_a_patch(r: StorageReport, p: GpuBrickPatch)
    requires
        is_report(r, p),
    ensures
        r.bricks == p.aabbs@.len(),
        r.meta_aabb_bytes == 80 * p.aabbs@.len(),
        r.palette_bytes == 32 * p.palette@.len(),
        r.light_bytes == 40 * p.lights@.len(),
        r.voxel_bytes_before == 4000 * p.aabbs@.len(),
        r.voxel_bytes_after == 4 * p.voxels@.len(),
        r.brick_palette_bytes == 4 * p.brick_palettes@.len(),
        r.before() == 4080 * p.aabbs@.len() + 32 * p.palette@.len() + 40 * p.lights@.len(),
        r.before() - r.after() == 4000 * p.aabbs@.len() - 4 * p.voxels@.len() - 4 * p.brick_palettes@.len(),
        (forall|i: int| 0 <= i < p.metas@.len() ==> (#[trigger] p.metas@[i]).voxel_offset < 0x8000_0000)
            ==> r.uniform_bricks == 0,
        (forall|i: int| 0 <= i < p.metas@.len() ==> (#[trigger] p.metas@[i]).voxel_offset >= 0x8000_0000)
            ==> r.uniform_bricks == p.metas@.len(),
{
    lemma_filter_none(p.metas@);
    lemma_filter_all(p.metas@);
}

proof fn lemma_filter_none(metas: Seq<GpuBrickMeta>)
    ensures
        (forall|i: int| 0 <= i < metas.len() ==> (#[trigger] metas[i]).voxel_offset < 0x8000_0000) ==> metas.filter(
            |m: GpuBrickMeta| is_uniform_meta(m),
        ).len() == 0,
    decreases metas.len(),
{
    reveal(Seq::filter);
    if metas.len() > 0 && (forall|i: int| 0 <= i < metas.len() ==> (#[trigger] metas[i]).voxel_offset < 0x8000_0000) {
        assert forall|i: int| 0 <= i < metas.drop_last().len() implies (#[trigger] metas.drop_last()[i]).voxel_offset
            < 0x8000_0000 by {
            assert(metas.drop_last()[i] == metas[i]);
        }
        lemma_filter_none(metas.drop_last());
        assert(metas[metas.len() - 1] == metas.last());
    }
}

proof fn lemma_filter_all(metas: Seq<GpuBrickMeta>)
    ensures
        (forall|i: int| 0 <= i < metas.len() ==> (#[trigger] metas[i]).voxel_offset >= 0x8000_0000) ==> metas.filter(
            |m: GpuBrickMeta| is_uniform_meta(m),
        ).len() == metas.len(),
    decreases metas.len(),
{
    reveal(Seq::filter);
    if metas.len() > 0 && (forall|i: int| 0 <= i < metas.len() ==> (#[trigger] metas[i]).voxel_offset >= 0x8000_0000) {
        assert forall|i: int| 0 <= i < metas.drop_last().len() implies (#[trigger] metas.drop_last()[i]).voxel_offset
            >= 0x8000_0000 by {
            assert(metas.drop_last()[i] == metas[i]);
        }
        lemma_filter_all(metas.drop_last());
        assert(metas[metas.len() - 1] == metas.last());
    }
}

/// A patch of a store shows its world: the brick at place `b` has its box, its corner and its first voxel where its
/// coordinate says, and every cell of its haloed grid reads as the block of the world there.
pub proof fn law_patch_shows_the_world(
    p: GpuBrickPatch,
    bricks: Map<Cell, Seq<BlockId>>,
    keys: Seq<Key>,
    b: int,
    x: int,
    y: int,
    z: int,
)
    requires
        has_bricks(p, keys, keys.map_values(|k: Key| packed(finest(bricks)[k], finest(bricks), k))),
        forall|i: int| 0 <= i < keys.len() ==> finest(bricks).dom().contains(#[trigger] keys[i]),
        forall|c: Cell| #[trigger] bricks.dom().contains(c) ==> bricks[c].len() == 512,
        1000 * keys.len() < 0x8000_0000,
        0 <= b < keys.len(),
        -0x1000_0000 < keys[b].0 < 0xFFF_FFFF,
        -0x1000_0000 < keys[b].1 < 0xFFF_FFFF,
        -0x1000_0000 < keys[b].2 < 0xFFF_FFFF,
        -1 <= x <= 8 && -1 <= y <= 8 && -1 <= z <= 8,
    ensures
        keys[b].3 == 0,
        p.aabbs@[b] == (GpuBrickAabb::Brick { coord: IVec3 { x: keys[b].0, y: keys[b].1, z: keys[b].2 }, lod: 0 }),
        p.metas@[b].world_min@ == (keys[b].0, keys[b].1, keys[b].2),
        p.metas@[b].voxel_origin.x == 8 * keys[b].0,
        p.metas@[b].voxel_origin.y == 8 * keys[b].1,
        p.metas@[b].voxel_origin.z == 8 * keys[b].2,
        p.metas@[b].lod_and_bits % 8 == 0,
        cell_id(p.voxels@, p.brick_palettes@, p.metas@[b], (x + 1) + 10 * (y + 1) + 100 * (z + 1)) == world_block(
            bricks,
            ((8 * keys[b].0 + x) as i32, (8 * keys[b].1 + y) as i32, (8 * keys[b].2 + z) as i32),
        ),
{
    let m = finest(bricks);
    let contents = keys.map_values(|k: Key| packed(m[k], m, k));
    let k = keys[b];
    let c: Cell = (k.0, k.1, k.2);
    let i = (x + 1) + 10 * (y + 1) + 100 * (z + 1);
    assert(m.dom().contains(k));
    assert forall|j: int| 0 <= j < contents.len() implies (#[trigger] contents[j] matches VoxelsView::Dense(d) ==> d.len()
        == 1000) by {}
    super::law_patch_reads_back(p, keys, contents, b, i);
    super::law_halo_is_world(bricks, c, x, y, z);
    assert(crate::gpu::halo_at(x + 1, y + 1, z + 1) == i);
    assert(contents[b] == packed(m[k], m, k));
    let block = halo_block(m[k], m, k, i);
    if let VoxelsView::Dense(cells) = contents[b] {
        assert(cells[i] == block.0 as u32);
        let id = block.0;
        assert(id_of(id as u32) == id) by {
            crate::paletted::law_cell_id(id as u32);
        }
    }
    assert(p.metas@[b] == super::patch_meta(super::streams_of(contents), k, contents[b]));
    crate::pack::law_brick_geometry(k);
    super::lemma_streams_of(contents);
}

/// Cells that were stored before take no room a second time; others go behind all that is stored, their indices and
/// their palette, and what was stored stays where it is.
pub proof fn law_new_cells_go_behind(s: Streams, cells: Seq<u32>, other: Seq<u32>)
    requires
        s.indices.len() < 0x8000_0000,
        s.palettes.len() < 0x8000_0000,
    ensures
        s.seen.dom().contains(cells) ==> intern(s, cells) == s,
        !s.seen.dom().contains(cells) ==> {
            let t = intern(s, cells);
            &&& t.indices == s.indices + index_stream(cells)
            &&& t.palettes == s.palettes + palette_words(cells)
            &&& t.seen.dom().contains(cells)
            &&& t.seen[cells].0 == s.indices.len()
            &&& t.seen[cells].1 == s.palettes.len()
            &&& t.seen[cells].2 == cells_width(cells)
            &&& other != cells ==> t.seen.dom().contains(other) == s.seen.dom().contains(other)
            &&& other != cells && s.seen.dom().contains(other) ==> t.seen[other] == s.seen[other]
        },
{
}

/// A buffer is never empty: one without words has a zero.
pub proof fn law_buffers_are_never_empty(words: Seq<u32>)
    ensures
        or_zero(words).len() > 0,
        words.len() > 0 ==> or_zero(words) == words,
        words.len() == 0 ==> or_zero(words) == seq![0u32],
{
}

} // verus!
