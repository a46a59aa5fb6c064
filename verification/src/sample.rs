//! Reading heights out of the rings: the chunk that a point lies in, the cell on a level, the four nodes
//! around it, and the finest tier that has them. The arithmetic on the lanes comes from the caller.

use crate::upload::{
    cell_nodes, finest_covering_tier, holds, is_ring, mip_axis, mip_start, rect_held, ring_covers, ring_slot, slot_of,
    tier_holds, ChunkRect, GpuHeightCell, GpuHeightNode, HeightRingCpu, RingChunk, MAX_HEIGHT_MIP,
    MIP_NODES_PER_AXIS,
};
use vstd::prelude::*;

verus! {

/// The chunk that a point lies in, and its tag.
pub type Probe = (i32, i32, (u32, u32));

/// The nodes at the four corners of a cell: at its corner, next to it on x, next to it on z, and next to it
/// on both.
pub type Corners = (GpuHeightNode, GpuHeightNode, GpuHeightNode, GpuHeightNode);

/// Whether a ring has all its slots and nodes, and every record points at a whole block of nodes.
pub open spec fn is_sound(directory: Seq<GpuHeightCell>, nodes: Seq<GpuHeightNode>) -> bool {
    &&& directory.len() == 64
    &&& nodes.len() == 64 * 5722
    &&& forall|s: int| 0 <= s < 64 ==> (#[trigger] directory[s]).node_base <= 63 * 5722
}

/// A ring that was built from chunks is sound.
pub proof fn law_built_rings_are_sound(
    directory: Seq<GpuHeightCell>,
    nodes: Seq<GpuHeightNode>,
    chunks: Seq<RingChunk>,
    layer: u32,
    n: nat,
)
    requires
        is_ring(directory, nodes, chunks, layer, n),
    ensures
        is_sound(directory, nodes),
{
}

/// The level that is read where level `mip` is asked for: there is none past the coarsest.
pub open spec fn read_level(mip: u32) -> u32 {
    if mip <= MAX_HEIGHT_MIP {
        mip
    } else {
        MAX_HEIGHT_MIP
    }
}

/// The cell on an axis of level `m` that stands for cell `c`: cells off the chunk are moved to its rim.
pub open spec fn rim_cell(m: u32, c: i64) -> u32 {
    if c <= 0 {
        0
    } else if c + 2 <= mip_axis(m as int) {
        c as u32
    } else {
        (mip_axis(m as int) - 2) as u32
    }
}

/// The nodes around cell `(i, j)` of level `m` of the chunk in the slot of `(x, z)`.
pub open spec fn corners_at(
    directory: Seq<GpuHeightCell>,
    nodes: Seq<GpuHeightNode>,
    x: i32,
    z: i32,
    m: u32,
    i: u32,
    j: u32,
) -> Corners {
    let w = mip_axis(m as int);
    let at = directory[slot_of(x as int, z as int)].node_base + mip_start(m as int) + j * w + i;
    (nodes[at], nodes[at + 1], nodes[at + w], nodes[at + w + 1])
}

/// Whether `n` is what `blend` makes of the nodes around the point's cell on level `m`.
pub open spec fn is_tap<N, C: Fn(u32) -> (i64, i64), B: Fn(u32, u32, u32, Corners) -> N>(
    ring: HeightRingCpu,
    p: Probe,
    m: u32,
    cell_of: C,
    blend: B,
    n: N,
) -> bool {
    exists|c: (i64, i64)| #[trigger]
        call_ensures(cell_of, (m,), c) && call_ensures(
            blend,
            (
                m,
                rim_cell(m, c.0),
                rim_cell(m, c.1),
                corners_at(ring.directory@, ring.nodes@, p.0, p.1, m, rim_cell(m, c.0), rim_cell(m, c.1)),
            ),
            n,
        )
}

/// Move a cell on an axis of level `m` onto the chunk.
fn onto_rim(m: u32, c: i64) -> (r: u32)
    requires
        m <= MAX_HEIGHT_MIP,
    ensures
        r == rim_cell(m, c),
        r + 1 < mip_axis(m as int),
{
    let w: u32 = MIP_NODES_PER_AXIS[m as usize];
    proof {
        crate::upload::law_mip_layout(m as int);
    }
    if c <= 0 {
        0
    } else if c <= (w - 2) as i64 {
        c as u32
    } else {
        w - 2
    }
}

/// Read a ring on level `mip`: `None` where the ring does not hold the point's chunk, else what `blend` makes
/// of the nodes around the point's cell. `cell_of` gives the cell on a level.
pub fn sample_ring_mip<N, C: Fn(u32) -> (i64, i64), B: Fn(u32, u32, u32, Corners) -> N>(
    ring: &HeightRingCpu,
    p: Probe,
    mip: u32,
    cell_of: &C,
    blend: &B,
) -> (r: Option<N>)
    requires
        is_sound(ring.directory@, ring.nodes@),
        forall|m: u32| m <= MAX_HEIGHT_MIP ==> #[trigger] call_requires(*cell_of, (m,)),
        forall|m: u32, i: u32, j: u32, k: Corners| #[trigger] call_requires(*blend, (m, i, j, k)),
    ensures
        r is Some <==> holds(ring.directory@, p.0, p.1, p.2),
        r matches Some(n) ==> is_tap(*ring, p, read_level(mip), *cell_of, *blend, n),
{
    let m: u32 = if mip <= MAX_HEIGHT_MIP {
        mip
    } else {
        MAX_HEIGHT_MIP
    };
    if !ring_covers(&ring.directory, p.0, p.1, p.2) {
        return None;
    }
    let base: u32 = ring.directory[ring_slot(p.0, p.1)].node_base;
    let c: (i64, i64) = cell_of(m);
    let i: u32 = onto_rim(m, c.0);
    let j: u32 = onto_rim(m, c.1);
    let at: (usize, usize, usize, usize) = cell_nodes(base, m, i, j);
    let k: Corners = (ring.nodes[at.0], ring.nodes[at.1], ring.nodes[at.2], ring.nodes[at.3]);
    let n: N = blend(m, i, j, k);
    Some(n)
}

/// Read a ring on the finest level.
pub fn sample_ring<N, C: Fn(u32) -> (i64, i64), B: Fn(u32, u32, u32, Corners) -> N>(
    ring: &HeightRingCpu,
    p: Probe,
    cell_of: &C,
    blend: &B,
) -> (r: Option<N>)
    requires
        is_sound(ring.directory@, ring.nodes@),
        forall|m: u32| m <= MAX_HEIGHT_MIP ==> #[trigger] call_requires(*cell_of, (m,)),
        forall|m: u32, i: u32, j: u32, k: Corners| #[trigger] call_requires(*blend, (m, i, j, k)),
    ensures
        r is Some <==> holds(ring.directory@, p.0, p.1, p.2),
        r matches Some(n) ==> is_tap(*ring, p, 0, *cell_of, *blend, n),
{
    sample_ring_mip(ring, p, 0, cell_of, blend)
}

/// A level between two whole levels: the one below it, and whether it is that one.
#[derive(Clone, Copy, Debug, PartialEq, Eq, Structural)]
pub struct MipLevel {
    pub below: u32,
    pub whole: bool,
}

/// Whether `n` is the reading of a ring between two levels: that of the level itself where it is whole, else
/// what `mix` makes of the readings of the two levels around it.
pub open spec fn is_mixed<
    N,
    C: Fn(u32) -> (i64, i64),
    B: Fn(u32, u32, u32, Corners) -> N,
    X: Fn(N, N) -> N,
>(ring: HeightRingCpu, p: Probe, level: MipLevel, cell_of: C, blend: B, mix: X, n: N) -> bool {
    if level.whole {
        is_tap(ring, p, read_level(level.below), cell_of, blend, n)
    } else {
        exists|lo: N, hi: N| #[trigger]
            call_ensures(mix, (lo, hi), n) && is_tap(ring, p, read_level(level.below), cell_of, blend, lo) && is_tap(
                ring,
                p,
                read_level((level.below + 1) as u32),
                cell_of,
                blend,
                hi,
            )
    }
}

/// Read a ring between two levels. A whole level is read once.
pub fn sample_ring_mip_frac<
    N,
    C: Fn(u32) -> (i64, i64),
    B: Fn(u32, u32, u32, Corners) -> N,
    X: Fn(N, N) -> N,
>(ring: &HeightRingCpu, p: Probe, level: MipLevel, cell_of: &C, blend: &B, mix: &X) -> (r: Option<N>)
    requires
        is_sound(ring.directory@, ring.nodes@),
        level.below <= MAX_HEIGHT_MIP,
        forall|m: u32| m <= MAX_HEIGHT_MIP ==> #[trigger] call_requires(*cell_of, (m,)),
        forall|m: u32, i: u32, j: u32, k: Corners| #[trigger] call_requires(*blend, (m, i, j, k)),
        forall|lo: N, hi: N| #[trigger] call_requires(*mix, (lo, hi)),
    ensures
        r is Some <==> holds(ring.directory@, p.0, p.1, p.2),
        r matches Some(n) ==> is_mixed(*ring, p, level, *cell_of, *blend, *mix, n),
{
    match sample_ring_mip(ring, p, level.below, cell_of, blend) {
        None => None,
        Some(lo) => {
            if level.whole {
                return Some(lo);
            }
            match sample_ring_mip(ring, p, level.below + 1, cell_of, blend) {
                None => None,
                Some(hi) => {
                    let n: N = mix(lo, hi);
                    Some(n)
                },
            }
        },
    }
}

/// Whether a call always gives the same for the same arguments.
pub open spec fn single_valued<C: Fn(u32) -> (i64, i64), N, B: Fn(u32, u32, u32, Corners) -> N>(
    cell_of: C,
    blend: B,
) -> bool {
    &&& forall|m: u32, c: (i64, i64), d: (i64, i64)| #[trigger]
        call_ensures(cell_of, (m,), c) && #[trigger] call_ensures(cell_of, (m,), d) ==> c == d
    &&& forall|m: u32, i: u32, j: u32, k: Corners, a: N, b: N| #[trigger]
        call_ensures(blend, (m, i, j, k), a) && #[trigger] call_ensures(blend, (m, i, j, k), b) ==> a == b
}

/// A whole level reads as that level alone does: `a` is a reading between levels, and `b` one of the level below. On
/// level zero, which is that of a footprint of no size, `b` is a reading of the finest level.
pub proof fn law_whole_level_reads_alone<
    N,
    C: Fn(u32) -> (i64, i64),
    B: Fn(u32, u32, u32, Corners) -> N,
    X: Fn(N, N) -> N,
>(ring: HeightRingCpu, p: Probe, level: MipLevel, cell_of: C, blend: B, mix: X, a: N, b: N)
    requires
        level.whole,
        single_valued(cell_of, blend),
        is_mixed(ring, p, level, cell_of, blend, mix, a),
        is_tap(ring, p, read_level(level.below), cell_of, blend, b),
    ensures
        a == b,
        level.below == 0 ==> is_tap(ring, p, 0, cell_of, blend, a),
{
    let m = read_level(level.below);
    let tap = |c: (i64, i64), n: N| call_ensures(
        blend,
        (
            m,
            rim_cell(m, c.0),
            rim_cell(m, c.1),
            corners_at(ring.directory@, ring.nodes@, p.0, p.1, m, rim_cell(m, c.0), rim_cell(m, c.1)),
        ),
        n,
    );
    let c = choose|c: (i64, i64)| #[trigger] call_ensures(cell_of, (m,), c) && tap(c, a);
    let d = choose|d: (i64, i64)| #[trigger] call_ensures(cell_of, (m,), d) && tap(d, b);
    assert(c == d);
}

/// Read the finest tier that holds the point's chunk, or `None` where no tier does. `probes` and `levels`
/// have, for each tier, the point's chunk and the level to read; `cell_of` gives the cell on a tier's level.
pub fn try_sample_clipmap_lod<
    N,
    C: Fn(u32) -> (i64, i64),
    B: Fn(u32, u32, u32, Corners) -> N,
    X: Fn(N, N) -> N,
>(
    clipmap: &Vec<HeightRingCpu>,
    probes: &Vec<Probe>,
    levels: &Vec<MipLevel>,
    cells: &Vec<C>,
    blends: &Vec<B>,
    mixes: &Vec<X>,
) -> (r: Option<N>)
    requires
        is_query(clipmap@, probes@, levels@, cells@, blends@, mixes@),
    ensures
        r is Some <==> exists|t: int| 0 <= t < clipmap@.len() && #[trigger] tier_holds(clipmap@, probes@, t),
        r matches Some(n) ==> exists|t: int| #[trigger]
            is_finest(clipmap@, probes@, t) && is_mixed(
                clipmap@[t],
                probes@[t],
                levels@[t],
                cells@[t],
                blends@[t],
                mixes@[t],
                n,
            ),
{
    assert forall|t: int| 0 <= t < clipmap@.len() implies (#[trigger] clipmap@[t]).directory@.len() == 64 by {
        assert(tier_ready(clipmap@, levels@, cells@, blends@, mixes@, t));
    }
    match finest_covering_tier(clipmap, probes) {
        None => None,
        Some(t) => {
            assert(tier_ready(clipmap@, levels@, cells@, blends@, mixes@, t as int));
            assert(is_finest(clipmap@, probes@, t as int));
            sample_ring_mip_frac(&clipmap[t], probes[t], levels[t], &cells[t], &blends[t], &mixes[t])
        },
    }
}

/// Whether tier `t` can be read with what is given for it.
pub open spec fn tier_ready<
    N,
    C: Fn(u32) -> (i64, i64),
    B: Fn(u32, u32, u32, Corners) -> N,
    X: Fn(N, N) -> N,
>(
    clipmap: Seq<HeightRingCpu>,
    levels: Seq<MipLevel>,
    cells: Seq<C>,
    blends: Seq<B>,
    mixes: Seq<X>,
    t: int,
) -> bool {
    &&& is_sound(clipmap[t].directory@, clipmap[t].nodes@)
    &&& levels[t].below <= MAX_HEIGHT_MIP
    &&& forall|m: u32| m <= MAX_HEIGHT_MIP ==> #[trigger] call_requires(cells[t], (m,))
    &&& forall|m: u32, i: u32, j: u32, k: Corners| #[trigger] call_requires(blends[t], (m, i, j, k))
    &&& forall|lo: N, hi: N| #[trigger] call_requires(mixes[t], (lo, hi))
}

/// Whether every tier can be read with what is given for it.
pub open spec fn is_query<
    N,
    C: Fn(u32) -> (i64, i64),
    B: Fn(u32, u32, u32, Corners) -> N,
    X: Fn(N, N) -> N,
>(
    clipmap: Seq<HeightRingCpu>,
    probes: Seq<Probe>,
    levels: Seq<MipLevel>,
    cells: Seq<C>,
    blends: Seq<B>,
    mixes: Seq<X>,
) -> bool {
    &&& probes.len() == clipmap.len()
    &&& levels.len() == clipmap.len()
    &&& cells.len() == clipmap.len()
    &&& blends.len() == clipmap.len()
    &&& mixes.len() == clipmap.len()
    &&& forall|t: int| 0 <= t < clipmap.len() ==> #[trigger] tier_ready(clipmap, levels, cells, blends, mixes, t)
}

/// Whether tier `t` is the finest that holds the chunk it is probed for.
pub open spec fn is_finest(clipmap: Seq<HeightRingCpu>, probes: Seq<Probe>, t: int) -> bool {
    &&& 0 <= t < clipmap.len()
    &&& tier_holds(clipmap, probes, t)
    &&& forall|u: int| 0 <= u < t ==> !#[trigger] tier_holds(clipmap, probes, u)
}

/// Read the finest tier that holds the point's chunk, where some tier does.
pub fn sample_clipmap_lod<
    N,
    C: Fn(u32) -> (i64, i64),
    B: Fn(u32, u32, u32, Corners) -> N,
    X: Fn(N, N) -> N,
>(
    clipmap: &Vec<HeightRingCpu>,
    probes: &Vec<Probe>,
    levels: &Vec<MipLevel>,
    cells: &Vec<C>,
    blends: &Vec<B>,
    mixes: &Vec<X>,
) -> (n: N)
    requires
        is_query(clipmap@, probes@, levels@, cells@, blends@, mixes@),
        exists|t: int| 0 <= t < clipmap@.len() && #[trigger] tier_holds(clipmap@, probes@, t),
    ensures
        exists|t: int| #[trigger]
            is_finest(clipmap@, probes@, t) && is_mixed(
                clipmap@[t],
                probes@[t],
                levels@[t],
                cells@[t],
                blends@[t],
                mixes@[t],
                n,
            ),
{
    try_sample_clipmap_lod(clipmap, probes, levels, cells, blends, mixes).unwrap()
}

/// A footprint that the coverage gate lets through is never missed: where some tier holds every chunk of its
/// rectangle, a point whose chunk on that tier lies in the rectangle has a finest tier to read.
pub proof fn law_covered_footprint_is_never_missed<K: Fn(i32, i32) -> (u32, u32)>(
    clipmap: Seq<HeightRingCpu>,
    rects: Seq<ChunkRect>,
    key_of: K,
    t: int,
    probes: Seq<Probe>,
)
    requires
        0 <= t < clipmap.len(),
        probes.len() == clipmap.len(),
        rect_held(clipmap[t].directory@, rects[t], key_of),
        rects[t].has(probes[t].0, probes[t].1),
        forall|key: (u32, u32)| #[trigger]
            call_ensures(key_of, (probes[t].0, probes[t].1), key) ==> key == probes[t].2,
    ensures
        exists|u: int| is_finest(clipmap, probes, u),
{
    assert(tier_holds(clipmap, probes, t));
    lemma_finest(clipmap, probes, t);
}

/// Where tier `t` holds its chunk, there is a finest tier that does.
proof fn lemma_finest(clipmap: Seq<HeightRingCpu>, probes: Seq<Probe>, t: int)
    requires
        0 <= t < clipmap.len(),
        tier_holds(clipmap, probes, t),
    ensures
        exists|u: int| is_finest(clipmap, probes, u),
    decreases t,
{
    if exists|u: int| 0 <= u < t && #[trigger] tier_holds(clipmap, probes, u) {
        let u = choose|u: int| 0 <= u < t && #[trigger] tier_holds(clipmap, probes, u);
        lemma_finest(clipmap, probes, u);
    } else {
        assert(is_finest(clipmap, probes, t));
    }
}

/// The level that is read is the one asked for, and the seventh for any coarser. The cell that is read on an axis is the
/// nearest to the one asked for that is in the level, which has one cell less than nodes.
pub proof fn law_reading_stays_in_the_chunk(mip: u32, m: u32, c: i64)
    requires
        m <= 6,
    ensures
        mip <= 6 ==> read_level(mip) == mip,
        mip > 6 ==> read_level(mip) == 6,
        0 <= rim_cell(m, c) <= mip_axis(m as int) - 2,
        0 <= c <= mip_axis(m as int) - 2 ==> rim_cell(m, c) == c,
        c < 0 ==> rim_cell(m, c) == 0,
        c > mip_axis(m as int) - 2 ==> rim_cell(m, c) == mip_axis(m as int) - 2,
{
    crate::upload::law_mip_layout(m as int);
}

/// What is read at a point is what the blend makes of the four nodes around the point's cell, in the level that is read,
/// of the very chunk that the point lies in: at its corner, next to it on x, on z, and on both. This is of a chunk that
/// the ring holds; `cell` and `mixed` are what the cell finder and the blend give.
pub proof fn law_sample_reads_its_chunk<N, C: Fn(u32) -> (i64, i64), B: Fn(u32, u32, u32, Corners) -> N>(
    ring: HeightRingCpu,
    chunks: Seq<RingChunk>,
    layer: u32,
    k: int,
    m: u32,
    cell_of: C,
    blend: B,
    cell: (i64, i64),
    mixed: spec_fn(u32, u32, Corners) -> N,
    n: N,
)
    requires
        is_ring(ring.directory@, ring.nodes@, chunks, layer, chunks.len()),
        0 <= k < chunks.len(),
        chunks[k].layer == layer,
        chunks[k].nodes@.len() == 5722,
        forall|j: int|
            k < j < chunks.len() && (#[trigger] chunks[j]).layer == layer ==> (chunks[j].x - chunks[k].x) % 8 != 0 || (
            chunks[j].z - chunks[k].z) % 8 != 0,
        m <= 6,
        is_tap(ring, (chunks[k].x, chunks[k].z, (chunks[k].key_hi, chunks[k].key_lo)), m, cell_of, blend, n),
        forall|c: (i64, i64)| #[trigger] call_ensures(cell_of, (m,), c) ==> c == cell,
        forall|i: u32, j: u32, q: Corners, r: N| #[trigger] call_ensures(blend, (m, i, j, q), r) ==> r == mixed(i, j, q),
    ensures
        ({
            let w = mip_axis(m as int);
            let (i, j) = (rim_cell(m, cell.0), rim_cell(m, cell.1));
            let at = |x: int, z: int| crate::upload::level(chunks[k].nodes@, m as int)[z * w + x];
            n == mixed(i, j, (at(i as int, j as int), at(i + 1, j as int), at(i as int, j + 1), at(i + 1, j + 1)))
        }),
{
    let p: Probe = (chunks[k].x, chunks[k].z, (chunks[k].key_hi, chunks[k].key_lo));
    crate::upload::laws::law_ring_holds_its_chunks(ring.directory@, ring.nodes@, chunks, layer, k);
    law_reading_stays_in_the_chunk(m, m, cell.0);
    law_reading_stays_in_the_chunk(m, m, cell.1);
    let w = mip_axis(m as int);
    let (i, j) = (rim_cell(m, cell.0), rim_cell(m, cell.1));
    let s = 8 * (chunks[k].z as int % 8) + chunks[k].x as int % 8;
    let start = mip_start(m as int);
    crate::upload::law_mip_layout(m as int);
    crate::upload::laws::law_levels_of_a_chunk();
    lemma_node_place(w, i as int, j as int);
    let here = start + j * w + i;
    assert(0 <= here && here + w + 1 < 5722) by {
        crate::upload::law_mip_layout(m as int);
    }
    assert((j + 1) * w == j * w + w) by (nonlinear_arith);
    assert(ring.nodes@[5722 * s + here] == chunks[k].nodes@[here]);
    assert(ring.nodes@[5722 * s + (here + 1)] == chunks[k].nodes@[here + 1]);
    assert(ring.nodes@[5722 * s + (here + w)] == chunks[k].nodes@[here + w]);
    assert(ring.nodes@[5722 * s + (here + w + 1)] == chunks[k].nodes@[here + w + 1]);
}

/// The four nodes around a cell are in the level.
proof fn lemma_node_place(w: int, i: int, j: int)
    requires
        2 <= w,
        0 <= i <= w - 2,
        0 <= j <= w - 2,
    ensures
        0 <= j * w + i,
        j * w + i + w + 1 < w * w,
{
    assert(0 <= j * w + i && j * w + i + w + 1 < w * w) by (nonlinear_arith)
        requires
            2 <= w,
            0 <= i <= w - 2,
            0 <= j <= w - 2,
    ;
}

/// Between two levels what is read is what the mix makes of the two: of the finer first, then of the coarser. Past the
/// coarsest level both are that.
pub proof fn law_between_levels<
    N,
    C: Fn(u32) -> (i64, i64),
    B: Fn(u32, u32, u32, Corners) -> N,
    X: Fn(N, N) -> N,
>(ring: HeightRingCpu, p: Probe, below: u32, cell_of: C, blend: B, mix: X, both: spec_fn(N, N) -> N, n: N)
    requires
        below <= 6,
        is_mixed(ring, p, MipLevel { below, whole: false }, cell_of, blend, mix, n),
        forall|a: N, b: N, r: N| #[trigger] call_ensures(mix, (a, b), r) ==> r == both(a, b),
    ensures
        below < 6 ==> exists|lo: N, hi: N|
            n == #[trigger] both(lo, hi) && is_tap(ring, p, below, cell_of, blend, lo) && is_tap(
                ring,
                p,
                (below + 1) as u32,
                cell_of,
                blend,
                hi,
            ),
        below == 6 ==> exists|lo: N, hi: N|
            n == #[trigger] both(lo, hi) && is_tap(ring, p, 6, cell_of, blend, lo) && is_tap(ring, p, 6, cell_of, blend, hi),
{
    let (lo, hi) = choose|lo: N, hi: N| #[trigger]
        call_ensures(mix, (lo, hi), n) && is_tap(ring, p, read_level(below), cell_of, blend, lo) && is_tap(
            ring,
            p,
            read_level((below + 1) as u32),
            cell_of,
            blend,
            hi,
        );
    assert(n == both(lo, hi));
}

/// The tier that is read is the first that has the point's chunk in the slot of its coordinates.
pub proof fn law_finest_tier(clipmap: Seq<HeightRingCpu>, probes: Seq<Probe>, t: int)
    requires
        0 <= t < clipmap.len(),
    ensures
        is_finest(clipmap, probes, t) <==> (forall|u: int|
            0 <= u <= t ==> {
                let (x, z, key) = #[trigger] probes[u];
                let cell = clipmap[u].directory@[8 * (z as int % 8) + x as int % 8];
                (cell.key_hi == key.0 && cell.key_lo == key.1) == (u == t)
            }),
{
    assert forall|u: int| 0 <= u < clipmap.len() implies #[trigger] tier_holds(clipmap, probes, u) == ({
        let (x, z, key) = probes[u];
        let cell = clipmap[u].directory@[8 * (z as int % 8) + x as int % 8];
        cell.key_hi == key.0 && cell.key_lo == key.1
    }) by {
        let (x, z, key) = probes[u];
        crate::upload::laws::law_holding_is_by_tag(clipmap[u].directory@, x, z, key);
    }
    if is_finest(clipmap, probes, t) {
        assert forall|u: int| 0 <= u <= t implies ({
            let (x, z, key) = #[trigger] probes[u];
            let cell = clipmap[u].directory@[8 * (z as int % 8) + x as int % 8];
            (cell.key_hi == key.0 && cell.key_lo == key.1) == (u == t)
        }) by {
            assert(tier_holds(clipmap, probes, u) == (u == t));
        }
    }
    if forall|u: int|
        0 <= u <= t ==> {
            let (x, z, key) = #[trigger] probes[u];
            let cell = clipmap[u].directory@[8 * (z as int % 8) + x as int % 8];
            (cell.key_hi == key.0 && cell.key_lo == key.1) == (u == t)
        } {
        assert(probes[t] == probes[t]);
        assert(tier_holds(clipmap, probes, t));
        assert forall|u: int| 0 <= u < t implies !#[trigger] tier_holds(clipmap, probes, u) by {
            let q = probes[u];
        }
    }
}

} // verus!
