//! What the rings and their levels hold, and what a level keeps of the one before it.

use super::{
    bounds_chunks, decoded, halved, halved_by, holder, holds, holds_keyed, is_pyramid, is_ring, level, mip_axis, mip_start,
    query_of, rect_held, rect_missed, slot_cell, slot_nodes, x_halved, z_halved, ChunkRect, GpuHeightCell, GpuHeightNode,
    RingChunk, TerrainQuery,
};
use vstd::prelude::*;

verus! {

/// What a filter makes of node `2 * i` of a line and of its neighbours: both of them inside the line, and the only one
/// there is at its ends. Node `end` is the last of the coarser line.
pub open spec fn line_node<N>(
    first: spec_fn(N, N) -> N,
    inner: spec_fn(N, N, N) -> N,
    last: spec_fn(N, N) -> N,
    line: spec_fn(int) -> N,
    i: int,
    end: int,
) -> N {
    if i == 0 {
        first(line(0), line(1))
    } else if i == end {
        last(line(2 * i - 1), line(2 * i))
    } else {
        inner(line(2 * i - 1), line(2 * i), line(2 * i + 1))
    }
}

/// The nodes per axis of the levels, and where each begins among the nodes of a chunk.
pub proof fn law_levels_of_a_chunk()
    ensures
        mip_axis(0) == 65 && mip_start(0) == 0,
        mip_axis(1) == 33 && mip_start(1) == 4225,
        mip_axis(2) == 17 && mip_start(2) == 5314,
        mip_axis(3) == 9 && mip_start(3) == 5603,
        mip_axis(4) == 5 && mip_start(4) == 5684,
        mip_axis(5) == 3 && mip_start(5) == 5709,
        mip_axis(6) == 2 && mip_start(6) == 5718,
        mip_start(7) == 5722,
{
    reveal_with_fuel(mip_start, 8);
}

/// Every node of a coarser level is what the filter makes of the node at its place in the level before and of all the
/// neighbours that this has, on x and then on z: a neighbour is left out only where it is off the grid.
pub proof fn law_level_sees_all_neighbours<
    T: Fn(Option<GpuHeightNode>, GpuHeightNode, Option<GpuHeightNode>) -> GpuHeightNode,
>(
    tent: T,
    nodes: Seq<GpuHeightNode>,
    first: spec_fn(GpuHeightNode, GpuHeightNode) -> GpuHeightNode,
    inner: spec_fn(GpuHeightNode, GpuHeightNode, GpuHeightNode) -> GpuHeightNode,
    last: spec_fn(GpuHeightNode, GpuHeightNode) -> GpuHeightNode,
    m: int,
    i: int,
    j: int,
)
    requires
        nodes.len() == 5722,
        is_pyramid(tent, nodes, 6),
        forall|c: GpuHeightNode, r: GpuHeightNode, o: GpuHeightNode| #[trigger]
            call_ensures(tent, (None, c, Some(r)), o) ==> o == first(c, r),
        forall|l: GpuHeightNode, c: GpuHeightNode, r: GpuHeightNode, o: GpuHeightNode| #[trigger]
            call_ensures(tent, (Some(l), c, Some(r)), o) ==> o == inner(l, c, r),
        forall|l: GpuHeightNode, c: GpuHeightNode, o: GpuHeightNode| #[trigger]
            call_ensures(tent, (Some(l), c, None), o) ==> o == last(l, c),
        1 <= m <= 6,
        0 <= i < mip_axis(m),
        0 <= j < mip_axis(m),
    ensures
        level(nodes, m)[j * mip_axis(m) + i] == line_node(
            first,
            inner,
            last,
            |z: int|
                line_node(
                    first,
                    inner,
                    last,
                    |x: int| level(nodes, m - 1)[z * mip_axis(m - 1) + x],
                    i,
                    mip_axis(m) - 1,
                ),
            j,
            mip_axis(m) - 1,
        ),
{
    let c = mip_axis(m);
    let n = mip_axis(m - 1);
    let fine = level(nodes, m - 1);
    let coarse = level(nodes, m);
    super::law_mip_layout(m - 1);
    super::law_mip_layout(m);
    assert(n == 2 * c - 1);
    assert(halved(tent, fine, n, coarse, c));
    let rows = choose|rows: Seq<GpuHeightNode>| #[trigger] halved_by(tent, fine, n, rows, coarse, c);
    let row = |z: int| line_node(first, inner, last, |x: int| fine[z * n + x], i, c - 1);
    assert forall|z: int| 0 <= z < n implies rows[z * c + i] == #[trigger] row(z) by {
        assert(x_halved(tent, fine, n, rows, c, i, z));
    }
    assert(z_halved(tent, rows, n, coarse, c, i, j));
    assert(rows[(2 * j) * c + i] == row(2 * j));
    if j > 0 {
        assert(rows[(2 * j - 1) * c + i] == row(2 * j - 1));
    }
    if j < c - 1 {
        assert(rows[(2 * j + 1) * c + i] == row(2 * j + 1));
    }
}

/// Inside a level a node is what the filter makes of three by three nodes of the level before: for a weighted sum of
/// three, the sum of the nine nodes around its place, weighted on both axes.
pub proof fn law_inner_node_sees_nine<
    T: Fn(Option<GpuHeightNode>, GpuHeightNode, Option<GpuHeightNode>) -> GpuHeightNode,
>(
    tent: T,
    nodes: Seq<GpuHeightNode>,
    inner: spec_fn(GpuHeightNode, GpuHeightNode, GpuHeightNode) -> GpuHeightNode,
    m: int,
    i: int,
    j: int,
)
    requires
        nodes.len() == 5722,
        is_pyramid(tent, nodes, 6),
        forall|l: GpuHeightNode, c: GpuHeightNode, r: GpuHeightNode, o: GpuHeightNode| #[trigger]
            call_ensures(tent, (Some(l), c, Some(r)), o) ==> o == inner(l, c, r),
        1 <= m <= 5,
        0 < i < mip_axis(m) - 1,
        0 < j < mip_axis(m) - 1,
    ensures
        ({
            let n = mip_axis(m - 1);
            let f = |x: int, z: int| level(nodes, m - 1)[z * n + x];
            let (x, z) = (2 * i, 2 * j);
            level(nodes, m)[j * mip_axis(m) + i] == inner(
                inner(f(x - 1, z - 1), f(x, z - 1), f(x + 1, z - 1)),
                inner(f(x - 1, z), f(x, z), f(x + 1, z)),
                inner(f(x - 1, z + 1), f(x, z + 1), f(x + 1, z + 1)),
            )
        }),
{
    let c = mip_axis(m);
    let n = mip_axis(m - 1);
    let fine = level(nodes, m - 1);
    let coarse = level(nodes, m);
    super::law_mip_layout(m - 1);
    super::law_mip_layout(m);
    assert(n == 2 * c - 1);
    assert(halved(tent, fine, n, coarse, c));
    let rows = choose|rows: Seq<GpuHeightNode>| #[trigger] halved_by(tent, fine, n, rows, coarse, c);
    assert(x_halved(tent, fine, n, rows, c, i, 2 * j - 1));
    assert(x_halved(tent, fine, n, rows, c, i, 2 * j));
    assert(x_halved(tent, fine, n, rows, c, i, 2 * j + 1));
    assert(z_halved(tent, rows, n, coarse, c, i, j));
}

/// The finest level of a chunk is its field, node by node, x fastest; each coarser level has the nodes behind those of
/// the finer ones.
pub proof fn law_where_levels_lie(nodes: Seq<GpuHeightNode>, m: int, i: int, j: int)
    requires
        nodes.len() == 5722,
        0 <= m <= 6,
        0 <= i < mip_axis(m),
        0 <= j < mip_axis(m),
    ensures
        m == 0 ==> level(nodes, 0)[j * 65 + i] == nodes[j * 65 + i],
        m == 1 ==> level(nodes, 1)[j * 33 + i] == nodes[4225 + j * 33 + i],
        m == 2 ==> level(nodes, 2)[j * 17 + i] == nodes[5314 + j * 17 + i],
        m == 3 ==> level(nodes, 3)[j * 9 + i] == nodes[5603 + j * 9 + i],
        m == 4 ==> level(nodes, 4)[j * 5 + i] == nodes[5684 + j * 5 + i],
        m == 5 ==> level(nodes, 5)[j * 3 + i] == nodes[5709 + j * 3 + i],
        m == 6 ==> level(nodes, 6)[j * 2 + i] == nodes[5718 + j * 2 + i],
{
    law_levels_of_a_chunk();
    super::law_mip_layout(m);
    super::lemma_row_order(mip_axis(m), i, j, 0, mip_axis(m));
}

/// A ring holds a chunk of its tier, unless a later one of the tier lies a multiple of eight chunks away on both axes:
/// the slot that its coordinates give has its tag, and the slot's block has its nodes.
pub proof fn law_ring_holds_its_chunks(
    directory: Seq<GpuHeightCell>,
    nodes: Seq<GpuHeightNode>,
    chunks: Seq<RingChunk>,
    layer: u32,
    k: int,
)
    requires
        is_ring(directory, nodes, chunks, layer, chunks.len()),
        0 <= k < chunks.len(),
        chunks[k].layer == layer,
        chunks[k].nodes@.len() == 5722,
        forall|j: int|
            k < j < chunks.len() && (#[trigger] chunks[j]).layer == layer ==> (chunks[j].x - chunks[k].x) % 8 != 0 || (
            chunks[j].z - chunks[k].z) % 8 != 0,
    ensures
        ({
            let s = 8 * (chunks[k].z as int % 8) + chunks[k].x as int % 8;
            &&& directory.len() == 64
            &&& directory[s].key_hi == chunks[k].key_hi
            &&& directory[s].key_lo == chunks[k].key_lo
            &&& directory[s].node_base == 5722 * s
            &&& forall|t: int| 0 <= t < 5722 ==> nodes[5722 * s + t] == #[trigger] chunks[k].nodes@[t]
            &&& holds(directory, chunks[k].x, chunks[k].z, (chunks[k].key_hi, chunks[k].key_lo))
        }),
{
    let s = 8 * (chunks[k].z as int % 8) + chunks[k].x as int % 8;
    lemma_last_holder(chunks, layer, k, chunks.len());
    assert(holder(chunks, layer, s, chunks.len()) == Some(k));
    assert(directory[s] == slot_cell(chunks, s, Some(k)));
    assert(slot_nodes(chunks, nodes, s, Some(k)));
    assert forall|t: int| 0 <= t < 5722 implies nodes[5722 * s + t] == #[trigger] chunks[k].nodes@[t] by {
        assert(nodes.subrange(s * 5722, s * 5722 + 5722)[t] == chunks[k].nodes@[t]);
    }
}

/// The last chunk of a tier that belongs in a slot is its holder.
proof fn lemma_last_holder(chunks: Seq<RingChunk>, layer: u32, k: int, n: nat)
    requires
        0 <= k < n <= chunks.len(),
        chunks[k].layer == layer,
        forall|j: int|
            k < j < chunks.len() && (#[trigger] chunks[j]).layer == layer ==> (chunks[j].x - chunks[k].x) % 8 != 0 || (
            chunks[j].z - chunks[k].z) % 8 != 0,
    ensures
        holder(chunks, layer, 8 * (chunks[k].z as int % 8) + chunks[k].x as int % 8, n) == Some(k),
    decreases n,
{
    if n - 1 > k {
        let c = chunks[n - 1];
        lemma_last_holder(chunks, layer, k, (n - 1) as nat);
        if c.layer == layer {
            assert((c.x - chunks[k].x) % 8 != 0 || (c.z - chunks[k].z) % 8 != 0);
        }
    }
}

/// A slot that no chunk of the tier belongs in is empty: it has the tag of all ones, and its block is zeros.
pub proof fn law_other_slots_are_empty(
    directory: Seq<GpuHeightCell>,
    nodes: Seq<GpuHeightNode>,
    chunks: Seq<RingChunk>,
    layer: u32,
    s: int,
)
    requires
        is_ring(directory, nodes, chunks, layer, chunks.len()),
        0 <= s < 64,
        forall|j: int|
            0 <= j < chunks.len() && (#[trigger] chunks[j]).layer == layer ==> 8 * (chunks[j].z as int % 8)
                + chunks[j].x as int % 8 != s,
    ensures
        directory[s].key_hi == 0xFFFF_FFFF,
        directory[s].key_lo == 0xFFFF_FFFF,
        directory[s].node_base == 0,
        forall|t: int| 0 <= t < 5722 ==> (#[trigger] nodes[5722 * s + t])@ == seq![0u32, 0, 0, 0],
{
    lemma_no_holder(chunks, layer, s, chunks.len());
    assert(directory[s] == slot_cell(chunks, s, None));
    assert(slot_nodes(chunks, nodes, s, None));
}

proof fn lemma_no_holder(chunks: Seq<RingChunk>, layer: u32, s: int, n: nat)
    requires
        n <= chunks.len(),
        forall|j: int|
            0 <= j < chunks.len() && (#[trigger] chunks[j]).layer == layer ==> 8 * (chunks[j].z as int % 8)
                + chunks[j].x as int % 8 != s,
    ensures
        holder(chunks, layer, s, n) is None,
    decreases n,
{
    if n > 0 {
        lemma_no_holder(chunks, layer, s, (n - 1) as nat);
        assert(chunks[n - 1].layer == layer ==> 8 * (chunks[n - 1].z as int % 8) + chunks[n - 1].x as int % 8 != s);
    }
}

/// A directory holds a chunk just where the slot of its coordinates has its tag.
pub proof fn law_holding_is_by_tag(directory: Seq<GpuHeightCell>, x: i32, z: i32, key: (u32, u32))
    ensures
        holds(directory, x, z, key) <==> directory[8 * (z as int % 8) + x as int % 8].key_hi == key.0 && directory[8 * (
        z as int % 8) + x as int % 8].key_lo == key.1,
{
}

/// Whether slot `s` is held by the chunk at `p`; `at` gives the chunk of a tag.
pub open spec fn resides(directory: Seq<GpuHeightCell>, at: spec_fn(u32, u32) -> (i32, i32), s: int, p: (i32, i32)) -> bool {
    &&& !(directory[s].key_hi == 0xFFFF_FFFF && directory[s].key_lo == 0xFFFF_FFFF)
    &&& at(directory[s].key_hi, directory[s].key_lo) == p
}

/// The bounds of a ring hold every chunk that it has, and each side of them touches one.
pub proof fn law_bounds_hold_the_residents<D: Fn(u32, u32) -> (i32, i32)>(
    directory: Seq<GpuHeightCell>,
    decode: D,
    at: spec_fn(u32, u32) -> (i32, i32),
    list: Seq<(i32, i32)>,
    lo: (i32, i32),
    hi: (i32, i32),
)
    requires
        decoded(directory, decode, directory.len(), list),
        bounds_chunks(list, lo, hi),
        list.len() > 0,
        forall|a: u32, b: u32, p: (i32, i32)| #[trigger] call_ensures(decode, (a, b), p) ==> p == at(a, b),
    ensures
        forall|s: int, p: (i32, i32)|
            0 <= s < directory.len() && #[trigger] resides(directory, at, s, p) ==> lo.0 <= p.0 <= hi.0 && lo.1 <= p.1
                <= hi.1,
        exists|s: int, p: (i32, i32)| 0 <= s < directory.len() && #[trigger] resides(directory, at, s, p) && p.0 == lo.0,
        exists|s: int, p: (i32, i32)| 0 <= s < directory.len() && #[trigger] resides(directory, at, s, p) && p.1 == lo.1,
        exists|s: int, p: (i32, i32)| 0 <= s < directory.len() && #[trigger] resides(directory, at, s, p) && p.0 == hi.0,
        exists|s: int, p: (i32, i32)| 0 <= s < directory.len() && #[trigger] resides(directory, at, s, p) && p.1 == hi.1,
{
    lemma_residents_are_listed(directory, decode, at, directory.len(), list);
    let a = choose|i: int| 0 <= i < list.len() && (#[trigger] list[i]).0 == lo.0;
    let b = choose|i: int| 0 <= i < list.len() && (#[trigger] list[i]).1 == lo.1;
    let c = choose|i: int| 0 <= i < list.len() && (#[trigger] list[i]).0 == hi.0;
    let d = choose|i: int| 0 <= i < list.len() && (#[trigger] list[i]).1 == hi.1;
    lemma_listed_reside(directory, decode, at, directory.len(), list, a);
    lemma_listed_reside(directory, decode, at, directory.len(), list, b);
    lemma_listed_reside(directory, decode, at, directory.len(), list, c);
    lemma_listed_reside(directory, decode, at, directory.len(), list, d);
}

proof fn lemma_residents_are_listed<D: Fn(u32, u32) -> (i32, i32)>(
    directory: Seq<GpuHeightCell>,
    decode: D,
    at: spec_fn(u32, u32) -> (i32, i32),
    n: nat,
    list: Seq<(i32, i32)>,
)
    requires
        n <= directory.len(),
        decoded(directory, decode, n, list),
        forall|a: u32, b: u32, p: (i32, i32)| #[trigger] call_ensures(decode, (a, b), p) ==> p == at(a, b),
    ensures
        forall|s: int, p: (i32, i32)|
            0 <= s < n && #[trigger] resides(directory, at, s, p) ==> exists|i: int|
                0 <= i < list.len() && #[trigger] list[i] == p,
    decreases n,
{
    if n > 0 {
        let c = directory[n - 1];
        if c.key_hi == 0xFFFF_FFFF && c.key_lo == 0xFFFF_FFFF {
            lemma_residents_are_listed(directory, decode, at, (n - 1) as nat, list);
        } else {
            let rest = list.drop_last();
            lemma_residents_are_listed(directory, decode, at, (n - 1) as nat, rest);
            assert forall|s: int, p: (i32, i32)| 0 <= s < n && #[trigger] resides(directory, at, s, p) implies exists|
                i: int,
            | 0 <= i < list.len() && #[trigger] list[i] == p by {
                if s < n - 1 {
                    let i = choose|i: int| 0 <= i < rest.len() && #[trigger] rest[i] == p;
                    assert(list[i] == p);
                } else {
                    assert(list[list.len() - 1] == p);
                }
            }
        }
    }
}

proof fn lemma_listed_reside<D: Fn(u32, u32) -> (i32, i32)>(
    directory: Seq<GpuHeightCell>,
    decode: D,
    at: spec_fn(u32, u32) -> (i32, i32),
    n: nat,
    list: Seq<(i32, i32)>,
    i: int,
)
    requires
        n <= directory.len(),
        decoded(directory, decode, n, list),
        0 <= i < list.len(),
        forall|a: u32, b: u32, p: (i32, i32)| #[trigger] call_ensures(decode, (a, b), p) ==> p == at(a, b),
    ensures
        exists|s: int| 0 <= s < n && #[trigger] resides(directory, at, s, list[i]),
    decreases n,
{
    if n > 0 {
        let c = directory[n - 1];
        if c.key_hi == 0xFFFF_FFFF && c.key_lo == 0xFFFF_FFFF {
            lemma_listed_reside(directory, decode, at, (n - 1) as nat, list, i);
        } else if i < list.len() - 1 {
            lemma_listed_reside(directory, decode, at, (n - 1) as nat, list.drop_last(), i);
            assert(list.drop_last()[i] == list[i]);
        } else {
            assert(list[i] == list.last());
            assert(resides(directory, at, n - 1, list[i]));
        }
    }
}

/// The terrain is sampled while it is baked or once it is published, and only then. A miss is an error just when
/// rendering, and the height is made a distance just where nothing is being baked. Without anything to sample, rendering
/// finds the terrain uncovered, and everything else finds empty space.
pub proof fn law_terrain_queries(rendering: bool, baking: bool, published: bool)
    ensures
        query_of(rendering, baking, published) is Sample <==> baking || published,
        query_of(rendering, baking, published) matches TerrainQuery::Sample { strict, normalize } ==> strict == rendering
            && normalize == !baking,
        query_of(rendering, baking, published) is Uncovered <==> !baking && !published && rendering,
        query_of(rendering, baking, published) is Empty <==> !baking && !published && !rendering,
{
}

/// A ring holds a stretch of chunks just where each of them, its edges included, has its tag in the slot of its
/// coordinates. `tag` is what the key finder gives.
pub proof fn law_stretches_are_held_whole<K: Fn(i32, i32) -> (u32, u32)>(
    directory: Seq<GpuHeightCell>,
    rect: ChunkRect,
    key_of: K,
    tag: spec_fn(i32, i32) -> (u32, u32),
)
    requires
        forall|x: i32, z: i32, key: (u32, u32)| #[trigger] call_ensures(key_of, (x, z), key) ==> key == tag(x, z),
    ensures
        rect_held(directory, rect, key_of) ==> forall|x: i32, z: i32|
            rect.x0 <= x <= rect.x1 && rect.z0 <= z <= rect.z1 ==> ({
                let cell = directory[8 * (z as int % 8) + x as int % 8];
                cell.key_hi == (#[trigger] tag(x, z)).0 && cell.key_lo == tag(x, z).1
            }),
        rect_missed(directory, rect, key_of) ==> exists|x: i32, z: i32|
            rect.x0 <= x <= rect.x1 && rect.z0 <= z <= rect.z1 && ({
                let cell = directory[8 * (z as int % 8) + x as int % 8];
                cell.key_hi != (#[trigger] tag(x, z)).0 || cell.key_lo != tag(x, z).1
            }),
{
    if rect_held(directory, rect, key_of) {
        assert forall|x: i32, z: i32| rect.x0 <= x <= rect.x1 && rect.z0 <= z <= rect.z1 implies ({
            let cell = directory[8 * (z as int % 8) + x as int % 8];
            cell.key_hi == (#[trigger] tag(x, z)).0 && cell.key_lo == tag(x, z).1
        }) by {
            assert(rect.has(x, z));
            assert(holds_keyed(directory, key_of, x, z, true));
        }
    }
    if rect_missed(directory, rect, key_of) {
        let (x, z) = choose|x: i32, z: i32| #[trigger]
            rect.has(x, z) && holds_keyed(directory, key_of, x, z, false);
        let t = tag(x, z);
        assert(holds_keyed(directory, key_of, x, z, false));
    }
}

} // verus!
