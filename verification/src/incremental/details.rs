//! Which bricks an update touches, where they go, and what is handed to the GPU for them.

use super::commands::{
    awaited_class, brick_aabb_command, brick_write, freed_aabbs, freed_writes, gpu_parts, is_encoded, pack_command, table_key,
    GpuAabbCommand, GpuClassifyOut, GpuCpuWrite,
};
use super::laws::{apply_change, apply_changes};
use super::plan::{entered, index_for, left, palette_for, settled, Places};
use super::snapshot::Buffers;
use super::{
    class_of_voxels, entering, freed_change, index_sizes, is_delta, is_dirty, is_freed, is_seed, leaves, near, palette_sizes,
    reserved, slot_change, slot_changes, stream_words, ChangeView, ChangedSlot, Classification, DenseSlot, PackerState, RepackDelta,
    ResidentPacker,
};
use crate::brickmap::Key;
use crate::gpu::GpuBrickAabb;
use crate::pack::{key_ok, ResidentBrick, VoxelsView};
use crate::paletted::{first_seen, index_stream, palette_words, words_for};
use crate::pools::{class_for, give_block, take_block};
use vstd::prelude::*;

verus! {

/// Two bricks border on each other where they are of one level and at most one apart on each axis.
pub proof fn law_bordering_bricks(a: Key, b: Key)
    ensures
        near(a, b) <==> a.3 == b.3 && (a.0 == b.0 || a.0 == b.0 + 1 || a.0 == b.0 - 1) && (a.1 == b.1 || a.1 == b.1 + 1
            || a.1 == b.1 - 1) && (a.2 == b.2 || a.2 == b.2 + 1 || a.2 == b.2 - 1),
        near(a, b) == near(b, a),
{
}

/// A brick of the new set is packed anew where one that borders on it enters, leaves or was rewritten. And it is packed
/// anew only where one enters or was rewritten next to it, or one left at most two away.
pub proof fn law_what_is_packed_anew(
    resident: Set<Key>,
    m: Set<Key>,
    enter: Seq<Key>,
    rewritten: Seq<Key>,
    k: Key,
    c: Key,
)
    requires
        forall|j: Key| #[trigger] enter.contains(j) ==> m.contains(j) && !resident.contains(j),
    ensures
        m.contains(k) && near(c, k) && enter.contains(c) ==> is_dirty(resident, m, enter, rewritten, k),
        m.contains(k) && near(c, k) && resident.contains(c) && !m.contains(c) ==> is_dirty(
            resident,
            m,
            enter,
            rewritten,
            k,
        ),
        m.contains(k) && near(c, k) && m.contains(c) && rewritten.contains(c) ==> is_dirty(
            resident,
            m,
            enter,
            rewritten,
            k,
        ),
        is_dirty(resident, m, enter, rewritten, k) ==> m.contains(k) && {
            ||| exists|j: Key| #[trigger] enter.contains(j) && near(j, k)
            ||| exists|j: Key| #[trigger] rewritten.contains(j) && near(j, k)
            ||| exists|j: Key| #[trigger]
                resident.contains(j) && !m.contains(j) && j.3 == k.3 && -2 <= j.0 - k.0 <= 2 && -2 <= j.1 - k.1 <= 2 && -2
                    <= j.2 - k.2 <= 2
        },
{
    if m.contains(k) && near(c, k) {
        if enter.contains(c) {
            assert(is_seed(resident, m, enter, rewritten, c));
        }
        if resident.contains(c) && !m.contains(c) {
            assert(leaves(resident, m, c));
            assert(is_seed(resident, m, enter, rewritten, k));
            assert(near(k, k));
        }
        if m.contains(c) && rewritten.contains(c) {
            assert(is_seed(resident, m, enter, rewritten, c));
        }
    }
    if is_dirty(resident, m, enter, rewritten, k) {
        let s = choose|s: Key| #[trigger] is_seed(resident, m, enter, rewritten, s) && near(s, k);
        if !enter.contains(s) && !rewritten.contains(s) {
            let d = choose|d: Key| #[trigger] leaves(resident, m, d) && near(d, s);
            assert(resident.contains(d));
        }
    }
}

/// The bricks that enter are listed bricks that are not resident yet, each once and as many as there is room for. Where
/// there is room left, they are all of those.
pub proof fn law_who_enters(resident: Set<Key>, room: int, entries: Seq<ResidentBrick>, k: Key)
    requires
        0 <= room,
    ensures
        entering(resident, room, entries).len() <= room,
        entering(resident, room, entries).no_duplicates(),
        entering(resident, room, entries).contains(k) ==> !resident.contains(k) && exists|i: int|
            0 <= i < entries.len() && #[trigger] entries[i].key_spec() == k,
        entering(resident, room, entries).len() < room ==> forall|i: int|
            0 <= i < entries.len() && !resident.contains(#[trigger] entries[i].key_spec()) ==> entering(
                resident,
                room,
                entries,
            ).contains(entries[i].key_spec()),
    decreases entries.len(),
{
    if entries.len() > 0 {
        let front = entries.drop_last();
        let n = entries.len() - 1;
        law_who_enters(resident, room, front, k);
        let before = entering(resident, room, front);
        let after = entering(resident, room, entries);
        let last = entries[n].key_spec();
        assert(entries[n] == entries.last());
        assert(forall|i: int| 0 <= i < n ==> #[trigger] front[i] == entries[i]);
        assert(forall|j: Key| #[trigger] before.contains(j) ==> after.contains(j)) by {
            assert forall|j: Key| #[trigger] before.contains(j) implies after.contains(j) by {
                let w = choose|w: int| 0 <= w < before.len() && before[w] == j;
                assert(after[w] == j);
            }
        }
        if after.len() > before.len() {
            assert(after[before.len() as int] == last);
        }
        if after.contains(k) {
            let w = choose|w: int| 0 <= w < after.len() && after[w] == k;
            if w < before.len() {
                assert(before[w] == k);
                let i = choose|i: int| 0 <= i < front.len() && #[trigger] front[i].key_spec() == k;
                assert(entries[i].key_spec() == k);
            } else {
                assert(entries[n].key_spec() == k);
            }
        }
        if after.len() < room {
            assert forall|i: int| 0 <= i < entries.len() && !resident.contains(#[trigger] entries[i].key_spec()) implies after.contains(
                entries[i].key_spec(),
            ) by {
                if i < n {
                    assert(before.contains(front[i].key_spec()));
                }
            }
        }
    }
}

/// The blocks for index streams: one size for each width, which is what the stream of a thousand cells takes. Those for
/// palettes are two words, and twice as many with each size, up to 65536.
pub proof fn law_block_sizes(c: int)
    ensures
        index_sizes().len() == 5,
        index_sizes()[0] == stream_words(1) && stream_words(1) == 32,
        index_sizes()[1] == stream_words(2) && stream_words(2) == 63,
        index_sizes()[2] == stream_words(4) && stream_words(4) == 125,
        index_sizes()[3] == stream_words(8) && stream_words(8) == 250,
        index_sizes()[4] == stream_words(16) && stream_words(16) == 500,
        palette_sizes().len() == 16,
        palette_sizes()[0] == 2,
        0 <= c < 15 ==> palette_sizes()[c + 1] == 2 * palette_sizes()[c],
        palette_sizes()[15] == 65536,
{
    assert(c == 0 || c == 1 || c == 2 || c == 3 || c == 4 || c == 5 || c == 6 || c == 7 || c == 8 || c == 9 || c == 10 || c
        == 11 || c == 12 || c == 13 || c == 14 || c < 0 || c > 14);
}

/// A stream of a thousand cells takes as many words as its bits fill.
pub proof fn law_stream_words(bits: u8)
    ensures
        1000 * bits <= 32 * stream_words(bits) < 1000 * bits + 32,
{
}

/// A brick that stays dense at the width it has keeps its block of indices, and one whose palette stays in its class keeps
/// that of its palette. Otherwise the old block is given back and another taken, which is of the size that is needed.
pub proof fn law_blocks_are_kept(p: Places, e: DenseSlot, bits: u8, k: u32)
    ensures
        bits == e.index_bits ==> index_for(p.index, Some(e), bits) == (p.index, e.index_offset),
        bits != e.index_bits ==> index_for(p.index, Some(e), bits) == take_block(
            index_sizes(),
            give_block(p.index, e.index_offset, words_for(1000, e.index_bits as nat) as u32),
            words_for(1000, bits as nat) as int,
        ),
        index_for(p.index, None, bits) == take_block(index_sizes(), p.index, words_for(1000, bits as nat) as int),
        class_for(palette_sizes(), e.palette_k as int) == class_for(palette_sizes(), k as int) ==> palette_for(
            p.palette,
            Some(e),
            k,
        ) == (p.palette, e.palette_offset),
        class_for(palette_sizes(), e.palette_k as int) != class_for(palette_sizes(), k as int) ==> palette_for(
            p.palette,
            Some(e),
            k,
        ) == take_block(palette_sizes(), give_block(p.palette, e.palette_offset, e.palette_k), k as int),
        palette_for(p.palette, None, k) == take_block(palette_sizes(), p.palette, k as int),
{
}

/// Settling a brick keeps its slot and every other brick's place. As one block it has no blocks, and those it had are
/// given back; as a dense one it has the width that its palette needs, and the two blocks for it.
pub proof fn law_settling_a_brick(p: Places, k: Key, j: Key, block: crate::palette::BlockId, palette_k: u32)
    requires
        p.resident.dom().contains(k),
    ensures
        ({
            let q = settled(p, k, Classification::Uniform(block));
            &&& q.resident[k].slot == p.resident[k].slot
            &&& q.resident[k].dense is None
            &&& j != k ==> q.resident.dom().contains(j) == p.resident.dom().contains(j) && q.resident[j] == p.resident[j]
            &&& q.slots == p.slots
            &&& p.resident[k].dense is None ==> q.index == p.index && q.palette == p.palette
            &&& p.resident[k].dense matches Some(d) ==> {
                &&& q.index.waiting == p.index.waiting.push((d.index_offset, words_for(1000, d.index_bits as nat) as u32))
                &&& q.palette.waiting == p.palette.waiting.push((d.palette_offset, d.palette_k))
                &&& q.index.free == p.index.free && q.index.used == p.index.used
                &&& q.palette.free == p.palette.free && q.palette.used == p.palette.used
            }
        }),
        ({
            let q = settled(p, k, Classification::Dense { palette_k });
            let d = q.resident[k].dense->0;
            &&& q.resident[k].slot == p.resident[k].slot
            &&& q.resident[k].dense is Some
            &&& d.palette_k == palette_k
            &&& palette_k <= 2 ==> d.index_bits == 1
            &&& 2 < palette_k <= 4 ==> d.index_bits == 2
            &&& 4 < palette_k <= 16 ==> d.index_bits == 4
            &&& 16 < palette_k <= 256 ==> d.index_bits == 8
            &&& 256 < palette_k ==> d.index_bits == 16
            &&& j != k ==> q.resident.dom().contains(j) == p.resident.dom().contains(j) && q.resident[j] == p.resident[j]
            &&& q.slots == p.slots
            &&& (q.index, d.index_offset) == index_for(p.index, p.resident[k].dense, d.index_bits)
            &&& (q.palette, d.palette_offset) == palette_for(p.palette, p.resident[k].dense, palette_k)
        }),
{
}

/// A brick that leaves gives back its slot and its blocks, and is not resident any more. One that enters takes a slot and
/// has no blocks yet; one that is there already, or for which there is no slot, changes nothing.
pub proof fn law_entering_and_leaving(p: Places, k: Key, j: Key)
    requires
        p.slots.cap <= u32::MAX,
    ensures
        p.resident.dom().contains(k) ==> {
            let q = left(p, k);
            &&& !q.resident.dom().contains(k)
            &&& j != k ==> q.resident.dom().contains(j) == p.resident.dom().contains(j) && q.resident[j] == p.resident[j]
            &&& q.slots.waiting == p.slots.waiting.push(p.resident[k].slot)
            &&& q.slots.free == p.slots.free && q.slots.next == p.slots.next
            &&& p.resident[k].dense is None ==> q.index == p.index && q.palette == p.palette
            &&& p.resident[k].dense matches Some(d) ==> {
                &&& q.index.waiting == p.index.waiting.push((d.index_offset, words_for(1000, d.index_bits as nat) as u32))
                &&& q.palette.waiting == p.palette.waiting.push((d.palette_offset, d.palette_k))
            }
        },
        p.resident.dom().contains(k) ==> entered(p, k) == p,
        !p.resident.dom().contains(k) && p.slots.next >= p.slots.cap && p.slots.free.len() == 0 ==> entered(p, k) == p,
        !p.resident.dom().contains(k) && 0 <= p.slots.next < p.slots.cap ==> {
            let q = entered(p, k);
            &&& q.resident.dom().contains(k)
            &&& q.resident[k].slot == p.slots.next
            &&& q.resident[k].dense is None
            &&& j != k ==> q.resident.dom().contains(j) == p.resident.dom().contains(j) && q.resident[j] == p.resident[j]
            &&& q.index == p.index && q.palette == p.palette
        },
        !p.resident.dom().contains(k) && p.slots.next >= p.slots.cap && p.slots.free.len() > 0 ==> {
            let q = entered(p, k);
            &&& q.resident[k].slot == p.slots.free[p.slots.free.len() - 1]
            &&& q.resident[k].dense is None
        },
{
}

/// Entry `n` of a neighbour table is the brick one step away in each direction that the entry says, x fastest, then y,
/// then z; the fourteenth is the brick itself.
pub proof fn law_neighbour_table(k: Key, dx: int, dy: int, dz: int)
    requires
        key_ok(k),
        -1 <= dx <= 1 && -1 <= dy <= 1 && -1 <= dz <= 1,
    ensures
        ({
            let j = table_key(k, (dx + 1) + 3 * (dy + 1) + 9 * (dz + 1));
            j.0 == k.0 + dx && j.1 == k.1 + dy && j.2 == k.2 + dz && j.3 == k.3
        }),
        table_key(k, 13) == k,
{
    let n = (dx + 1) + 3 * (dy + 1) + 9 * (dz + 1);
    assert(n % 3 == dx + 1 && (n / 3) % 3 == dy + 1 && n / 9 == dz + 1);
}

/// What is read back of a brick's classification: one block where the first word is not zero, that of the low sixteen bits
/// of the second; else a palette of as many blocks as the third says.
pub proof fn law_classification_reads_back(out: GpuClassifyOut)
    ensures
        out.is_uniform == 0 ==> Classification::of_out(out) == (Classification::Dense { palette_k: out.palette_k }),
        out.is_uniform != 0 ==> (Classification::of_out(out) matches Classification::Uniform(b) && b.0 == out.uniform_block
            % 0x1_0000),
{
}

/// The classification of a brick is that of its content: one block, or as many as its palette has.
pub proof fn law_classification(v: VoxelsView)
    ensures
        v matches VoxelsView::Uniform(b) ==> class_of_voxels(v) == Classification::Uniform(b),
        v matches VoxelsView::Dense(cells) ==> (first_seen(cells).len() <= 65536 ==> (class_of_voxels(
            v,
        ) matches Classification::Dense { palette_k } && palette_k == first_seen(cells).len())),
{
}

/// Classifications come back in the order of the bricks that wait for them.
pub proof fn law_awaited_classes(ks: Seq<Key>, outs: Seq<GpuClassifyOut>, i: int)
    requires
        ks.no_duplicates(),
        0 <= i < ks.len(),
    ensures
        awaited_class(ks, outs, ks[i]) == Classification::of_out(outs[i]),
{
    let j = ks.index_of(ks[i]);
    assert(ks[j] == ks[i]);
}

/// The command to encode a brick: its first voxel is at eight times its coordinate, and its corner at that; the slot, the
/// level, the width and the two offsets are those of its place.
pub proof fn law_encode_command(st: PackerState, k: Key, base: u32, d: DenseSlot)
    requires
        key_ok(k),
        st.resident[k].dense == Some(d),
    ensures
        ({
            let c = pack_command(st, k, base);
            &&& c.origin_x == 8 * k.0 && c.origin_y == 8 * k.1 && c.origin_z == 8 * k.2
            &&& c.world_min_x == k.0 && c.world_min_y == k.1 && c.world_min_z == k.2
            &&& c.slot == st.resident[k].slot
            &&& c.lod == k.3
            &&& c.index_bits == d.index_bits
            &&& c.index_word_offset == d.index_offset
            &&& c.palette_word_offset == d.palette_offset
            &&& c.neighbour_base == base
            &&& c._pad0 == 0 && c._pad1 == 0 && c._pad2 == 0
        }),
{
}

/// The command for the box of a slot: that of its brick, with one as its flag, or none, with zero and nothing else.
pub proof fn law_box_commands(slot: u32, k: Key)
    ensures
        ({
            let c = GpuAabbCommand::for_brick(slot, k);
            &&& c.slot == slot && c.lod == k.3 && c.flag == 1
            &&& c.world_min_x == k.0 && c.world_min_y == k.1 && c.world_min_z == k.2
            &&& c._pad0 == 0 && c._pad1 == 0
        }),
        ({
            let c = GpuAabbCommand::for_freed(slot);
            &&& c.slot == slot && c.lod == 0 && c.flag == 0
            &&& c.world_min_x == 0 && c.world_min_y == 0 && c.world_min_z == 0
            &&& c._pad0 == 0 && c._pad1 == 0
        }),
{
}

/// What goes to the GPU for one brick. Its meta is written for a uniform brick whose meta or box is new; a dense one is
/// encoded where its cells are new; and its box is written in either case.
pub proof fn law_parts_of_one_brick(a: PackerState, b: PackerState, k: Key)
    ensures
        ({
            let slot = b.resident[k].slot;
            let stays = a.metas.dom().contains(slot) && a.aabbs.dom().contains(slot) && a.metas[slot] == b.metas[slot]
                && a.aabbs[slot] == b.aabbs[slot];
            let same = a.cells.dom().contains(slot) && b.cells.dom().contains(slot) && a.cells[slot] == b.cells[slot];
            &&& b.resident[k].dense is None && !stays ==> brick_write(a, b, k) == seq![GpuCpuWrite { slot, meta: b.metas[slot] }]
            &&& b.resident[k].dense is Some || stays ==> brick_write(a, b, k).len() == 0
            &&& is_encoded(a, b, k) <==> b.resident[k].dense is Some && !same
            &&& !stays || is_encoded(a, b, k) ==> brick_aabb_command(a, b, k) == seq![GpuAabbCommand::for_brick(slot, k)]
            &&& stays && !is_encoded(a, b, k) ==> brick_aabb_command(a, b, k).len() == 0
        }),
{
}

/// The commands to encode are those of the bricks that are encoded, in order. Their tables come one after the other, twenty
/// seven entries each: one for each command, or one for each brick that was asked about.
pub proof fn law_commands_in_order(a: PackerState, b: PackerState, ks: Seq<Key>, prebuilt: bool, c: int)
    requires
        0 <= c < gpu_parts(a, b, ks, prebuilt).commands.len(),
    ensures
        gpu_parts(a, b, ks, prebuilt).keys.len() == gpu_parts(a, b, ks, prebuilt).commands.len(),
        exists|i: int|
            #![trigger ks[i]]
            c <= i < ks.len() && gpu_parts(a, b, ks, prebuilt).keys[c] == ks[i] && is_encoded(a, b, ks[i]) && gpu_parts(
                a,
                b,
                ks,
                prebuilt,
            ).commands[c] == pack_command(
                b,
                ks[i],
                (if prebuilt {
                    27 * i
                } else {
                    27 * c
                }) as u32,
            ),
    decreases ks.len(),
{
    lemma_parts_len(a, b, ks, prebuilt);
    if ks.len() > 0 {
        let front = ks.drop_last();
        let r = gpu_parts(a, b, front, prebuilt);
        lemma_parts_len(a, b, front, prebuilt);
        if c < r.commands.len() {
            law_commands_in_order(a, b, front, prebuilt, c);
            let i = choose|i: int|
                #![trigger front[i]]
                c <= i < front.len() && r.keys[c] == front[i] && is_encoded(a, b, front[i]) && r.commands[c] == pack_command(
                    b,
                    front[i],
                    (if prebuilt {
                        27 * i
                    } else {
                        27 * c
                    }) as u32,
                );
            assert(ks[i] == front[i]);
        } else {
            let i = ks.len() - 1;
            assert(ks[i] == ks.last());
        }
    }
}

proof fn lemma_parts_len(a: PackerState, b: PackerState, ks: Seq<Key>, prebuilt: bool)
    ensures
        gpu_parts(a, b, ks, prebuilt).keys.len() == gpu_parts(a, b, ks, prebuilt).commands.len(),
        gpu_parts(a, b, ks, prebuilt).commands.len() <= ks.len(),
    decreases ks.len(),
{
    if ks.len() > 0 {
        lemma_parts_len(a, b, ks.drop_last(), prebuilt);
    }
}

/// Every brick that is to be encoded has a command.
pub proof fn law_every_encoded_brick_has_a_command(a: PackerState, b: PackerState, ks: Seq<Key>, prebuilt: bool, i: int)
    requires
        0 <= i < ks.len(),
        is_encoded(a, b, ks[i]),
    ensures
        gpu_parts(a, b, ks, prebuilt).keys.contains(ks[i]),
    decreases ks.len(),
{
    let front = ks.drop_last();
    let r = gpu_parts(a, b, front, prebuilt);
    let all = gpu_parts(a, b, ks, prebuilt);
    if i < front.len() {
        assert(front[i] == ks[i]);
        law_every_encoded_brick_has_a_command(a, b, front, prebuilt, i);
        let w = choose|w: int| 0 <= w < r.keys.len() && r.keys[w] == ks[i];
        assert(all.keys[w] == ks[i]);
    } else {
        assert(ks.last() == ks[i]);
        assert(all.keys[r.keys.len() as int] == ks[i]);
    }
}

/// A slot that was freed gets a meta of zeros and a box that nothing hits, and no words.
pub proof fn law_freed_slots(freed: Seq<u32>, i: int)
    requires
        0 <= i < freed.len(),
    ensures
        ({
            let c = freed_change(freed[i]);
            &&& c.slot == freed[i]
            &&& c.aabb == GpuBrickAabb::Degenerate
            &&& c.index is None && c.palette is None
            &&& c.index_word_offset == 0 && c.palette_word_offset == 0
            &&& c.meta.voxel_offset == 0 && c.meta.lod_and_bits == 0 && c.meta.palette_base == 0
            &&& c.meta.voxel_origin@ == (0i32, 0i32, 0i32) && c.meta.world_min@ == (0i32, 0i32, 0i32)
        }),
        freed_writes(freed).len() == freed.len(),
        freed_writes(freed)[i].slot == freed[i],
        freed_writes(freed)[i].meta == freed_change(freed[i]).meta,
        freed_aabbs(freed).len() == freed.len(),
        freed_aabbs(freed)[i] == GpuAabbCommand::for_freed(freed[i]),
{
}

/// What is uploaded for a brick that was packed anew: nothing where its meta, its box and its cells are what they were;
/// else its meta and its box, and where it is dense and its cells are new, its indices and its palette at its offsets.
pub proof fn law_uploads_of_a_brick(a: PackerState, b: PackerState, k: Key)
    ensures
        ({
            let p = b.resident[k];
            let stays = a.metas.dom().contains(p.slot) && a.aabbs.dom().contains(p.slot) && a.metas[p.slot]
                == b.metas[p.slot] && a.aabbs[p.slot] == b.aabbs[p.slot];
            let same = p.dense is None || (a.cells.dom().contains(p.slot) && b.cells.dom().contains(p.slot)
                && a.cells[p.slot] == b.cells[p.slot]);
            let list = slot_change(a, b, k);
            &&& stays && same <==> list.len() == 0
            &&& !(stays && same) ==> {
                let c = list[0];
                &&& list.len() == 1
                &&& c.slot == p.slot
                &&& c.meta == b.metas[p.slot]
                &&& c.aabb == b.aabbs[p.slot]
                &&& same ==> c.index is None && c.palette is None
                &&& !same ==> c.index == Some(index_stream(b.cells[p.slot])) && c.palette == Some(
                    palette_words(b.cells[p.slot]),
                )
                &&& p.dense matches Some(d) ==> c.index_word_offset == d.index_offset && c.palette_word_offset
                    == d.palette_offset
                &&& p.dense is None ==> c.index_word_offset == 0 && c.palette_word_offset == 0
            }
        }),
{
}

/// A change is written into the buffers at its slot and at its offsets, and nowhere else.
pub proof fn law_writing_a_change(b: Buffers, c: ChangeView, s: int, i: int)
    requires
        c.slot < b.metas.len() == b.aabbs.len(),
        0 <= s < b.metas.len(),
    ensures
        ({
            let a = apply_change(b, c);
            &&& a.metas.len() == b.metas.len() && a.aabbs.len() == b.aabbs.len()
            &&& a.indices.len() == b.indices.len() && a.palettes.len() == b.palettes.len()
            &&& s == c.slot ==> a.metas[s] == c.meta && a.aabbs[s] == c.aabb
            &&& s != c.slot ==> a.metas[s] == b.metas[s] && a.aabbs[s] == b.aabbs[s]
            &&& 0 <= i < b.indices.len() ==> a.indices[i] == (match c.index {
                Some(w) => if c.index_word_offset <= i < c.index_word_offset + w.len() {
                    w[i - c.index_word_offset]
                } else {
                    b.indices[i]
                },
                None => b.indices[i],
            })
            &&& 0 <= i < b.palettes.len() ==> a.palettes[i] == (match c.palette {
                Some(w) => if c.palette_word_offset <= i < c.palette_word_offset + w.len() {
                    w[i - c.palette_word_offset]
                } else {
                    b.palettes[i]
                },
                None => b.palettes[i],
            })
        }),
{
}

/// Changes are written one after the other.
pub proof fn law_writing_changes(b: Buffers, cs: Seq<ChangeView>, c: ChangeView)
    ensures
        apply_changes(b, Seq::empty()) == b,
        apply_changes(b, cs.push(c)) == apply_change(apply_changes(b, cs), c),
{
    assert(cs.push(c).drop_last() =~= cs);
}

/// What is reserved for so many bricks: their words, or as many as can be counted.
pub proof fn law_reserved_words(bricks: u32, words: u32)
    ensures
        bricks * words <= 0xFFFF_FFFF ==> reserved(bricks, words) == bricks * words,
        bricks * words > 0xFFFF_FFFF ==> reserved(bricks, words) == 0xFFFF_FFFF,
{
}

/// The changes of a list of bricks are those of each, in order.
pub proof fn law_uploads_in_order(a: PackerState, b: PackerState, ks: Seq<Key>, k: Key)
    ensures
        slot_changes(a, b, Seq::empty()).len() == 0,
        slot_changes(a, b, ks.push(k)) == slot_changes(a, b, ks) + slot_change(a, b, k),
{
    assert(ks.push(k).drop_last() =~= ks);
}

/// An update in two halves: between them the packer waits for the classes of the bricks that are packed anew, in the order
/// of their keys, with the slots of the bricks that left; after them it does not. The bricks that were marked as rewritten
/// are forgotten once they were taken up.
pub proof fn law_waiting_for_classes(
    o: &ResidentPacker,
    mid: &ResidentPacker,
    n: &ResidentPacker,
    entries: Seq<ResidentBrick>,
    outs: Seq<GpuClassifyOut>,
    k: Key,
    s: u32,
)
    requires
        ResidentPacker::is_prepared(o, mid, entries),
        ResidentPacker::is_finished(mid, n, outs),
    ensures
        mid.awaits(),
        !n.awaits(),
        outs.len() == mid.awaited().len(),
        mid.awaited().contains(k) <==> o.repacks(entries, k),
        mid.awaited().no_duplicates(),
        mid.awaited_freed().contains(s) <==> exists|d: Key| #[trigger]
            o.state().resident.dom().contains(d) && !crate::pack::resident_blocks(entries).dom().contains(d)
                && o.state().resident[d].slot == s,
        mid.awaited_topology() <==> mid.awaited_freed().len() > 0 || o.newcomers(entries).len() > 0,
        mid.rewrites().len() == 0,
        n.rewrites().len() == 0,
        n.stride() == mid.stride(),
{
    let m = crate::pack::resident_blocks(entries).dom();
    assert(mid.awaited_freed().contains(s) <==> is_freed(o.state(), m, s));
    if is_freed(o.state(), m, s) {
        let d = choose|d: Key| #[trigger] leaves(o.state().resident.dom(), m, d) && o.state().resident[d].slot == s;
        assert(o.state().resident.dom().contains(d));
    }
    if exists|d: Key| #[trigger]
        o.state().resident.dom().contains(d) && !m.contains(d) && o.state().resident[d].slot == s {
        let d = choose|d: Key| #[trigger]
            o.state().resident.dom().contains(d) && !m.contains(d) && o.state().resident[d].slot == s;
        assert(leaves(o.state().resident.dom(), m, d));
    }
}

/// What an update says of itself: the slots of the bricks that left, and whether any left or entered.
pub proof fn law_what_an_update_frees(
    o: &ResidentPacker,
    n: &ResidentPacker,
    entries: Seq<ResidentBrick>,
    delta: RepackDelta,
    s: u32,
)
    requires
        is_delta(o, n, entries, delta),
    ensures
        delta.freed@.contains(s) <==> exists|d: Key| #[trigger]
            o.state().resident.dom().contains(d) && !crate::pack::resident_blocks(entries).dom().contains(d)
                && o.state().resident[d].slot == s,
        delta.freed@.no_duplicates(),
        delta.topology_changed <==> delta.freed@.len() > 0 || o.newcomers(entries).len() > 0,
        forall|i: int|
            0 <= i < delta.freed@.len() ==> #[trigger] delta.changes()[i] == freed_change(delta.freed@[i]),
{
    let m = crate::pack::resident_blocks(entries).dom();
    assert(delta.freed@.contains(s) <==> is_freed(o.state(), m, s));
    if is_freed(o.state(), m, s) {
        let d = choose|d: Key| #[trigger] leaves(o.state().resident.dom(), m, d) && o.state().resident[d].slot == s;
        assert(o.state().resident.dom().contains(d));
    }
    if exists|d: Key| #[trigger]
        o.state().resident.dom().contains(d) && !m.contains(d) && o.state().resident[d].slot == s {
        let d = choose|d: Key| #[trigger]
            o.state().resident.dom().contains(d) && !m.contains(d) && o.state().resident[d].slot == s;
        assert(leaves(o.state().resident.dom(), m, d));
    }
}

/// A changed slot says what is to be written: the slot, its meta and its box, and the words with their offsets.
pub proof fn law_changed_slot(c: ChangedSlot)
    ensures
        c@.slot == c.slot,
        c@.meta == c.meta,
        c@.aabb == c.aabb,
        c.index matches Some(w) ==> c@.index == Some(w@),
        c.index is None ==> c@.index is None,
        c.palette matches Some(w) ==> c@.palette == Some(w@),
        c.palette is None ==> c@.palette is None,
        c@.index_word_offset == c.index_word_offset,
        c@.palette_word_offset == c.palette_word_offset,
{
}

/// A new packer has no bricks and has written nothing; all its slots are fresh, and all its words free.
pub proof fn law_new_packer(p: &ResidentPacker, capacity: u32, k: Key, s: u32)
    requires
        ResidentPacker::is_fresh(p, capacity),
    ensures
        !p.state().resident.dom().contains(k),
        !p.state().metas.dom().contains(s) && !p.state().aabbs.dom().contains(s) && !p.state().cells.dom().contains(s),
        p.slot_cap() == capacity,
        p.slot_plan().cap == capacity && p.slot_plan().next == 0,
        p.slot_plan().free.len() == 0 && p.slot_plan().waiting.len() == 0,
        p.index_used() == 0 && p.palette_used() == 0,
        p.index_cap() == 0 && p.palette_cap() == 0,
        p.rewrites().len() == 0,
        !p.awaits() && !p.grown() && p.stride() == 0,
{
}

} // verus!
